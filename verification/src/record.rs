//! Recording literals and matches: their codes in the LZ buffer and the counts of
//! their symbols.

use vstd::prelude::*;
use crate::huffman::HuffmanOxide;
use crate::lz::{LZOxide, LzCode, lemma_inv_push, lemma_lz_total_bound};
use crate::codes::{len_symbol, dist_sym, lemma_symbols};
use crate::tables::{LEN_SYM, SMALL_DIST_SYM, LARGE_DIST_SYM};

verus! {

/// Records a literal: its code in the buffer, and one more occurrence of its symbol.
pub fn record_literal(h: &mut HuffmanOxide, lz: &mut LZOxide, lit: u8, Ghost(items): Ghost<Seq<LzCode>>)
    requires
        old(lz).inv(items),
        old(lz).code_position + 2 <= 65536,
        old(h).count@.len() == 864,
        old(h).count@[lit as int] < 65535,
    ensures
        final(lz).inv(items.push(LzCode::Lit(lit))),
        old(lz).code_position + 1 <= final(lz).code_position <= old(lz).code_position + 2,
        final(h).count@ == old(h).count@.update(lit as int, (old(h).count@[lit as int] + 1) as u16),
        final(h).codes == old(h).codes,
        final(h).code_sizes == old(h).code_sizes,
{
    let ghost lz0 = *lz;
    proof {
        lemma_lz_total_bound(items);
    }
    lz.total_bytes += 1;
    lz.write_code(lit);
    let fp = lz.flag_position;
    lz.codes[fp] = lz.codes[fp] >> 1;
    lz.consume_flag();
    proof {
        lemma_inv_push(lz0, *lz, items, LzCode::Lit(lit));
    }
    h.count[lit as usize] += 1;
}

/// Records a match of `match_len` bytes at distance `match_dist`: its code in the buffer,
/// and one more occurrence of its length symbol and of its distance symbol.
pub fn record_match(
    h: &mut HuffmanOxide,
    lz: &mut LZOxide,
    match_len: u32,
    match_dist: u32,
    Ghost(items): Ghost<Seq<LzCode>>,
)
    requires
        3 <= match_len <= 258,
        1 <= match_dist <= 32768,
        old(lz).inv(items),
        old(lz).code_position + 4 <= 65536,
        old(h).count@.len() == 864,
        old(h).count@[len_symbol((match_len - 3) as u8)] < 65535,
        old(h).count@[288 + dist_sym((match_dist - 1) as u16)] < 65535,
    ensures
        final(lz).inv(items.push(LzCode::Match((match_len - 3) as u8, (match_dist - 1) as u16))),
        old(lz).code_position + 3 <= final(lz).code_position <= old(lz).code_position + 4,
        final(h).count@ == old(h).count@.update(
            288 + dist_sym((match_dist - 1) as u16),
            (old(h).count@[288 + dist_sym((match_dist - 1) as u16)] + 1) as u16,
        ).update(
            len_symbol((match_len - 3) as u8),
            (old(h).count@[len_symbol((match_len - 3) as u8)] + 1) as u16,
        ),
        final(h).codes == old(h).codes,
        final(h).code_sizes == old(h).code_sizes,
{
    let ghost lz0 = *lz;
    let ghost c = LzCode::Match((match_len - 3) as u8, (match_dist - 1) as u16);
    proof {
        lemma_lz_total_bound(items);
        lemma_symbols((match_len - 3) as u8, (match_dist - 1) as u16);
    }
    lz.total_bytes += match_len;
    let match_dist = match_dist - 1;
    let match_len = match_len - 3;
    lz.write_code(match_len as u8);
    lz.write_code(match_dist as u8);
    lz.write_code((match_dist >> 8) as u8);
    proof {
        assert((match_dist as u8) == (match_dist as u16) % 256) by (bit_vector)
            requires
                match_dist < 32768,
        ;
        assert(((match_dist >> 8) as u8) == (match_dist as u16) / 256) by (bit_vector)
            requires
                match_dist < 32768,
        ;
    }
    let fp = lz.flag_position;
    lz.codes[fp] = (lz.codes[fp] >> 1) | 0x80;
    lz.consume_flag();
    proof {
        lemma_inv_push(lz0, *lz, items, c);
    }
    let symbol = if match_dist < 512 {
        SMALL_DIST_SYM[match_dist as usize]
    } else {
        proof {
            assert(((match_dist >> 8) & 127) == match_dist / 256) by (bit_vector)
                requires
                    match_dist < 32768,
            ;
        }
        LARGE_DIST_SYM[((match_dist >> 8) & 127) as usize]
    } as usize;
    h.count[288 + symbol] += 1;
    h.count[LEN_SYM[match_len as usize] as usize] += 1;
}


} // verus!
