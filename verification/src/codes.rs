//! The symbols of LZ codes in the Huffman tables, and the bits that encode them.

use vstd::prelude::*;
use vstd::arithmetic::power2::*;
use vstd::arithmetic::div_mod::lemma_small_mod;
use vstd::bits::*;
use crate::bits::{OutputBufferOxide, BitBuffer, bits_of};
use crate::huffman::HuffmanOxide;
use crate::lz::{LzCode, code_ok};
use crate::tables::{LEN_SYM, LEN_EXTRA, SMALL_DIST_SYM, SMALL_DIST_EXTRA, LARGE_DIST_SYM, LARGE_DIST_EXTRA, BITMASKS, lemma_len_tables, lemma_dist_tables, lemma_bitmasks};

verus! {

/// The length symbol of a match length less 3.
pub closed spec fn len_symbol(l: u8) -> int {
    LEN_SYM@[l as int] as int
}

/// The number of extra bits of a match length less 3.
pub closed spec fn len_extra(l: u8) -> int {
    LEN_EXTRA@[l as int] as int
}

/// The distance symbol of a distance less 1.
pub closed spec fn dist_sym(d: u16) -> int {
    if d < 512 {
        SMALL_DIST_SYM@[d as int] as int
    } else {
        LARGE_DIST_SYM@[(d / 256) as int] as int
    }
}

/// The number of extra bits of a distance less 1.
pub closed spec fn dist_extra(d: u16) -> int {
    if d < 512 {
        SMALL_DIST_EXTRA@[d as int] as int
    } else {
        LARGE_DIST_EXTRA@[(d / 256) as int] as int
    }
}

/// The symbols are those of the tables, within their alphabets.
pub proof fn lemma_symbols(l: u8, d: u16)
    requires
        d < 32768,
    ensures
        len_symbol(l) == LEN_SYM@[l as int],
        257 <= len_symbol(l) <= 285,
        0 <= len_extra(l) <= 5,
        dist_sym(d) == (if d < 512 { SMALL_DIST_SYM@[d as int] as int } else { LARGE_DIST_SYM@[(d / 256) as int] as int }),
        0 <= dist_sym(d) < 30,
        0 <= dist_extra(d) <= 13,
{
    assert(257 <= LEN_SYM@[l as int] <= 285 && LEN_EXTRA@[l as int] <= 5) by {
        lemma_len_tables();
    }
    assert(forall|i: int| 0 <= i < 512 ==> (#[trigger] SMALL_DIST_SYM@[i]) < 30 && SMALL_DIST_EXTRA@[i] <= 13) by {
        lemma_dist_tables();
    }
    assert(forall|i: int| 0 <= i < 128 ==> (#[trigger] LARGE_DIST_SYM@[i]) < 30 && LARGE_DIST_EXTRA@[i] <= 13) by {
        lemma_dist_tables();
    }
}

/// The literal/length symbol of a code.
pub open spec fn litlen_sym(c: LzCode) -> int {
    match c {
        LzCode::Lit(b) => b as int,
        LzCode::Match(l, _) => len_symbol(l),
    }
}

/// The number of codes of `items` with literal/length symbol `s`.
pub open spec fn sym_count(items: Seq<LzCode>, s: int) -> nat
    decreases items.len(),
{
    if items.len() == 0 {
        0
    } else {
        sym_count(items.drop_last(), s) + (if litlen_sym(items.last()) == s { 1nat } else { 0nat })
    }
}

/// The number of matches of `items` with distance symbol `s`.
pub open spec fn dsym_count(items: Seq<LzCode>, s: int) -> nat
    decreases items.len(),
{
    if items.len() == 0 {
        0
    } else {
        dsym_count(items.drop_last(), s) + (match items.last() {
            LzCode::Match(_, d) => if dist_sym(d) == s { 1nat } else { 0nat },
            LzCode::Lit(_) => 0nat,
        })
    }
}

/// The symbol counts of the codes `items`, in the literal/length and distance tables.
pub open spec fn counts_of(count: Seq<u16>, items: Seq<LzCode>) -> bool {
    &&& forall|i: int| 0 <= i < 288 ==> (#[trigger] count[i]) as nat == sym_count(items, i)
    &&& forall|j: int| 0 <= j < 32 ==> (#[trigger] count[288 + j]) as nat == dsym_count(items, j)
}

pub proof fn lemma_counts_push(items: Seq<LzCode>, c: LzCode)
    ensures
        forall|s: int| #[trigger] sym_count(items.push(c), s) == sym_count(items, s) + (if litlen_sym(c) == s {
            1nat
        } else {
            0nat
        }),
        forall|s: int| #[trigger] dsym_count(items.push(c), s) == dsym_count(items, s) + (match c {
            LzCode::Match(_, d) => if dist_sym(d) == s { 1nat } else { 0nat },
            LzCode::Lit(_) => 0nat,
        }),
{
    assert(items.push(c).drop_last() =~= items);
}

pub proof fn lemma_counts_bound(items: Seq<LzCode>, s: int)
    ensures
        sym_count(items, s) <= items.len(),
        dsym_count(items, s) <= items.len(),
    decreases items.len(),
{
    if items.len() > 0 {
        lemma_counts_bound(items.drop_last(), s);
    }
}

/// A code of `items` counts towards its symbols.
/// No code has a literal/length symbol above 285 or a distance symbol above 29.
pub proof fn lemma_counts_unused(items: Seq<LzCode>)
    requires
        forall|k: int| 0 <= k < items.len() ==> code_ok(#[trigger] items[k]),
    ensures
        sym_count(items, 286) == 0,
        sym_count(items, 287) == 0,
        dsym_count(items, 30) == 0,
        dsym_count(items, 31) == 0,
    decreases items.len(),
{
    if items.len() > 0 {
        let init = items.drop_last();
        assert forall|k: int| 0 <= k < init.len() implies code_ok(#[trigger] init[k]) by {
            assert(init[k] == items[k]);
        }
        lemma_counts_unused(init);
        let c = items.last();
        assert(code_ok(items[items.len() - 1]));
        match c {
            LzCode::Lit(b) => {},
            LzCode::Match(l, d) => {
                lemma_symbols(l, d);
            },
        }
    }
}

pub proof fn lemma_counts_present(items: Seq<LzCode>, k: int)
    requires
        0 <= k < items.len(),
    ensures
        sym_count(items, litlen_sym(items[k])) >= 1,
        items[k] matches LzCode::Match(_, d) ==> dsym_count(items, dist_sym(d)) >= 1,
    decreases items.len(),
{
    if k < items.len() - 1 {
        lemma_counts_present(items.drop_last(), k);
        assert(items.drop_last()[k] == items[k]);
    }
}

pub proof fn lemma_counts_empty(s: int)
    ensures
        sym_count(Seq::<LzCode>::empty(), s) == 0,
        dsym_count(Seq::<LzCode>::empty(), s) == 0,
{
}

/// The bits that encode one LZ code: a literal's code; or the length symbol's code and the
/// length's extra bits, then the distance symbol's code and the distance's extra bits.
pub open spec fn code_bits(codes: Seq<u16>, sizes: Seq<u8>, c: LzCode) -> Seq<bool> {
    match c {
        LzCode::Lit(b) => bits_of(codes[b as int] as nat, sizes[b as int] as nat),
        LzCode::Match(l, d) => {
            let ls = len_symbol(l);
            let le = len_extra(l) as nat;
            let ds = 288 + dist_sym(d);
            let de = dist_extra(d) as nat;
            bits_of(codes[ls] as nat, sizes[ls] as nat) + bits_of(l as nat % pow2(le), le) + bits_of(
                codes[ds] as nat,
                sizes[ds] as nat,
            ) + bits_of(d as nat % pow2(de), de)
        },
    }
}

/// The literal's code.
pub fn put_literal(huff: &HuffmanOxide, bb: &mut BitBuffer, lit: u8)
    requires
        huff.wf(),
        old(bb).wf(),
        old(bb).bits_in <= 49,
    ensures
        final(bb).wf(),
        final(bb).bits_in <= old(bb).bits_in + 15,
        final(bb).stream() == old(bb).stream() + code_bits(huff.codes@, huff.code_sizes@, LzCode::Lit(lit)),
{
    proof {
        lemma_pow2_strictly_increases(huff.code_sizes@[lit as int] as nat, 64);
    }
    bb.put_fast(huff.codes[lit as usize] as u64, huff.code_sizes[lit as usize] as u32);
}

/// The match's length and distance codes with their extra bits.
pub fn put_match(huff: &HuffmanOxide, bb: &mut BitBuffer, match_len: u8, match_dist: u16)
    requires
        huff.wf(),
        old(bb).wf(),
        old(bb).bits_in <= 16,
        match_dist < 32768,
    ensures
        final(bb).wf(),
        final(bb).bits_in <= old(bb).bits_in + 48,
        final(bb).stream() == old(bb).stream() + code_bits(
            huff.codes@,
            huff.code_sizes@,
            LzCode::Match(match_len, match_dist),
        ),
{
    let ghost s0 = bb.stream();
    proof {
        assert(257 <= LEN_SYM@[match_len as int] <= 285 && LEN_EXTRA@[match_len as int] <= 5) by {
            lemma_len_tables();
        }
        assert(len_symbol(match_len) == LEN_SYM@[match_len as int]);
        assert(len_extra(match_len) == LEN_EXTRA@[match_len as int]);
    }
    let ls = LEN_SYM[match_len as usize] as usize;
    let le = LEN_EXTRA[match_len as usize] as u32;
    proof {
        lemma_pow2_strictly_increases(huff.code_sizes@[ls as int] as nat, 64);
    }
    bb.put_fast(huff.codes[ls] as u64, huff.code_sizes[ls] as u32);
    let ghost s1 = bb.stream();
    let lmask = BITMASKS[le as usize] as u64;
    proof {
        assert(BITMASKS@[le as int] as int == pow2(le as nat) - 1) by {
            lemma_bitmasks();
        }
        lemma_u64_low_bits_mask_is_mod(match_len as u64, le as nat);
        assert(lmask == low_bits_mask(le as nat) as u64);
        lemma_pow2_pos(le as nat);
    }
    bb.put_fast(match_len as u64 & lmask, le);
    let ghost s2 = bb.stream();
    let sym: usize;
    let num_extra_bits: usize;
    proof {
        assert(forall|i: int| 0 <= i < 512 ==> (#[trigger] SMALL_DIST_SYM@[i]) < 30 && SMALL_DIST_EXTRA@[i] <= 13) by {
            lemma_dist_tables();
        }
        assert(forall|i: int| 0 <= i < 128 ==> (#[trigger] LARGE_DIST_SYM@[i]) < 30 && LARGE_DIST_EXTRA@[i] <= 13) by {
            lemma_dist_tables();
        }
    }
    if match_dist < 512 {
        sym = SMALL_DIST_SYM[match_dist as usize] as usize;
        num_extra_bits = SMALL_DIST_EXTRA[match_dist as usize] as usize;
    } else {
        proof {
            assert(match_dist >> 8 == match_dist / 256) by (bit_vector);
        }
        sym = LARGE_DIST_SYM[(match_dist >> 8) as usize] as usize;
        num_extra_bits = LARGE_DIST_EXTRA[(match_dist >> 8) as usize] as usize;
    }
    proof {
        lemma_pow2_strictly_increases(huff.code_sizes@[288 + sym] as nat, 64);
    }
    bb.put_fast(huff.codes[288 + sym] as u64, huff.code_sizes[288 + sym] as u32);
    let ghost s3 = bb.stream();
    let dmask = BITMASKS[num_extra_bits] as u64;
    proof {
        assert(BITMASKS@[num_extra_bits as int] as int == pow2(num_extra_bits as nat) - 1) by {
            lemma_bitmasks();
        }
        lemma_u64_low_bits_mask_is_mod(match_dist as u64, num_extra_bits as nat);
        assert(dmask == low_bits_mask(num_extra_bits as nat) as u64);
        lemma_pow2_pos(num_extra_bits as nat);
    }
    bb.put_fast(match_dist as u64 & dmask, num_extra_bits as u32);
    proof {
        assert(bb.stream() =~= s0 + code_bits(
            huff.codes@,
            huff.code_sizes@,
            LzCode::Match(match_len, match_dist),
        ));
    }
}



/// Moves the pending bits of `bb` (fewer than 8) into `output`, whose own pending bits
/// were cleared.
pub fn put_pending(bb: &mut BitBuffer, output: &mut OutputBufferOxide)
    requires
        old(bb).wf(),
        old(bb).bits_in < 8,
        old(output).wf(),
    ensures
        final(output).wf(),
        final(output).stream() == old(output).stream() + old(bb).stream(),
        final(output).local == old(output).local,
        final(output).inner@.len() >= old(output).inner@.len(),
        final(output).inner@.subrange(0, old(output).inner@.len() as int) == old(output).inner@,
        final(output).inner@.len() <= old(output).inner@.len() + 1,
{
    let ghost s0 = output.stream();
    let ghost b0 = bb.stream();
    let ghost inner1 = output.inner@;
    proof {
        assert(bits_of(0, 0) =~= Seq::<bool>::empty());
        assert(output.inner@.subrange(0, inner1.len() as int) =~= inner1);
        assert(s0 + b0 =~= output.stream() + bb.stream());
    }
    while bb.bits_in != 0
        invariant
            bb.wf(),
            bb.bits_in < 8,
            output.wf(),
            output.stream() + bb.stream() == s0 + b0,
            output.local == old(output).local,
            output.inner@.len() >= inner1.len(),
            output.inner@.subrange(0, inner1.len() as int) == inner1,
            output.inner@.len() * 8 + output.bits_in + bb.bits_in == inner1.len() * 8 + old(output).bits_in
                + old(bb).bits_in,
        decreases bb.bits_in,
    {
        let n: u32 = if bb.bits_in < 16 { bb.bits_in } else { 16 };
        let v = bb.bit_buffer;
        proof {
            lemma2_to64();
            lemma_pow2_strictly_increases(bb.bits_in as nat, 8);
            assert(BITMASKS@[n as int] as int == pow2(n as nat) - 1) by {
                lemma_bitmasks();
            }
            lemma_u32_low_bits_mask_is_mod(v as u32, n as nat);
            assert((v as u32) as int == v as int);
            lemma_small_mod(v as nat, pow2(n as nat));
            lemma_u64_shr_is_div(v, n as u64);
            lemma_pow2_pos(n as nat);
            vstd::arithmetic::div_mod::lemma_basic_div(v as int, pow2(n as nat) as int);
        }
        let ghost st = output.stream();
        let ghost ii = output.inner@;
        output.put_bits(bb.bit_buffer as u32 & BITMASKS[n as usize], n);
        bb.bit_buffer = bb.bit_buffer >> n;
        bb.bits_in = bb.bits_in - n;
        proof {
            assert(bb.bit_buffer == 0);
            assert(bits_of(0, 0) =~= Seq::<bool>::empty());
            assert(output.inner@.subrange(0, inner1.len() as int) =~= ii.subrange(0, inner1.len() as int));
            assert(output.stream() + bb.stream() =~= st + bits_of(v as nat, n as nat));
        }
    }
    proof {
        assert(bits_of(0, 0) =~= Seq::<bool>::empty());
        assert(output.stream() =~= s0 + b0);
    }
}

} // verus!
