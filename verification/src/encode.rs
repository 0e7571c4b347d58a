//! Encoding the LZ codes of a block with its Huffman codes.

use vstd::prelude::*;
use vstd::arithmetic::power2::*;
use vstd::bits::*;
use vstd::slice::slice_subrange;
use crate::bits::{OutputBufferOxide, BitBuffer, bits_of, bytes_bits};
use crate::block::{fixed_litlen_size, fixed_code_sizes, dynamic_header};
use crate::bytes::read_u16_le;
use crate::codes::{code_bits, put_literal, put_match, put_pending, litlen_sym, dist_sym, counts_of, lemma_counts_present, lemma_counts_unused, lemma_symbols};
use crate::huffman::{HuffmanOxide, tix, canonical_table};
use crate::prefix::lengths_fit;
use crate::lz::{LZOxide, LzCode, code_bytes, code_bit, code_ok, flag_value, group_bytes, lz_enc, lemma_enc_locate, lemma_flag_value_bit, lemma_flag_value_bound};

verus! {

/// The bits that encode a sequence of LZ codes.
pub open spec fn codes_bits(codes: Seq<u16>, sizes: Seq<u8>, s: Seq<LzCode>) -> Seq<bool>
    decreases s.len(),
{
    if s.len() == 0 {
        Seq::empty()
    } else {
        codes_bits(codes, sizes, s.drop_last()) + code_bits(codes, sizes, s.last())
    }
}

proof fn lemma_codes_bits_step(codes: Seq<u16>, sizes: Seq<u8>, s: Seq<LzCode>, j: int)
    requires
        0 <= j < s.len(),
    ensures
        codes_bits(codes, sizes, s.take(j + 1)) == codes_bits(codes, sizes, s.take(j)) + code_bits(
            codes,
            sizes,
            s[j],
        ),
{
    assert(s.take(j + 1).drop_last() =~= s.take(j));
}

/// The flag byte of the group starting at `b`./// The flag byte of the group starting at `b`.
pub open spec fn group_flag(items: Seq<LzCode>, b: int) -> u32 {
    let e = if b + 8 <= items.len() { b + 8 } else { items.len() as int };
    flag_value(items.subrange(b, e)) as u32
}

/// Where the decoder of the buffer stands: before the flag byte of the group at `b`, or
/// in that group before code `j`, with the group's remaining flags in `flags` above a
/// stop bit.
pub open spec fn dec_inv(items: Seq<LzCode>, i: int, j: int, b: int, in_group: bool, flags: u32) -> bool {
    let n = items.len();
    &&& b % 8 == 0
    &&& 0 <= b <= j <= n
    &&& !in_group ==> flags == 1 && j == b && i == lz_enc(items.take(b)).len()
    &&& in_group ==> b < n && j < b + 8 && group_flag(items, b) < 256 && flags == ((group_flag(items, b)
        | 256u32) >> ((j - b) as u32)) && i == lz_enc(items.take(b)).len() + 1 + group_bytes(
        items.subrange(b, j),
    ).len()
    &&& i <= lz_enc(items).len()
    &&& (i < lz_enc(items).len()) == (j < n)
}

proof fn lemma_flag_bits(f: u32, r: u32)
    by (bit_vector)
    requires
        f < 256,
        r < 8,
    ensures
        ((f | 256u32) >> r) & 1 == (f >> r) & 1,
        ((f | 256u32) >> r) >> 1 == (f | 256u32) >> ((r + 1) as u32),
        ((f | 256u32) >> r) >= 2,
        (f | 256u32) >> 8u32 == 1,
        (f >> r) & 1 == (f >> r) % 2,
        (f | 256u32) >> 0u32 == f | 256u32,
{
}

/// The low bit of a value is 0 or 1.
proof fn lemma_low_bit(x: u32)
    by (bit_vector)
    ensures
        x & 1 == 0 || x & 1 == 1,
        (1u32 & 1u32) == 1u32,
{
}

/// The next code's flag bit, and the decoder state after the code.
proof fn lemma_dec_step(items: Seq<LzCode>, i: int, j: int, b: int, flags: u32)
    requires
        dec_inv(items, i, j, b, true, flags),
        j < items.len(),
    ensures
        flags & 1 == code_bit(items[j]),
        flags != 1,
        ({
            let cb = code_bytes(items[j]);
            let i2 = i + cb.len();
            let b2 = if j + 1 == b + 8 { b + 8 } else { b };
            &&& i + cb.len() <= lz_enc(items).len()
            &&& forall|t: int| 0 <= t < cb.len() ==> lz_enc(items)[i + t] == #[trigger] cb[t]
            &&& dec_inv(items, i2, j + 1, b2, j + 1 != b + 8, flags >> 1)
        }),
{
    let n = items.len() as int;
    let e = if b + 8 <= n { b + 8 } else { n };
    let g = items.subrange(b, e);
    let f = group_flag(items, b);
    let r = (j - b) as u32;
    lemma_enc_locate(items, b, j);
    lemma_flag_bits(f, r);
    lemma_u32_shr_is_div(f, r);
    lemma_flag_value_bit(g, j - b);
    lemma_flag_value_bound(g);
    lemma2_to64();
    if g.len() < 8 {
        lemma_pow2_strictly_increases(g.len(), 8);
    }
    assert(f as nat == flag_value(g));
    assert(g[j - b] == items[j]);
    let cb = code_bytes(items[j]);
    let i2 = i + cb.len();
    if j + 1 == b + 8 {
        assert((flags >> 1) == 1);
        if b + 8 < n {
            lemma_enc_locate(items, b + 8, b + 8);
        } else {
            assert(items.take(b + 8) =~= items);
        }
    } else {
        if j + 1 < n {
            lemma_enc_locate(items, b, j + 1);
        }
    }
}

/// Decoding the flag byte of the group at `b`.
proof fn lemma_dec_flag(items: Seq<LzCode>, i: int, b: int)
    requires
        dec_inv(items, i, b, b, false, 1),
        b < items.len(),
    ensures
        lz_enc(items)[i] as u32 == group_flag(items, b),
        group_flag(items, b) < 256,
        dec_inv(items, i + 1, b, b, true, group_flag(items, b) | 256u32),
{
    let n = items.len() as int;
    let e = if b + 8 <= n { b + 8 } else { n };
    let g = items.subrange(b, e);
    lemma_enc_locate(items, b, b);
    lemma_flag_value_bound(g);
    lemma2_to64();
    if g.len() < 8 {
        lemma_pow2_strictly_increases(g.len(), 8);
    }
    assert(items.subrange(b, b) =~= Seq::<LzCode>::empty());
    assert(group_bytes(items.subrange(b, b)) =~= Seq::<u8>::empty());
    let f = group_flag(items, b);
    lemma_flag_bits(f, 0);
}


proof fn lemma_stream_step(bytes: Seq<bool>, st: Seq<bool>, st2: Seq<bool>, s0: Seq<bool>, done: Seq<bool>, cb: Seq<bool>)
    requires
        bytes + st == s0 + done,
        st2 == st + cb,
    ensures
        bytes + st2 == s0 + (done + cb),
{
    assert(bytes + st2 =~= (bytes + st) + cb);
    assert(s0 + (done + cb) =~= (s0 + done) + cb);
}

proof fn lemma_prefix_trans(a: Seq<u8>, b: Seq<u8>, c: Seq<u8>)
    requires
        b.len() <= a.len(),
        c.len() <= b.len(),
        a.subrange(0, b.len() as int) == b,
        b.subrange(0, c.len() as int) == c,
    ensures
        a.subrange(0, c.len() as int) == c,
{
    assert(a.subrange(0, c.len() as int) =~= b.subrange(0, c.len() as int));
}

/// Writes the Huffman codes of the LZ codes in `lz_code_buf`, the buffer of `items`,
/// followed by the end-of-block code.
pub fn compress_lz_codes(
    huff: &HuffmanOxide,
    output: &mut OutputBufferOxide,
    lz_code_buf: &[u8],
    Ghost(items): Ghost<Seq<LzCode>>,
) -> (r: bool)
    requires
        huff.wf(),
        old(output).wf(),
        lz_code_buf@ == lz_enc(items),
        forall|k: int| 0 <= k < items.len() ==> code_ok(#[trigger] items[k]),
    ensures
        r,
        final(output).wf(),
        final(output).stream() == old(output).stream() + codes_bits(huff.codes@, huff.code_sizes@, items)
            + bits_of(huff.codes@[256] as nat, huff.code_sizes@[256] as nat),
        final(output).local == old(output).local,
        final(output).inner@.len() >= old(output).inner@.len(),
        final(output).inner@.subrange(0, old(output).inner@.len() as int) == old(output).inner@,
        final(output).inner@.len() <= old(output).inner@.len() + 8 * lz_code_buf@.len() + 3,
{
    let ghost s0 = output.stream();
    let ghost i0 = output.inner@;
    let ghost codes = huff.codes@;
    let ghost sizes = huff.code_sizes@;
    let mut flags: u32 = 1;
    let mut bb = BitBuffer { bit_buffer: output.bit_buffer as u64, bits_in: output.bits_in };
    let mut i: usize = 0;
    let ghost mut j: int = 0;
    let ghost mut b: int = 0;
    let ghost mut in_group: bool = false;
    proof {
        assert(items.take(0) =~= Seq::<LzCode>::empty());
        assert(lz_enc(items.take(0)) =~= Seq::<u8>::empty());
        assert(codes_bits(codes, sizes, items.take(0)) =~= Seq::<bool>::empty());
        assert(s0 =~= bytes_bits(i0) + bb.stream() + codes_bits(codes, sizes, items.take(0)));
        if items.len() == 0 {
            assert(lz_enc(items) =~= Seq::<u8>::empty());
        } else {
            lemma_enc_locate(items, 0, 0);
        }
        assert(output.inner@.subrange(0, i0.len() as int) =~= i0);
    }
    while i < lz_code_buf.len()
        invariant
            huff.wf(),
            codes == huff.codes@,
            sizes == huff.code_sizes@,
            lz_code_buf@ == lz_enc(items),
            forall|k: int| 0 <= k < items.len() ==> code_ok(#[trigger] items[k]),
            dec_inv(items, i as int, j, b, in_group, flags),
            bb.wf(),
            bb.bits_in < 8,
            bytes_bits(output.inner@) + bb.stream() == s0 + codes_bits(codes, sizes, items.take(j)),
            output.bit_buffer == old(output).bit_buffer,
            output.bits_in == old(output).bits_in,
            output.local == old(output).local,
            output.inner@.len() >= i0.len(),
            output.inner@.subrange(0, i0.len() as int) == i0,
            output.inner@.len() <= i0.len() + 8 * i,
        decreases lz_code_buf@.len() - i,
    {
        if flags == 1 {
            proof {
                if in_group {
                    lemma_dec_step(items, i as int, j, b, flags);
                }
                lemma_dec_flag(items, i as int, b);
            }
            flags = lz_code_buf[i] as u32 | 0x100;
            i += 1;
            proof {
                in_group = true;
            }
        }
        proof {
            lemma_dec_step(items, i as int, j, b, flags);
        }
        if flags & 1 == 1 {
            flags >>= 1;
            let ghost it = items[j];
            let match_len = lz_code_buf[i];
            let match_dist = read_u16_le(lz_code_buf, i + 1);
            proof {
                assert(code_bytes(it)[0] == match_len);
                let d = it->1;
                assert(code_bytes(it)[1] == (d % 256) as u8);
                assert(code_bytes(it)[2] == (d / 256) as u8);
                assert(match_dist == d);
                assert(it == LzCode::Match(match_len, match_dist));
                assert(code_ok(items[j]));
            }
            i += 3;
            let ghost st = bb.stream();
            put_match(huff, &mut bb, match_len, match_dist);
            proof {
                assert(bb.stream() == st + code_bits(codes, sizes, items[j]));
                lemma_codes_bits_step(codes, sizes, items, j);
                lemma_stream_step(bytes_bits(output.inner@), st, bb.stream(), s0, codes_bits(codes, sizes, items.take(j)), code_bits(codes, sizes, items[j]));
                if j + 1 == b + 8 {
                    b = b + 8;
                    in_group = false;
                }
                j = j + 1;
            }
        } else {
            let mut k: usize = 0;
            let mut go = true;
            let ghost i_start = i;
            while go && k < 3
                invariant
                    i >= i_start + k,
                    k == 0 ==> go,
                    huff.wf(),
                    codes == huff.codes@,
                    sizes == huff.code_sizes@,
                    lz_code_buf@ == lz_enc(items),
                    dec_inv(items, i as int, j, b, in_group, flags),
                    go ==> in_group && j < items.len() && flags & 1 == 0,
                    k <= 3,
                    bb.wf(),
                    bb.bits_in <= 7 + 15 * k,
                    bytes_bits(output.inner@) + bb.stream() == s0 + codes_bits(codes, sizes, items.take(j)),
                decreases 3 - k,
            {
                proof {
                    lemma_dec_step(items, i as int, j, b, flags);
                }
                flags >>= 1;
                let ghost it = items[j];
                let lit = lz_code_buf[i];
                proof {
                    assert(code_bytes(it)[0] == lit);
                    assert(it == LzCode::Lit(lit));
                }
                i += 1;
                let ghost st = bb.stream();
                put_literal(huff, &mut bb, lit);
                proof {
                    assert(bb.stream() == st + code_bits(codes, sizes, items[j]));
                    lemma_low_bit(flags);
                    lemma_codes_bits_step(codes, sizes, items, j);
                    lemma_stream_step(bytes_bits(output.inner@), st, bb.stream(), s0, codes_bits(codes, sizes, items.take(j)), code_bits(codes, sizes, items[j]));
                    if j + 1 == b + 8 {
                        b = b + 8;
                        in_group = false;
                    }
                    j = j + 1;
                }
                proof {
                    lemma_low_bit(flags);
                }
                if flags & 1 == 1 || i >= lz_code_buf.len() {
                    go = false;
                }
                k += 1;
            }
        }
        let ghost ib = output.inner@;
        bb.flush(output);
        proof {
            lemma_prefix_trans(output.inner@, ib, i0);
        }
    }
    proof {
        assert(j == items.len());
        assert(items.take(j) =~= items);
    }
    let ghost inner1 = output.inner@;
    output.bits_in = 0;
    output.bit_buffer = 0;
    proof {
        assert(bits_of(0, 0) =~= Seq::<bool>::empty());
        assert(output.stream() =~= bytes_bits(output.inner@));
        lemma2_to64();
    }
    put_pending(&mut bb, output);
    proof {
        lemma_prefix_trans(output.inner@, inner1, i0);
        assert(output.stream() =~= s0 + codes_bits(codes, sizes, items));
        lemma_pow2_strictly_increases(huff.code_sizes@[256] as nat, 24);
    }
    let ghost ii = output.inner@;
    output.put_bits(huff.codes[256] as u32, huff.code_sizes[256] as u32);
    proof {
        lemma_prefix_trans(output.inner@, ii, i0);
    }
    true
}



/// The code's symbols have codes: a nonzero code length for its literal/length symbol and,
/// for a match, for its distance symbol.
pub open spec fn decodable(sizes: Seq<u8>, c: LzCode) -> bool {
    &&& sizes[litlen_sym(c)] != 0
    &&& c matches LzCode::Match(_, d) ==> sizes[288 + dist_sym(d)] != 0
}

/// The stream of a block written after `s_old`: a header (the block type `01` for the
/// fixed codes, a header starting with the block type `10` for dynamic codes), the codes
/// of `items`, and the end-of-block code.
pub open spec fn block_stream(
    s_old: Seq<bool>,
    s_new: Seq<bool>,
    hdr: Seq<bool>,
    codes: Seq<u16>,
    sizes: Seq<u8>,
    items: Seq<LzCode>,
    static_block: bool,
) -> bool {
    &&& s_new == s_old + hdr + codes_bits(codes, sizes, items) + bits_of(codes[256] as nat, sizes[256] as nat)
    &&& static_block ==> hdr == bits_of(1, 2) && fixed_code_sizes(sizes)
    &&& !static_block ==> {
        &&& dynamic_header(hdr, codes, sizes)
        &&& sizes[286] == 0 && sizes[287] == 0
        &&& sizes[318] == 0 && sizes[319] == 0
    }
}

/// Writes a block: the header of the fixed or the dynamic codes, then the codes of the
/// LZ buffer `lz` holding `items`, then the end-of-block code.
pub fn compress_block(
    huff: &mut HuffmanOxide,
    output: &mut OutputBufferOxide,
    lz: &LZOxide,
    static_block: bool,
    Ghost(items): Ghost<Seq<LzCode>>,
) -> (r: bool)
    requires
        old(huff).wf(),
        old(output).wf(),
        lz.code_position <= lz.codes@.len(),
        lz.codes@.subrange(0, lz.code_position as int) == lz_enc(items),
        forall|k: int| 0 <= k < items.len() ==> code_ok(#[trigger] items[k]),
        !static_block ==> counts_of(old(huff).count@, items),
    ensures
        r,
        final(huff).wf(),
        final(output).wf(),
        final(output).local == old(output).local,
        final(output).inner@.len() >= old(output).inner@.len(),
        final(output).inner@.subrange(0, old(output).inner@.len() as int) == old(output).inner@,
        final(output).inner@.len() <= old(output).inner@.len() + 2051 + 8 * lz.code_position,
        exists|hdr: Seq<bool>|
            #[trigger] block_stream(
                old(output).stream(),
                final(output).stream(),
                hdr,
                final(huff).codes@,
                final(huff).code_sizes@,
                items,
                static_block,
            ),
        static_block ==> forall|i: int| 0 <= i < 288 ==> #[trigger] final(huff).code_sizes@[tix(0, i)] == fixed_litlen_size(i),
        static_block ==> forall|i: int| 0 <= i < 32 ==> #[trigger] final(huff).code_sizes@[tix(1, i)] == 5,
        static_block ==> final(huff).count@ == old(huff).count@,
        !static_block ==> forall|i: int| 0 <= i < 288 ==> ((#[trigger] final(huff).code_sizes@[tix(0, i)]) != 0
            <==> final(huff).count@[tix(0, i)] != 0),
        !static_block ==> forall|i: int| 0 <= i < 32 ==> ((#[trigger] final(huff).code_sizes@[tix(1, i)]) != 0
            <==> final(huff).count@[tix(1, i)] != 0),
        !static_block ==> final(huff).count@[256] == 1,
        final(huff).code_sizes@[256] != 0,
        canonical_table(final(huff).codes@, final(huff).code_sizes@, 0, 288),
        canonical_table(final(huff).codes@, final(huff).code_sizes@, 1, 32),
        lengths_fit(final(huff).code_sizes@, 0, 288),
        lengths_fit(final(huff).code_sizes@, 288, 32),
        forall|k: int| 0 <= k < items.len() ==> #[trigger] decodable(final(huff).code_sizes@, items[k]),
        !static_block ==> forall|i: int| 0 <= i < 576 && i != 256 ==> final(huff).count@[i] == old(huff).count@[i],
{
    let ghost s0 = output.stream();
    let ghost i0 = output.inner@;
    let ghost c0 = huff.count@;
    if static_block {
        huff.start_static_block(output);
    } else {
        huff.start_dynamic_block(output);
    }
    let ghost s1 = output.stream();
    let ghost i1 = output.inner@;
    let ghost hcodes = huff.codes@;
    let ghost hsizes = huff.code_sizes@;
    let buf = slice_subrange(lz.codes.as_slice(), 0, lz.code_position);
    let r = compress_lz_codes(huff, output, buf, Ghost(items));
    proof {
        lemma_prefix_trans(output.inner@, i1, i0);
        let hdr = if static_block {
            bits_of(1, 2)
        } else {
            choose|h: Seq<bool>| #[trigger] dynamic_header(h, hcodes, hsizes) && s1 == s0 + h
        };
        assert(s1 =~= s0 + hdr);
        if !static_block {
            lemma_counts_unused(items);
            assert(huff.count@[tix(0, 286)] == c0[286]);
            assert(huff.count@[tix(0, 287)] == c0[287]);
            assert(huff.count@[tix(1, 30)] == c0[318]);
            assert(huff.count@[tix(1, 31)] == c0[319]);
        }
        assert(block_stream(s0, output.stream(), hdr, huff.codes@, huff.code_sizes@, items, static_block));
        {
            assert forall|k: int| 0 <= k < items.len() implies #[trigger] decodable(huff.code_sizes@, items[k]) by {
                lemma_counts_present(items, k);
                let c = items[k];
                assert(code_ok(c));
                match c {
                    LzCode::Lit(b) => {
                        if static_block {
                            assert(huff.code_sizes@[tix(0, b as int)] == fixed_litlen_size(b as int));
                        } else {
                            assert(huff.code_sizes@[tix(0, b as int)] != 0);
                        }
                    },
                    LzCode::Match(l, dd) => {
                        lemma_symbols(l, dd);
                        let ls = litlen_sym(c);
                        let ds = dist_sym(dd);
                        if static_block {
                            assert(huff.code_sizes@[tix(0, ls)] == fixed_litlen_size(ls));
                            assert(huff.code_sizes@[tix(1, ds)] == 5);
                        } else {
                            assert(huff.count@[tix(0, ls)] == c0[ls]);
                            assert(huff.count@[tix(0, ls)] != 0);
                            assert(huff.code_sizes@[tix(0, ls)] != 0);
                            assert(huff.count@[tix(1, ds)] == c0[288 + ds]);
                            assert(huff.count@[tix(1, ds)] != 0);
                            assert(huff.code_sizes@[tix(1, ds)] != 0);
                        }
                    },
                }
            }
        }
        if static_block {
            assert(huff.code_sizes@[tix(0, 256)] == fixed_litlen_size(256));
        }
    }
    r
}

} // verus!
