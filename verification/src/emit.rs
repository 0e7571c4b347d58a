//! Writing a block into the output: the block itself, compressed or stored, and the
//! ending of a flush.

use vstd::prelude::*;
use vstd::arithmetic::power2::*;
use crate::bits::{OutputBufferOxide, bits_of, bytes_bits, zero_bits, lemma_mask15, lemma_bits_of_len, lemma_bytes_bits_len, lemma_bytes_bits_push, lemma_wrap_pos, lemma_wrap_sub_pos};
use crate::codes::counts_of;
use crate::dict::{DictOxide, window_holds};
use crate::encode::{compress_block, block_stream, decodable};
use crate::flags::{TDEFLFlush, TDEFL_WRITE_ZLIB_HEADER, TDEFL_FORCE_ALL_RAW_BLOCKS, TDEFL_FORCE_ALL_STATIC_BLOCKS};
use crate::huffman::{HuffmanOxide, canonical_table};
use crate::prefix::lengths_fit;
use crate::lz::{LZOxide, LzCode, lz_total, lemma_lz_total_bound};

verus! {

/// The bits of a stored block of `data` written after `n` bits: the block type `00`,
/// zero bits up to the byte boundary, the length and its complement in 16 bits each,
/// then the bytes.
pub open spec fn stored_bits(n: nat, data: Seq<u8>) -> Seq<bool> {
    let len = data.len() % 0x10000;
    bits_of(0, 2) + zero_bits(((8 - (n + 2) % 8) % 8) as nat) + bits_of(len, 16) + bits_of(
        (0xFFFF - len) as nat,
        16,
    ) + bytes_bits(data)
}

/// The low 16 bits of a length and of its complement.
proof fn lemma_len_halves(total: u32)
    by (bit_vector)
    ensures
        total & 0xFFFFu32 == total % 0x10000,
        !total & 0xFFFFu32 == 0xFFFF - total % 0x10000,
{
}

/// The slot of the byte `i` after `start` in the ring.
proof fn lemma_ring_slot(start: u32, i: u32)
    ensures
        (start.wrapping_add(i) & 32767u32) as int == (start + i) % 32768,
{
    lemma_wrap_pos(start, i, start as int);
    lemma_mask15(start.wrapping_add(i));
    vstd::arithmetic::div_mod::lemma_mod_mod(start + i, 32768, 131072);
    vstd::arithmetic::div_mod::lemma_small_mod(start as nat, 0x1_0000_0000);
}

/// Writes a stored block of the `total` bytes at `start` in the dictionary, which are
/// `data`: the block type `00`, padding to a byte boundary, the length and its complement,
/// then the bytes.
fn write_stored_block(
    output: &mut OutputBufferOxide,
    dict: &DictOxide,
    start: u32,
    total: u32,
    Ghost(data): Ghost<Seq<u8>>,
)
    requires
        old(output).wf(),
        dict.wf(),
        data.len() == total,
        forall|i: int| 0 <= i < total ==> #[trigger] data[i] == dict.b.dict@[(start + i) % 32768],
    ensures
        final(output).wf(),
        final(output).local == old(output).local,
        final(output).inner@.len() <= old(output).inner@.len() + 10 + total,
        final(output).inner@.len() >= old(output).inner@.len(),
        final(output).inner@.subrange(0, old(output).inner@.len() as int) == old(output).inner@,
        final(output).stream() == old(output).stream() + stored_bits(old(output).stream().len(), data),
{
    let ghost s0 = output.stream();
    let ghost i00 = output.inner@;
    proof {
        lemma2_to64();
        lemma_len_halves(total);
        lemma_bytes_bits_len(output.inner@);
        lemma_bits_of_len(output.bit_buffer as nat, output.bits_in as nat);
    }
    output.put_bits(0, 2);
    output.pad_to_bytes();
    output.put_bits(total & 0xFFFF, 16);
    output.put_bits(!total & 0xFFFF, 16);
    let ghost n0 = output.inner@.len();
    let ghost sh = output.stream();
    proof {
        assert(bytes_bits(data.take(0)) =~= Seq::<bool>::empty());
        assert(sh + bytes_bits(data.take(0)) =~= sh);
        assert(sh =~= s0 + bits_of(0, 2) + zero_bits(((8 - (s0.len() + 2) % 8) % 8) as nat) + bits_of(
            (total % 0x10000) as nat,
            16,
        ) + bits_of((0xFFFF - total % 0x10000) as nat, 16));
    }
    let mut i: u32 = 0;
    while i < total
        invariant
            i <= total,
            output.wf(),
            output.local == old(output).local,
            output.inner@.len() <= n0 + i,
            output.inner@.len() >= i00.len(),
            output.inner@.subrange(0, i00.len() as int) == i00,
            dict.wf(),
            pow2(8) == 256,
            data.len() == total,
            forall|i: int| 0 <= i < total ==> #[trigger] data[i] == dict.b.dict@[(start + i) % 32768],
            output.stream() == sh + bytes_bits(data.take(i as int)),
        decreases total - i,
    {
        let x = start.wrapping_add(i);
        let pos = x & 32767;
        proof {
            lemma_mask15(x);
            lemma_ring_slot(start, i);
            assert(data.take(i + 1) =~= data.take(i as int).push(data[i as int]));
            lemma_bytes_bits_push(data.take(i as int), data[i as int]);
        }
        let ghost inner_before = output.inner@;
        output.put_bits(dict.b.dict[pos as usize] as u32, 8);
        proof {
            assert(output.inner@.subrange(0, i00.len() as int) =~= inner_before.subrange(0, i00.len() as int));
        }
        i += 1;
    }
    proof {
        assert(data.take(total as int) =~= data);
    }
}


/// The bits of the zlib header, where one is written before the first block.
pub open spec fn zlib_header_bits(flags: u32, block_index: u32) -> Seq<bool> {
    if flags & TDEFL_WRITE_ZLIB_HEADER != 0 && block_index == 0 {
        bits_of(0x78, 8) + bits_of(0x01, 8)
    } else {
        Seq::empty()
    }
}

/// The bits before a block: the zlib header where one is due, then the final-block bit.
pub open spec fn block_start_bits(flags: u32, block_index: u32, flush: TDEFLFlush) -> Seq<bool> {
    zlib_header_bits(flags, block_index) + bits_of((if flush == TDEFLFlush::Finish { 1nat } else { 0nat }), 1)
}

/// `s_new` is `s1` followed by one deflate block for the LZ codes `items`, which stand for
/// the bytes `data`: either the codes under canonical Huffman codes whose lengths fit the
/// code space (so that they form prefix codes) and that give each of them a code, or the
/// bytes stored. Under `flags`, forcing raw blocks stores a block whose bytes are still
/// in the window (`in_window`), and forcing static blocks leaves no dynamic block. Otherwise
/// a block is stored only where its bytes are in the window, it stands for more than 32
/// bytes and static blocks are not forced.
pub open spec fn deflate_block(
    s1: Seq<bool>,
    s_new: Seq<bool>,
    codes: Seq<u16>,
    sizes: Seq<u8>,
    items: Seq<LzCode>,
    data: Seq<u8>,
    flags: u32,
    in_window: bool,
) -> bool {
    ||| {
        &&& !(flags & TDEFL_FORCE_ALL_RAW_BLOCKS != 0 && in_window)
        &&& exists|hdr: Seq<bool>, st: bool|
            #[trigger] block_stream(s1, s_new, hdr, codes, sizes, items, st) && (flags
                & TDEFL_FORCE_ALL_STATIC_BLOCKS != 0 ==> st)
        &&& canonical_table(codes, sizes, 0, 288)
        &&& canonical_table(codes, sizes, 1, 32)
        &&& lengths_fit(sizes, 0, 288)
        &&& lengths_fit(sizes, 288, 32)
        &&& forall|k: int| 0 <= k < items.len() ==> #[trigger] decodable(sizes, items[k])
    }
    ||| {
        &&& s_new == s1 + stored_bits(s1.len(), data)
        &&& in_window
        &&& flags & TDEFL_FORCE_ALL_RAW_BLOCKS != 0 || (flags & TDEFL_FORCE_ALL_STATIC_BLOCKS == 0 && data.len() > 32)
    }
}

/// Writes the current block into `output`: the zlib header first if asked for and this is
/// the first block, the final-block bit, then the block compressed, or stored where that is
/// forced or, unless static blocks are forced, compression did not pay. The block's codes `items` stand for the input from
/// `bs` to `p`, which the dictionary's window holds.
fn write_block(
    huff: &mut HuffmanOxide,
    lz: &mut LZOxide,
    dict: &DictOxide,
    flags: u32,
    block_index: u32,
    output: &mut OutputBufferOxide,
    flush: TDEFLFlush,
    Ghost(items): Ghost<Seq<LzCode>>,
    Ghost(hist): Ghost<Seq<u8>>,
    Ghost(bs): Ghost<int>,
    Ghost(p): Ghost<int>,
)
    requires
        old(lz).inv(items),
        old(huff).wf(),
        counts_of(old(huff).count@, items),
        forall|i: int| 320 <= i < 576 ==> (#[trigger] old(huff).count@[i]) == 0,
        dict.wf(),
        old(output).wf(),
        old(output).inner@.len() == 0,
        0 <= bs,
        bs + lz_total(items) == p,
        dict.code_buf_dict_pos as int == bs % 0x1_0000_0000,
        hist.len() - dict.lookahead_size - 1 <= p <= hist.len() - dict.lookahead_size,
        dict.lookahead_pos as int == (hist.len() - dict.lookahead_size) % 0x1_0000_0000,
        dict.lookahead_size + dict.size <= 32768,
        window_holds(dict.b.dict@, hist, dict.lookahead_size + dict.size),
    ensures
        final(output).wf(),
        final(output).local == old(output).local,
        final(output).inner@.len() <= 0x0200_0000,
        final(huff).wf(),
        forall|i: int| 320 <= i < 576 ==> (#[trigger] final(huff).count@[i]) == 0,
        final(lz).codes@.len() == 65536,
        final(lz).total_bytes == old(lz).total_bytes,
        deflate_block(
            old(output).stream() + block_start_bits(flags, block_index, flush),
            final(output).stream(),
            final(huff).codes@,
            final(huff).code_sizes@,
            items,
            hist.subrange(bs, p),
            flags,
            (hist.len() - dict.lookahead_size) - bs <= dict.size,
        ),
{
    let ghost pos = hist.len() - dict.lookahead_size;
    let ghost s0 = output.stream();
    proof {
        lemma_lz_total_bound(items);
        lemma_wrap_sub_pos(dict.lookahead_pos, dict.code_buf_dict_pos, pos, bs);
    }
    let use_raw_block = (flags & TDEFL_FORCE_ALL_RAW_BLOCKS != 0) && (dict.lookahead_pos.wrapping_sub(
        dict.code_buf_dict_pos,
    ) <= dict.size);
    lz.init_flag(Ghost(items));
    proof {
        lemma_lz_total_bound(items);
        lemma2_to64();
    }
    if flags & TDEFL_WRITE_ZLIB_HEADER != 0 && block_index == 0 {
        output.put_bits(0x78, 8);
        output.put_bits(0x01, 8);
    }
    output.put_bits(if flush == TDEFLFlush::Finish { 1 } else { 0 }, 1);
    let ghost s1 = output.stream();
    let ghost i1 = output.inner@;
    proof {
        assert(s1 =~= s0 + block_start_bits(flags, block_index, flush));
    }
    let saved_buffer = output.save();
    let mut comp_success = false;
    if !use_raw_block {
        let use_static = (flags & TDEFL_FORCE_ALL_STATIC_BLOCKS != 0) || (lz.total_bytes < 48);
        comp_success = compress_block(huff, output, lz, use_static, Ghost(items));
    }
    let expanded = (lz.total_bytes > 32) && ((output.inner.len() as u64 - saved_buffer.pos + 1) >= lz.total_bytes
        as u64) && (dict.lookahead_pos.wrapping_sub(dict.code_buf_dict_pos) <= dict.size) && (flags
        & TDEFL_FORCE_ALL_STATIC_BLOCKS == 0);
    if use_raw_block || expanded {
        output.load(saved_buffer);
        proof {
            assert(output.inner@ =~= i1);
            let data = hist.subrange(bs, p);
            assert forall|i: int| 0 <= i < lz.total_bytes implies #[trigger] data[i] == dict.b.dict@[(
            dict.code_buf_dict_pos + i) % 32768] by {
                vstd::arithmetic::div_mod::lemma_mod_mod(bs, 32768, 131072);
                vstd::arithmetic::div_mod::lemma_add_mod_noop(bs, i, 32768);
                vstd::arithmetic::div_mod::lemma_add_mod_noop(dict.code_buf_dict_pos as int, i, 32768);
                assert(dict.b.dict@[(bs + i) % 32768] == hist[bs + i]);
            }
        }
        write_stored_block(
            output,
            dict,
            dict.code_buf_dict_pos,
            lz.total_bytes,
            Ghost(hist.subrange(bs, p)),
        );
    } else if !comp_success {
        output.load(saved_buffer);
        proof {
            assert(output.inner@ =~= i1);
        }
        compress_block(huff, output, lz, true, Ghost(items));
    }
}

/// The four bytes of a checksum, most significant first.
pub open spec fn be_bytes(a: u32) -> Seq<u8> {
    Seq::new(4, |i: int| (a >> ((24 - 8 * i) as u32)) as u8)
}

/// The bits that end a flush, written after `n` bits: nothing without a flush; for a
/// final block, zero bits up to the byte boundary and then, with a zlib header, the
/// Adler-32 checksum; for a sync or full flush, an empty stored block.
pub open spec fn flush_end_bits(n: nat, flush: TDEFLFlush, flags: u32, adler: u32) -> Seq<bool> {
    match flush {
        TDEFLFlush::NoFlush => Seq::empty(),
        TDEFLFlush::Finish => zero_bits(((8 - n % 8) % 8) as nat) + (if flags & TDEFL_WRITE_ZLIB_HEADER != 0 {
            bytes_bits(be_bytes(adler))
        } else {
            Seq::empty()
        }),
        _ => bits_of(0, 3) + zero_bits(((8 - (n + 3) % 8) % 8) as nat) + bits_of(0, 16) + bits_of(0xFFFF, 16),
    }
}

/// The byte of a checksum that the `k`-th step of writing it takes, and the next step.
proof fn lemma_be_step(a: u32, k: u32)
    by (bit_vector)
    requires
        k < 4,
    ensures
        ((a << ((8 * k) as u32)) >> 24u32) & 0xFFu32 == ((a >> ((24 - 8 * k) as u32)) as u8) as u32,
        k < 3 ==> (a << ((8 * k) as u32)) << 8u32 == a << ((8 * k + 8) as u32),
{
}

/// The length of the bits written so far.
proof fn lemma_stream_len(o: OutputBufferOxide)
    ensures
        o.stream().len() == 8 * o.inner@.len() + o.bits_in,
{
    lemma_bytes_bits_len(o.inner@);
    lemma_bits_of_len(o.bit_buffer as nat, o.bits_in as nat);
}

/// Ends a flush: a final block is padded to a byte boundary and followed by the Adler-32
/// checksum when there is a zlib header; a sync or full flush adds an empty stored block.
fn write_flush_end(output: &mut OutputBufferOxide, flush: TDEFLFlush, flags: u32, adler32: u32)
    requires
        old(output).wf(),
    ensures
        final(output).wf(),
        final(output).local == old(output).local,
        final(output).inner@.len() <= old(output).inner@.len() + 10,
        final(output).stream() == old(output).stream() + flush_end_bits(
            old(output).stream().len(),
            flush,
            flags,
            adler32,
        ),
        flush != TDEFLFlush::NoFlush ==> final(output).bits_in == 0,
{
    let ghost s0 = output.stream();
    proof {
        lemma2_to64();
        lemma_stream_len(*output);
    }
    if flush != TDEFLFlush::NoFlush {
        if flush == TDEFLFlush::Finish {
            output.pad_to_bytes();
            let ghost sp = output.stream();
            if flags & TDEFL_WRITE_ZLIB_HEADER != 0 {
                let ghost n0 = output.inner@.len();
                let mut adler = adler32;
                let mut k: u32 = 0;
                proof {
                    assert(bytes_bits(be_bytes(adler32).take(0)) =~= Seq::<bool>::empty());
                    assert(sp + bytes_bits(be_bytes(adler32).take(0)) =~= sp);
                    assert(adler32 << 0u32 == adler32) by (bit_vector);
                }
                while k < 4
                    invariant
                        k <= 4,
                        output.wf(),
                        output.local == old(output).local,
                        output.inner@.len() <= n0 + k,
                        pow2(8) == 256,
                        k < 4 ==> adler == adler32 << ((8 * k) as u32),
                        output.bits_in == 0,
                        output.stream() == sp + bytes_bits(be_bytes(adler32).take(k as int)),
                    decreases 4 - k,
                {
                    let ghost b = be_bytes(adler32)[k as int];
                    proof {
                        lemma_be_step(adler32, k);
                        assert(be_bytes(adler32).take(k + 1) =~= be_bytes(adler32).take(k as int).push(b));
                        lemma_bytes_bits_push(be_bytes(adler32).take(k as int), b);
                    }
                    output.put_bits((adler >> 24) & 0xFF, 8);
                    adler = adler << 8;
                    k += 1;
                }
                proof {
                    assert(be_bytes(adler32).take(4) =~= be_bytes(adler32));
                }
            } else {
                assert(output.stream() =~= sp + Seq::<bool>::empty());
            }
        } else {
            output.put_bits(0, 3);
            output.pad_to_bytes();
            output.put_bits(0, 16);
            output.put_bits(0xFFFF, 16);
        }
    } else {
        assert(output.stream() =~= s0 + Seq::<bool>::empty());
    }
}

/// What ending a block writes after the pending bits `bb0` (`n0` of them) of the last
/// block: the block, then the flush's ending; `bytes` are the complete bytes written and
/// `bb1` (`n1` bits) what is left pending.
pub closed spec fn block_flushed(
    bb0: u32,
    n0: u32,
    bytes: Seq<u8>,
    bb1: u32,
    n1: u32,
    codes: Seq<u16>,
    sizes: Seq<u8>,
    items: Seq<LzCode>,
    data: Seq<u8>,
    in_window: bool,
    flags: u32,
    block_index: u32,
    flush: TDEFLFlush,
    adler: u32,
) -> bool {
    exists|s_blk: Seq<bool>|
        {
            &&& #[trigger] deflate_block(
                bits_of(bb0 as nat, n0 as nat) + block_start_bits(flags, block_index, flush),
                s_blk,
                codes,
                sizes,
                items,
                data,
                flags,
                in_window,
            )
            &&& bytes_bits(bytes) + bits_of(bb1 as nat, n1 as nat) == s_blk + flush_end_bits(
                s_blk.len(),
                flush,
                flags,
                adler,
            )
        }
}

/// Writes the current block and the flush's ending into a new local buffer that starts
/// with the `bits_in` bits of `bit_buffer` still pending from the last block.
pub fn write_block_out(
    huff: &mut HuffmanOxide,
    lz: &mut LZOxide,
    dict: &DictOxide,
    flags: u32,
    block_index: u32,
    adler32: u32,
    bit_buffer: u32,
    bits_in: u32,
    flush: TDEFLFlush,
    Ghost(items): Ghost<Seq<LzCode>>,
    Ghost(hist): Ghost<Seq<u8>>,
    Ghost(bs): Ghost<int>,
    Ghost(p): Ghost<int>,
) -> (output: OutputBufferOxide)
    requires
        old(lz).inv(items),
        old(huff).wf(),
        counts_of(old(huff).count@, items),
        forall|i: int| 320 <= i < 576 ==> (#[trigger] old(huff).count@[i]) == 0,
        dict.wf(),
        bits_in < 8,
        bit_buffer < pow2(bits_in as nat),
        0 <= bs,
        bs + lz_total(items) == p,
        dict.code_buf_dict_pos as int == bs % 0x1_0000_0000,
        hist.len() - dict.lookahead_size - 1 <= p <= hist.len() - dict.lookahead_size,
        dict.lookahead_pos as int == (hist.len() - dict.lookahead_size) % 0x1_0000_0000,
        dict.lookahead_size + dict.size <= 32768,
        window_holds(dict.b.dict@, hist, dict.lookahead_size + dict.size),
    ensures
        output.wf(),
        output.local,
        output.inner@.len() <= 0x0200_0000 + 10,
        final(huff).wf(),
        forall|i: int| 320 <= i < 576 ==> (#[trigger] final(huff).count@[i]) == 0,
        final(lz).codes@.len() == 65536,
        final(lz).total_bytes == old(lz).total_bytes,
        flush != TDEFLFlush::NoFlush ==> output.bits_in == 0,
        block_flushed(
            bit_buffer,
            bits_in,
            output.inner@,
            output.bit_buffer,
            output.bits_in,
            final(huff).codes@,
            final(huff).code_sizes@,
            items,
            hist.subrange(bs, p),
            (hist.len() - dict.lookahead_size) - bs <= dict.size,
            flags,
            block_index,
            flush,
            adler32,
        ),
{
    let mut output = OutputBufferOxide::new(true);
    output.bit_buffer = bit_buffer;
    output.bits_in = bits_in;
    proof {
        assert(bytes_bits(output.inner@) =~= Seq::<bool>::empty());
        assert(output.stream() =~= bits_of(bit_buffer as nat, bits_in as nat));
    }
    write_block(
        huff,
        lz,
        dict,
        flags,
        block_index,
        &mut output,
        flush,
        Ghost(items),
        Ghost(hist),
        Ghost(bs),
        Ghost(p),
    );
    let ghost s_blk = output.stream();
    write_flush_end(&mut output, flush, flags, adler32);
    proof {
        assert(deflate_block(
            bits_of(bit_buffer as nat, bits_in as nat) + block_start_bits(flags, block_index, flush),
            s_blk,
            huff.codes@,
            huff.code_sizes@,
            items,
            hist.subrange(bs, p),
            flags,
            (hist.len() - dict.lookahead_size) - bs <= dict.size,
        ));
    }
    output
}

/// With raw blocks forced, a block whose bytes are in the window is written stored: the
/// pending bits, the block's start, the stored block of its bytes, then the flush's ending.
pub proof fn lemma_raw_block_stored(
    bb0: u32,
    n0: u32,
    bytes: Seq<u8>,
    bb1: u32,
    n1: u32,
    codes: Seq<u16>,
    sizes: Seq<u8>,
    items: Seq<LzCode>,
    data: Seq<u8>,
    flags: u32,
    block_index: u32,
    flush: TDEFLFlush,
    adler: u32,
)
    requires
        block_flushed(bb0, n0, bytes, bb1, n1, codes, sizes, items, data, true, flags, block_index, flush, adler),
        flags & TDEFL_FORCE_ALL_RAW_BLOCKS != 0,
    ensures
        ({
            let s1 = bits_of(bb0 as nat, n0 as nat) + block_start_bits(flags, block_index, flush);
            let s_blk = s1 + stored_bits(s1.len(), data);
            bytes_bits(bytes) + bits_of(bb1 as nat, n1 as nat) == s_blk + flush_end_bits(s_blk.len(), flush, flags, adler)
        }),
{
}

} // verus!
