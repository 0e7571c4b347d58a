//! The streaming compressor: its state, where its output goes, and the functions that
//! feed input through the LZ matcher into blocks.

use vstd::prelude::*;
use vstd::arithmetic::power2::*;
use vstd::slice::slice_subrange;
use crate::bits::{lemma_mask15, lemma_wrap_mask15, lemma_wrap_pos};
use crate::emit::{write_block_out, block_flushed};
use crate::bytes::memset_range;
use crate::dict::{DictOxide, probes_of, equal_run, window_holds, mirrored, match_at, ring_stores, lemma_window_read, lemma_probe_slot, lemma_match_in_stream};
use crate::bytes::write_u16_le_uc;
use crate::lz::lemma_inv_push;
use crate::adler::{update_adler32, adler32_spec};
use crate::flags::{TDEFL_COMPUTE_ADLER32, TDEFLFlush, TDEFLStatus, TDEFL_WRITE_ZLIB_HEADER, TDEFL_FORCE_ALL_RAW_BLOCKS, TDEFL_GREEDY_PARSING_FLAG, TDEFL_FILTER_MATCHES, TDEFL_RLE_MATCHES};
use crate::huffman::HuffmanOxide;
use crate::codes::{len_symbol, dist_sym, lemma_symbols, counts_of, sym_count, dsym_count, lemma_counts_push, lemma_counts_bound, lemma_counts_empty};
use crate::lz::{LZOxide, LzCode, lemma_lz_total_bound, lz_total, code_valid, codes_valid, lz_decode, lemma_lz_decode, lemma_codes_valid_push, lemma_codes_valid_extend, lemma_lz_total_push};
use crate::record::{record_literal, record_match};
use crate::tables::{MZ_ADLER32_INIT, LEN_SYM, SMALL_DIST_SYM, LARGE_DIST_SYM};

verus! {

/// Parameters and state of the compression stream.
pub struct ParamsOxide {
    pub flags: u32,
    pub greedy_parsing: bool,
    pub block_index: u32,
    pub saved_match_dist: u32,
    pub saved_match_len: u32,
    pub saved_lit: u8,
    pub flush: TDEFLFlush,
    pub flush_ofs: usize,
    pub flush_remaining: usize,
    pub finished: bool,
    pub adler32: u32,
    pub src_pos: usize,
    pub out_buf_ofs: usize,
    pub prev_return_status: TDEFLStatus,
    pub saved_bit_buffer: u32,
    pub saved_bits_in: u32,
    /// The output of the last block, of which `flush_remaining` bytes from `flush_ofs`
    /// are still to be handed out.
    pub local_buf: Vec<u8>,
    /// The bytes handed out during the current call.
    pub handed: Ghost<Seq<u8>>,
}

impl ParamsOxide {
    /// The pending bits fit, and the bytes still to hand out lie in the local buffer.
    pub open spec fn wf(&self) -> bool {
        &&& self.saved_bits_in < 8
        &&& self.saved_bit_buffer < pow2(self.saved_bits_in as nat)
        &&& self.flush_ofs + self.flush_remaining <= self.local_buf@.len()
        &&& self.local_buf@.len() <= 0x1000_0000
    }

    /// The parameters for compressing with `flags`.
    pub fn new(flags: u32) -> (r: Self)
        ensures
            r.wf(),
            r.flags == flags,
            r.greedy_parsing == (flags & 0x4000 != 0),
            r.block_index == 0,
            r.saved_match_len == 0,
            r.flush == TDEFLFlush::NoFlush,
            r.flush_remaining == 0,
            r.flush_ofs == 0,
            !r.finished,
            r.adler32 == 1,
            r.prev_return_status == TDEFLStatus::Okay,
            r.saved_match_dist == 0,
            r.saved_lit == 0,
            r.src_pos == 0,
            r.out_buf_ofs == 0,
            r.saved_bit_buffer == 0,
            r.saved_bits_in == 0,
            r.local_buf@.len() == 0,
            r.handed@ == Seq::<u8>::empty(),
    {
        proof {
            lemma2_to64();
        }
        ParamsOxide {
            flags,
            greedy_parsing: flags & 0x4000 != 0,
            block_index: 0,
            saved_match_dist: 0,
            saved_match_len: 0,
            saved_lit: 0,
            flush: TDEFLFlush::NoFlush,
            flush_ofs: 0,
            flush_remaining: 0,
            finished: false,
            adler32: MZ_ADLER32_INIT,
            src_pos: 0,
            out_buf_ofs: 0,
            prev_return_status: TDEFLStatus::Okay,
            saved_bit_buffer: 0,
            saved_bits_in: 0,
            local_buf: Vec::new(),
            handed: Ghost(Seq::empty()),
        }
    }
}

/// `b` differs from `a` at most in what handing out output changes: the offsets, the
/// bytes still to hand out and the status.
pub open spec fn same_but_output(a: &ParamsOxide, b: &ParamsOxide) -> bool {
    &&& b.flags == a.flags
    &&& b.greedy_parsing == a.greedy_parsing
    &&& b.block_index == a.block_index
    &&& b.saved_match_dist == a.saved_match_dist
    &&& b.saved_match_len == a.saved_match_len
    &&& b.saved_lit == a.saved_lit
    &&& b.flush == a.flush
    &&& b.finished == a.finished
    &&& b.adler32 == a.adler32
    &&& b.src_pos == a.src_pos
    &&& b.saved_bit_buffer == a.saved_bit_buffer
    &&& b.saved_bits_in == a.saved_bits_in
    &&& b.local_buf@ == a.local_buf@
}

/// Where the compressed output goes.
pub trait FlushSink: Sized {
    /// The sink can take output at the output offset `out_buf_ofs`, having taken `handed`
    /// in the current call.
    spec fn ready(&self, out_buf_ofs: usize, handed: Seq<u8>) -> bool;

    /// Handing out output to the sink cannot fail.
    spec fn never_fails() -> bool;

    /// The size of the caller's output buffer, if there is one.
    spec fn out_len(&self) -> nat;

    /// At the output offset `out_buf_ofs` the sink takes no more output in this call.
    spec fn full(&self, out_buf_ofs: usize) -> bool;

    /// The sink may refuse a block.
    spec fn can_refuse(&self) -> bool;

    /// Hands out the first `saved_pos` bytes of the local buffer. Returns the number of
    /// bytes still to hand out, or a negative status if the sink failed.
    fn put_block(&mut self, saved_pos: usize, params: &mut ParamsOxide) -> (r: i32)
        requires
            old(params).wf(),
            old(self).ready(old(params).out_buf_ofs, old(params).handed@),
            saved_pos <= old(params).local_buf@.len(),
            old(params).flush_remaining == 0,
        ensures
            final(params).wf(),
            final(self).ready(final(params).out_buf_ofs, final(params).handed@),
            same_but_output(old(params), final(params)),
            r == final(params).flush_remaining as i32 || (r == TDEFLStatus::PutBufFailed.spec_value()
                && final(params).prev_return_status == TDEFLStatus::PutBufFailed),
            r != TDEFLStatus::PutBufFailed.spec_value() ==> final(params).prev_return_status == old(
                params,
            ).prev_return_status,
            Self::never_fails() ==> r == final(params).flush_remaining as i32,
            final(self).out_len() == old(self).out_len(),
            final(params).flush_remaining != 0 ==> final(self).full(final(params).out_buf_ofs),
            final(self).can_refuse() == old(self).can_refuse(),
            r == TDEFLStatus::PutBufFailed.spec_value() ==> old(self).can_refuse(),
            r != TDEFLStatus::PutBufFailed.spec_value() ==> final(params).handed@ == old(params).handed@
                + old(params).local_buf@.take(saved_pos - final(params).flush_remaining),
            r == TDEFLStatus::PutBufFailed.spec_value() ==> final(params).handed@ == old(params).handed@,
    ;

    /// The output position reported for the output offset `out_buf_ofs`.
    spec fn reported_ofs(&self, out_buf_ofs: usize) -> usize;

    /// Hands out what remains of the last block, as far as the sink takes it. Returns the
    /// status, the input position and the output position.
    fn flush_output_buffer(&mut self, p: &mut ParamsOxide) -> (r: (TDEFLStatus, usize, usize))
        requires
            old(p).wf(),
            old(self).ready(old(p).out_buf_ofs, old(p).handed@),
        ensures
            final(p).wf(),
            final(self).ready(final(p).out_buf_ofs, final(p).handed@),
            same_but_output(old(p), final(p)),
            final(p).prev_return_status == old(p).prev_return_status,
            r.1 == old(p).src_pos,
            r.2 == final(self).reported_ofs(final(p).out_buf_ofs),
            final(self).out_len() == old(self).out_len(),
            r.0 == (if final(p).finished && final(p).flush_remaining == 0 {
                TDEFLStatus::Done
            } else {
                TDEFLStatus::Okay
            }),
            old(self).full(old(p).out_buf_ofs) ==> final(p).flush_remaining == old(p).flush_remaining,
            final(self).can_refuse() == old(self).can_refuse(),
            old(p).flush_ofs <= final(p).flush_ofs,
            final(p).handed@ == old(p).handed@ + old(p).local_buf@.subrange(
                old(p).flush_ofs as int,
                final(p).flush_ofs as int,
            ),
    ;
}

/// Output for a caller's buffer of `cap` bytes: the bytes taken are collected in `written`,
/// and what does not fit stays in the local buffer.
pub struct CallbackBuf {
    pub written: Vec<u8>,
    pub cap: usize,
}

impl FlushSink for CallbackBuf {
    /// The bytes taken so far in this call are the bytes handed out, and they fill the
    /// buffer up to `out_buf_ofs`.
    open spec fn ready(&self, out_buf_ofs: usize, handed: Seq<u8>) -> bool {
        &&& out_buf_ofs <= self.cap
        &&& self.written@ == handed
        &&& handed.len() == out_buf_ofs
    }

    open spec fn reported_ofs(&self, out_buf_ofs: usize) -> usize {
        out_buf_ofs
    }

    open spec fn never_fails() -> bool {
        true
    }

    open spec fn out_len(&self) -> nat {
        self.cap as nat
    }

    open spec fn full(&self, out_buf_ofs: usize) -> bool {
        out_buf_ofs >= self.cap
    }

    open spec fn can_refuse(&self) -> bool {
        false
    }

    #[verifier::spinoff_prover]
    fn put_block(&mut self, saved_pos: usize, params: &mut ParamsOxide) -> (r: i32)
        ensures
            ({
                let room = old(self).cap - old(params).out_buf_ofs;
                let n = if saved_pos < room { saved_pos as int } else { room };
                &&& final(params).out_buf_ofs == old(params).out_buf_ofs + n
                &&& final(self).written@ == old(self).written@ + old(params).local_buf@.subrange(0, n)
                &&& saved_pos != n ==> final(params).flush_ofs == n && final(params).flush_remaining
                    == saved_pos - n
                &&& saved_pos == n ==> final(params).flush_ofs == old(params).flush_ofs
                    && final(params).flush_remaining == 0
                &&& r == final(params).flush_remaining as i32
                &&& final(params).prev_return_status == old(params).prev_return_status
            }),
    {
        let room = self.cap - params.out_buf_ofs;
        let n = if saved_pos < room { saved_pos } else { room };
        let mut i: usize = 0;
        while i < n
            invariant
                i <= n,
                n <= params.local_buf@.len(),
                *params == *old(params),
                self.cap == old(self).cap,
                self.written@ == old(self).written@ + params.local_buf@.subrange(0, i as int),
            decreases n - i,
        {
            self.written.push(params.local_buf[i]);
            proof {
                assert(params.local_buf@.subrange(0, i as int).push(params.local_buf@[i as int])
                    =~= params.local_buf@.subrange(0, i + 1));
            }
            i += 1;
        }
        params.out_buf_ofs += n;
        if saved_pos != n {
            params.flush_ofs = n;
            params.flush_remaining = saved_pos - n;
        }
        params.handed = Ghost(params.handed@ + params.local_buf@.take(n as int));
        proof {
            assert(params.local_buf@.take(n as int) =~= params.local_buf@.subrange(0, n as int));
        }
        params.flush_remaining as i32
    }

    #[verifier::spinoff_prover]
    fn flush_output_buffer(&mut self, p: &mut ParamsOxide) -> (r: (TDEFLStatus, usize, usize))
        ensures
            ({
                let room = old(self).cap - old(p).out_buf_ofs;
                let n = if room < old(p).flush_remaining { room } else { old(p).flush_remaining as int };
                &&& final(p).out_buf_ofs == old(p).out_buf_ofs + n
                &&& final(p).flush_ofs == old(p).flush_ofs + n
                &&& final(p).flush_remaining == old(p).flush_remaining - n
                &&& final(self).written@ == old(self).written@ + old(p).local_buf@.subrange(
                    old(p).flush_ofs as int,
                    old(p).flush_ofs + n,
                )
                &&& r.2 == final(p).out_buf_ofs
            }),
    {
        let room = self.cap - p.out_buf_ofs;
        let n: usize = if room < p.flush_remaining { room } else { p.flush_remaining };
        let fo = p.flush_ofs;
        let mut i: usize = 0;
        while i < n
            invariant
                i <= n,
                fo + n <= p.local_buf@.len(),
                p.local_buf@.len() <= 0x1000_0000,
                *p == *old(p),
                fo == p.flush_ofs,
                self.cap == old(self).cap,
                self.written@ == old(self).written@ + p.local_buf@.subrange(fo as int, fo + i),
            decreases n - i,
        {
            self.written.push(p.local_buf[fo + i]);
            proof {
                assert(p.local_buf@.subrange(fo as int, fo + i).push(p.local_buf@[fo + i])
                    =~= p.local_buf@.subrange(fo as int, fo + i + 1));
            }
            i += 1;
        }
        p.handed = Ghost(p.handed@ + p.local_buf@.subrange(fo as int, fo + n));
        p.flush_ofs += n;
        p.flush_remaining -= n;
        p.out_buf_ofs += n;
        let status = if p.finished && p.flush_remaining == 0 {
            TDEFLStatus::Done
        } else {
            TDEFLStatus::Okay
        };
        (status, p.src_pos, p.out_buf_ofs)
    }
}

/// Output handed to a function block by block; it returns whether it took the data.
pub struct CallbackFunc<F: Fn(&[u8]) -> bool> {
    pub put_buf_func: F,
}

impl<F: Fn(&[u8]) -> bool> FlushSink for CallbackFunc<F> {
    open spec fn ready(&self, out_buf_ofs: usize, handed: Seq<u8>) -> bool {
        forall|s: &[u8]| #[trigger] self.put_buf_func.requires((s,))
    }

    open spec fn reported_ofs(&self, out_buf_ofs: usize) -> usize {
        0
    }

    open spec fn never_fails() -> bool {
        false
    }

    open spec fn out_len(&self) -> nat {
        0
    }

    open spec fn full(&self, out_buf_ofs: usize) -> bool {
        false
    }

    /// The function may answer false for some block.
    open spec fn can_refuse(&self) -> bool {
        exists|s: &[u8]| call_ensures(self.put_buf_func, (s,), false)
    }

    /// The function is handed the first `saved_pos` bytes of the local buffer, and the call
    /// fails exactly where it answers false.
    fn put_block(&mut self, saved_pos: usize, params: &mut ParamsOxide) -> (r: i32)
        ensures
            exists|s: &[u8]|
                #![trigger s@]
                s@ == old(params).local_buf@.subrange(0, saved_pos as int) && call_ensures(
                old(self).put_buf_func,
                (s,),
                r != TDEFLStatus::PutBufFailed.spec_value(),
            ),
            r != TDEFLStatus::PutBufFailed.spec_value() ==> ({
                ParamsOxide { handed: old(params).handed, ..*final(params) }
            }) == *old(params),
    {
        let block = slice_subrange(params.local_buf.as_slice(), 0, saved_pos);
        let call_success = (self.put_buf_func)(block);
        proof {
            assert(call_ensures(self.put_buf_func, (block,), call_success));
        }
        if !call_success {
            params.prev_return_status = TDEFLStatus::PutBufFailed;
            return params.prev_return_status.value();
        }
        params.handed = Ghost(params.handed@ + params.local_buf@.take(saved_pos as int));
        params.flush_remaining as i32
    }

    /// Nothing is kept back to hand out: the parameters stay as they are.
    fn flush_output_buffer(&mut self, p: &mut ParamsOxide) -> (r: (TDEFLStatus, usize, usize))
        ensures
            *final(p) == *old(p),
    {
        proof {
            assert(p.handed@ + p.local_buf@.subrange(p.flush_ofs as int, p.flush_ofs as int) =~= p.handed@);
        }
        let status = if p.finished && p.flush_remaining == 0 {
            TDEFLStatus::Done
        } else {
            TDEFLStatus::Okay
        };
        (status, p.src_pos, 0)
    }
}

/// The input of one call and where its output goes.
pub struct CallbackOxide<'a, S: FlushSink> {
    pub in_buf: Option<&'a [u8]>,
    pub out: S,
}

impl<'a, S: FlushSink> CallbackOxide<'a, S> {
    /// Hands out the block that `saved_pos` bytes of the local buffer hold, if any.
    pub fn flush_output(&mut self, saved_pos: usize, params: &mut ParamsOxide) -> (r: i32)
        requires
            old(params).wf(),
            old(self).out.ready(old(params).out_buf_ofs, old(params).handed@),
            saved_pos <= old(params).local_buf@.len(),
            old(params).flush_remaining == 0,
        ensures
            final(params).wf(),
            final(self).out.ready(final(params).out_buf_ofs, final(params).handed@),
            final(self).in_buf == old(self).in_buf,
            same_but_output(old(params), final(params)),
            r == final(params).flush_remaining as i32 || (r == TDEFLStatus::PutBufFailed.spec_value()
                && final(params).prev_return_status == TDEFLStatus::PutBufFailed),
            r != TDEFLStatus::PutBufFailed.spec_value() ==> final(params).prev_return_status == old(
                params,
            ).prev_return_status,
            S::never_fails() ==> r == final(params).flush_remaining as i32,
            final(self).out.out_len() == old(self).out.out_len(),
            final(self).out.can_refuse() == old(self).out.can_refuse(),
            r == TDEFLStatus::PutBufFailed.spec_value() ==> old(self).out.can_refuse(),
            final(params).flush_remaining != 0 ==> final(self).out.full(final(params).out_buf_ofs),
    {
        if saved_pos == 0 {
            return params.flush_remaining as i32;
        }
        self.out.put_block(saved_pos, params)
    }
}


impl<'a> CallbackOxide<'a, CallbackBuf> {
    /// Input from `in_buf`, output for a buffer of `cap` bytes.
    pub fn new_callback_buf(in_buf: &'a [u8], cap: usize) -> (r: Self)
        ensures
            r.in_buf == Some(in_buf),
            r.out.written@ == Seq::<u8>::empty(),
            r.out.cap == cap,
    {
        CallbackOxide { in_buf: Some(in_buf), out: CallbackBuf { written: Vec::new(), cap } }
    }
}

impl<'a, F: Fn(&[u8]) -> bool> CallbackOxide<'a, CallbackFunc<F>> {
    /// Input from `in_buf`, output handed to `callback_func`.
    pub fn new_callback_func(in_buf: &'a [u8], callback_func: CallbackFunc<F>) -> (r: Self)
        ensures
            r.in_buf == Some(in_buf),
            r.out == callback_func,
    {
        CallbackOxide { in_buf: Some(in_buf), out: callback_func }
    }
}

/// Whether `flags` select the fast compressor: one probe, greedy parsing, and none of
/// match filtering, run-length matches or raw blocks.
pub open spec fn fast_path(flags: u32) -> bool {
    &&& flags & 0xFFFu32 == 1
    &&& flags & 0x4000u32 != 0
    &&& flags & 0xB_0000u32 == 0
}

/// The fast compressor never runs with raw blocks forced, short matches filtered out or
/// only runs matched.
proof fn lemma_fast_not_raw(flags: u32)
    by (bit_vector)
    requires
        flags & 0xB_0000u32 == 0,
    ensures
        flags & 0x8_0000u32 == 0,
        flags & 0x2_0000u32 == 0,
        flags & 0x1_0000u32 == 0,
{
}

/// A match obeys the rules that limit matches: none where raw blocks are forced or where
/// the flags allow no probes and no runs, at least six bytes long where short matches are
/// filtered out, at distance 1 where only runs are matched, and never three bytes long at
/// a distance of 8192 or more.
pub open spec fn match_obeys(flags: u32, c: LzCode) -> bool {
    match c {
        LzCode::Lit(_) => true,
        LzCode::Match(l, dd) => {
            &&& flags & TDEFL_FORCE_ALL_RAW_BLOCKS == 0
            &&& !(flags & 0xFFFu32 == 0 && flags & TDEFL_RLE_MATCHES == 0)
            &&& flags & TDEFL_FILTER_MATCHES != 0 ==> l + 3 >= 6
            &&& flags & TDEFL_RLE_MATCHES != 0 ==> dd == 0
            &&& !(l == 0 && dd >= 8191)
        },
    }
}

/// Every code of `items` obeys the flags that limit matches.
#[verifier::opaque]
pub open spec fn items_obey(flags: u32, items: Seq<LzCode>) -> bool {
    forall|k: int| 0 <= k < items.len() ==> match_obeys(flags, #[trigger] items[k])
}

proof fn lemma_items_obey_push(flags: u32, items: Seq<LzCode>, c: LzCode)
    requires
        items_obey(flags, items),
        match_obeys(flags, c),
    ensures
        items_obey(flags, items.push(c)),
{
    reveal(items_obey);
    assert forall|k: int| 0 <= k < items.push(c).len() implies match_obeys(flags, #[trigger] items.push(c)[k]) by {
        if k < items.len() {
            assert(items.push(c)[k] == items[k]);
        }
    }
}

proof fn lemma_items_obey_empty(flags: u32)
    ensures
        items_obey(flags, Seq::<LzCode>::empty()),
{
    reveal(items_obey);
}

/// The compressor: the LZ buffer of the current block, the stream parameters, the
/// Huffman tables and the dictionary.
pub struct CompressorOxide {
    lz: LZOxide,
    params: ParamsOxide,
    huff: HuffmanOxide,
    dict: DictOxide,
    /// The LZ codes of the current block.
    items: Ghost<Seq<LzCode>>,
    /// All input taken into the dictionary so far.
    hist: Ghost<Seq<u8>>,
    /// The position in the input where the current block starts.
    block_start: Ghost<int>,
    /// The flush the last block of the current call was written with, if any.
    flush_written: Ghost<Option<TDEFLFlush>>,
}

impl CompressorOxide {
    /// The state is consistent: the LZ buffer holds the codes of the block, no symbol
    /// count can overflow, and the buffers have their sizes.
    pub closed spec fn state_ok(&self) -> bool {
        &&& self.lz.inv(self.items@)
        &&& self.huff.wf()
        &&& counts_of(self.huff.count@, self.items@)
        &&& forall|i: int| 320 <= i < 576 ==> (#[trigger] self.huff.count@[i]) == 0
        &&& self.dict.wf()
        &&& self.dict.max_probes[0] == probes_of(self.params.flags).0
        &&& self.dict.max_probes[1] == probes_of(self.params.flags).1
        &&& self.dict.lookahead_size <= (if fast_path(self.params.flags) { 4096u32 } else { 258u32 })
        &&& self.params.wf()
    }

    /// A consistent state with room in the LZ buffer for the codes of one more step.
    pub closed spec fn wf(&self) -> bool {
        &&& self.state_ok()
        &&& self.lz.code_position <= 65528
    }

    /// The invariant of a compressor between calls: a consistent state, and a pending
    /// lazy match (never one with the fast compressor) that fits in the lookahead.
    pub closed spec fn inv(&self) -> bool {
        &&& self.wf()
        &&& self.saved_ok()
        &&& fast_path(self.params.flags) ==> self.params.saved_match_len == 0
        &&& self.params.greedy_parsing == (self.params.flags & TDEFL_GREEDY_PARSING_FLAG != 0)
        &&& self.params.greedy_parsing ==> self.params.saved_match_len == 0
        &&& self.lz_ok()
        &&& self.raw_ok()
        &&& self.params.finished ==> {
            &&& self.dict.lookahead_size == 0
            &&& self.items@.len() == 0
            &&& self.block_start@ == self.hist@.len()
        }
    }

    /// The dictionary holds the window of the input, the codes of the current block stand
    /// for the input up to the lookahead (less a pending literal), and a pending lazy
    /// match is a match in the input.
    pub closed spec fn lz_ok(&self) -> bool {
        let la = self.dict.lookahead_size;
        let pos = self.hist@.len() - la;
        let pending = if self.params.saved_match_len != 0 { 1int } else { 0int };
        &&& self.window_ok(la, self.dict.lookahead_pos)
        &&& self.block_ok(pos - pending)
        &&& self.saved_valid(
            pos,
            self.params.saved_lit,
            self.params.saved_match_len,
            self.params.saved_match_dist,
        )
    }

    /// A pending lazy match is a match that fits in the lookahead after its first byte.
    pub closed spec fn saved_ok(&self) -> bool {
        self.params.saved_match_len != 0 ==> 3 <= self.params.saved_match_len <= 258
            && 1 <= self.params.saved_match_dist <= 32768
            && self.params.saved_match_len <= self.dict.lookahead_size + 1
    }

    /// With raw blocks forced, no match is pending, and the current block is short enough
    /// to lie in the dictionary's window.
    pub closed spec fn raw_ok(&self) -> bool {
        let pos = self.hist@.len() - self.dict.lookahead_size;
        self.params.flags & TDEFL_FORCE_ALL_RAW_BLOCKS != 0 ==> {
            &&& self.params.saved_match_len == 0
            &&& pos - self.block_start@ <= self.dict.size
            &&& pos - self.block_start@ <= 31 * 1024
        }
    }

    /// The dictionary holds the input: with the lookahead of `la` bytes at `lp`, the
    /// window of the lookahead and the `size` bytes before it are in the ring.
    pub closed spec fn window_ok(&self, la: u32, lp: u32) -> bool {
        let pos = self.hist@.len() - la;
        &&& pos >= 0
        &&& lp as int == pos % 0x1_0000_0000
        &&& la + self.dict.size <= 32768
        &&& window_holds(self.dict.b.dict@, self.hist@, la + self.dict.size)
    }

    /// The codes of the current block stand for the input from the block's start to `pos`.
    pub closed spec fn block_ok(&self, pos: int) -> bool {
        &&& 0 <= self.block_start@
        &&& self.block_start@ + lz_total(self.items@) == pos
        &&& codes_valid(self.hist@, self.block_start@, self.items@)
        &&& self.dict.code_buf_dict_pos as int == self.block_start@ % 0x1_0000_0000
        &&& items_obey(self.params.flags, self.items@)
    }

    /// A pending lazy match stands for the input from the byte before `pos`, which is the
    /// pending literal.
    pub closed spec fn saved_valid(&self, pos: int, saved_lit: u8, saved_len: u32, saved_dist: u32) -> bool {
        saved_len != 0 ==> {
            &&& 3 <= saved_len <= 258
            &&& 1 <= saved_dist <= 32768
            &&& 1 <= pos <= self.hist@.len()
            &&& self.hist@[pos - 1] == saved_lit
            &&& code_valid(self.hist@, pos - 1, LzCode::Match((saved_len - 3) as u8, (saved_dist - 1) as u16))
            &&& match_obeys(self.params.flags, LzCode::Match((saved_len - 3) as u8, (saved_dist - 1) as u16))
        }
    }

    /// The input taken so far.
    pub closed spec fn spec_hist(&self) -> Seq<u8> {
        self.hist@
    }

    /// Where the current block starts in the input.
    pub closed spec fn spec_block_start(&self) -> int {
        self.block_start@
    }

    /// The LZ codes of the current block.
    pub closed spec fn spec_items(&self) -> Seq<LzCode> {
        self.items@
    }

    /// The hash chains are empty and no earlier input is in the window to be matched.
    pub closed spec fn spec_window_cleared(&self) -> bool {
        &&& self.dict.size == 0
        &&& forall|i: int| 0 <= i < self.dict.b.hash@.len() ==> self.dict.b.hash@[i] == 0
        &&& forall|i: int| 0 <= i < self.dict.b.next@.len() ==> self.dict.b.next@[i] == 0
    }

    /// A lazy match is pending, to be compared with one at the next position.
    pub closed spec fn spec_match_pending(&self) -> bool {
        self.params.saved_match_len != 0
    }

    /// The flush that the last block written in the last call was ended with, if a block
    /// was written.
    pub closed spec fn spec_flush_written(&self) -> Option<TDEFLFlush> {
        self.flush_written@
    }

    /// The bytes handed out during the last call.
    pub closed spec fn spec_handed(&self) -> Seq<u8> {
        self.params.handed@
    }

    /// The flags the compressor was made with.
    pub closed spec fn spec_flags(&self) -> u32 {
        self.params.flags
    }

    /// The Adler-32 checksum of the input so far.
    pub closed spec fn spec_adler32(&self) -> u32 {
        self.params.adler32
    }

    /// The status of the last call.
    pub closed spec fn spec_prev_return_status(&self) -> TDEFLStatus {
        self.params.prev_return_status
    }

    /// The flush of the last call.
    pub closed spec fn spec_flush(&self) -> TDEFLFlush {
        self.params.flush
    }

    /// Whether the stream has been finished.
    pub closed spec fn spec_finished(&self) -> bool {
        self.params.finished
    }

    /// The number of bits of output written but not yet in a whole byte.
    pub closed spec fn spec_pending_bits(&self) -> u32 {
        self.params.saved_bits_in
    }

    /// The number of bytes of output still to hand out.
    pub closed spec fn spec_flush_remaining(&self) -> usize {
        self.params.flush_remaining
    }

    /// A compressor for `flags`.
    pub fn new(flags: u32) -> (r: Self)
        ensures
            r.inv(),
            r.spec_flags() == flags,
            r.spec_adler32() == 1,
            r.spec_prev_return_status() == TDEFLStatus::Okay,
            r.spec_flush() == TDEFLFlush::NoFlush,
            !r.spec_finished(),
            r.spec_flush_remaining() == 0,
            r.spec_hist() == Seq::<u8>::empty(),
            r.spec_items() == Seq::<LzCode>::empty(),
            r.spec_block_start() == 0,
            r.spec_handed() == Seq::<u8>::empty(),
            !r.spec_match_pending(),
    {
        let r = CompressorOxide {
            lz: LZOxide::new(),
            params: ParamsOxide::new(flags),
            huff: HuffmanOxide::default(),
            dict: DictOxide::new(flags),
            items: Ghost(Seq::empty()),
            hist: Ghost(Seq::empty()),
            block_start: Ghost(0),
            flush_written: Ghost(None),
        };
        proof {
            lemma2_to64();
            lemma_items_obey_empty(flags);
            assert(mirrored(r.dict.b.dict@));
            assert(r.lz.total_bytes == 0);
        }
        r
    }

    /// The Adler-32 checksum of the input so far.
    pub fn adler32(&self) -> (r: u32)
        ensures
            r == self.spec_adler32(),
    {
        self.params.adler32
    }

    /// The status of the last call.
    pub fn prev_return_status(&self) -> (r: TDEFLStatus)
        ensures
            r == self.spec_prev_return_status(),
    {
        self.params.prev_return_status
    }

    /// The flags the compressor was made with.
    pub fn flags(&self) -> (r: i32)
        ensures
            r == self.spec_flags() as i32,
    {
        self.params.flags as i32
    }
}

/// The lookahead position's slot in the ring.
proof fn lemma_cur_slot(lp: u32, pos: int)
    requires
        0 <= pos,
        lp as int == pos % 0x1_0000_0000,
    ensures
        (lp & 32767u32) as int == pos % 32768,
{
    lemma_mask15(lp);
    vstd::arithmetic::div_mod::lemma_mod_mod(pos, 32768, 131072);
}

/// The slot where the byte at `end` of the input goes, from the lookahead position `lp`
/// of `pos` and the `la` bytes of lookahead after it.
proof fn lemma_end_slot(lp: u32, pos: int, la: int)
    requires
        0 <= pos,
        0 <= la,
        lp as int == pos % 0x1_0000_0000,
    ensures
        (((lp & 32767u32) + la) % 32768) == (pos + la) % 32768,
{
    lemma_cur_slot(lp, pos);
    vstd::arithmetic::div_mod::lemma_add_mod_noop_right(la, pos, 32768);
}

/// A code stays valid as the input grows.
proof fn lemma_code_valid_extend(hist: Seq<u8>, more: Seq<u8>, p: int, c: LzCode)
    requires
        code_valid(hist, p, c),
    ensures
        code_valid(hist + more, p, c),
{
    match c {
        LzCode::Lit(b) => {},
        LzCode::Match(l, dd) => {
            assert forall|t: int| 0 <= t < l + 3 implies #[trigger] (hist + more)[p + t] == (hist + more)[p - (dd + 1)
                + t] by {
                assert(hist[p + t] == hist[p - (dd + 1) + t]);
            }
        },
    }
}

/// Taking `data` into the ring after the `la` bytes of lookahead at `lp` keeps the window,
/// with the lookahead grown by `data`, and keeps the codes and a pending match valid.
proof fn lemma_take_in(d0: CompressorOxide, d1: CompressorOxide, la: u32, lp: u32, data: Seq<u8>)
    requires
        d0.window_ok(la, lp),
        la + data.len() <= 32768,
        d1.hist@ == d0.hist@ + data,
        ring_stores(d0.dict.b.dict@, d1.dict.b.dict@, ((lp & 32767u32) + la) % 32768, data),
        d1.dict.size == (if 32768 - (la + data.len()) < d0.dict.size {
            32768 - (la + data.len())
        } else {
            d0.dict.size as int
        }),
        d1.items == d0.items,
        d1.block_start == d0.block_start,
        d1.dict.code_buf_dict_pos == d0.dict.code_buf_dict_pos,
        d1.params.flags == d0.params.flags,
    ensures
        d1.window_ok((la + data.len()) as u32, lp),
        forall|p: int| d0.block_ok(p) ==> #[trigger] d1.block_ok(p),
        forall|p: int, sl: u8, slen: u32, sd: u32|
            d0.saved_valid(p, sl, slen, sd) ==> #[trigger] d1.saved_valid(p, sl, slen, sd),
{
    let h0 = d0.hist@;
    let h1 = d1.hist@;
    let n = data.len() as int;
    let pos = h0.len() - la;
    let m = 32768int;
    let dst0 = ((lp & 32767u32) + la) % 32768;
    let span0 = la + d0.dict.size;
    let span1 = la + n + d1.dict.size;
    lemma_end_slot(lp, pos, la as int);
    assert(dst0 == (h0.len() as int) % m);
    assert forall|q: int| h1.len() - span1 <= q < h1.len() implies #[trigger] d1.dict.b.dict@[q % 32768] == h1[q] by {
        if q >= h0.len() {
            let k = q - h0.len();
            vstd::arithmetic::div_mod::lemma_add_mod_noop_right(k, h0.len() as int, m);
            assert(d1.dict.b.dict@[(dst0 + k) % 32768] == data[k]);
        } else {
            let j = h0.len() - q;
            let i = q % m;
            vstd::arithmetic::div_mod::lemma_sub_mod_noop(q, h0.len() as int, m);
            vstd::arithmetic::div_mod::lemma_mod_add_multiples_vanish(-j, m);
            vstd::arithmetic::div_mod::lemma_small_mod((m - j) as nat, m as nat);
            assert((i - dst0) % m == m - j);
            assert(d0.dict.b.dict@[q % 32768] == h0[q]);
        }
    }
    assert forall|p: int| d0.block_ok(p) implies #[trigger] d1.block_ok(p) by {
        lemma_codes_valid_extend(h0, data, d0.block_start@, d0.items@);
    }
    assert forall|p: int, sl: u8, slen: u32, sd: u32| d0.saved_valid(p, sl, slen, sd) implies #[trigger] d1.saved_valid(
        p,
        sl,
        slen,
        sd,
    ) by {
        if slen != 0 {
            lemma_code_valid_extend(h0, data, p - 1, LzCode::Match((slen - 3) as u8, (sd - 1) as u16));
        }
    }
}

/// Moving the lookahead on by `len` keeps the window, with the dictionary grown by `len`
/// up to its limit.
proof fn lemma_advance(d0: CompressorOxide, d1: CompressorOxide, la: u32, lp: u32, len: u32)
    requires
        d0.window_ok(la, lp),
        len <= la,
        d1.hist == d0.hist,
        d1.dict.b.dict == d0.dict.b.dict,
        d1.dict.size == (if d0.dict.size + len < 32768 { d0.dict.size + len } else { 32768 }),
    ensures
        d1.window_ok((la - len) as u32, lp.wrapping_add(len)),
{
    let pos = d0.hist@.len() - la;
    lemma_wrap_pos(lp, len, pos);
}

/// Records a literal in the current block.
fn rec_literal(d: &mut CompressorOxide, lit: u8, Ghost(p): Ghost<int>)
    requires
        old(d).state_ok(),
        old(d).lz.code_position <= 65534,
        old(d).block_ok(p),
        code_valid(old(d).hist@, p, LzCode::Lit(lit)),
    ensures
        final(d).flush_written == old(d).flush_written,
        final(d).block_start == old(d).block_start,
        final(d).state_ok(),
        final(d).lz.code_position <= old(d).lz.code_position + 2,
        final(d).params == old(d).params,
        final(d).dict == old(d).dict,
        final(d).hist == old(d).hist,
        final(d).block_ok(p + 1),
{
    let ghost items = d.items@;
    let ghost c0 = d.huff.count@;
    let ghost c = LzCode::Lit(lit);
    proof {
        lemma_counts_bound(items, lit as int);
        assert(c0[lit as int] as nat == sym_count(items, lit as int));
    }
    record_literal(&mut d.huff, &mut d.lz, lit, Ghost(items));
    d.items = Ghost(items.push(c));
    proof {
        lemma_codes_valid_push(d.hist@, d.block_start@, items, c);
        lemma_items_obey_push(d.params.flags, items, c);
        lemma_lz_total_push(items, c);
        lemma_counts_push(items, c);
        assert forall|i: int| 0 <= i < 288 implies (#[trigger] d.huff.count@[i]) as nat == sym_count(d.items@, i) by {
            if i != lit as int {
                assert(d.huff.count@[i] == c0[i]);
            }
        }
        assert forall|j: int| 0 <= j < 32 implies (#[trigger] d.huff.count@[288 + j]) as nat == dsym_count(
            d.items@,
            j,
        ) by {
            assert(d.huff.count@[288 + j] == c0[288 + j]);
        }
    }
}

/// Records a match in the current block.
fn rec_match(d: &mut CompressorOxide, match_len: u32, match_dist: u32, Ghost(p): Ghost<int>)
    requires
        old(d).state_ok(),
        old(d).lz.code_position <= 65532,
        3 <= match_len <= 258,
        1 <= match_dist <= 32768,
        old(d).block_ok(p),
        code_valid(old(d).hist@, p, LzCode::Match((match_len - 3) as u8, (match_dist - 1) as u16)),
        match_obeys(old(d).params.flags, LzCode::Match((match_len - 3) as u8, (match_dist - 1) as u16)),
    ensures
        final(d).flush_written == old(d).flush_written,
        final(d).block_start == old(d).block_start,
        final(d).state_ok(),
        final(d).lz.code_position <= old(d).lz.code_position + 4,
        final(d).params == old(d).params,
        final(d).dict == old(d).dict,
        final(d).hist == old(d).hist,
        final(d).block_ok(p + match_len),
{
    let ghost items = d.items@;
    let ghost c0 = d.huff.count@;
    let ghost l = (match_len - 3) as u8;
    let ghost dd = (match_dist - 1) as u16;
    let ghost c = LzCode::Match(l, dd);
    proof {
        lemma_symbols(l, dd);
        lemma_counts_bound(items, len_symbol(l));
        lemma_counts_bound(items, dist_sym(dd));
        assert(c0[len_symbol(l)] as nat == sym_count(items, len_symbol(l)));
        assert(c0[288 + dist_sym(dd)] as nat == dsym_count(items, dist_sym(dd)));
    }
    record_match(&mut d.huff, &mut d.lz, match_len, match_dist, Ghost(items));
    d.items = Ghost(items.push(c));
    proof {
        lemma_codes_valid_push(d.hist@, d.block_start@, items, c);
        lemma_items_obey_push(d.params.flags, items, c);
        lemma_lz_total_push(items, c);
        lemma_counts_push(items, c);
        assert forall|i: int| 0 <= i < 288 implies (#[trigger] d.huff.count@[i]) as nat == sym_count(d.items@, i) by {
            if i != len_symbol(l) {
                assert(d.huff.count@[i] == c0[i]);
            }
        }
        assert forall|j: int| 0 <= j < 32 implies (#[trigger] d.huff.count@[288 + j]) as nat == dsym_count(
            d.items@,
            j,
        ) by {
            if j != dist_sym(dd) {
                assert(d.huff.count@[288 + j] == c0[288 + j]);
            }
        }
        assert forall|i: int| 320 <= i < 576 implies (#[trigger] d.huff.count@[i]) == 0 by {
            assert(d.huff.count@[i] == c0[i]);
        }
    }
}

/// The three bytes at `p`, the first in the lowest bits.
pub open spec fn trigram_at(dict: Seq<u8>, p: int) -> u32 {
    (dict[p] as u32) | ((dict[p + 1] as u32) << 8u32) | ((dict[p + 2] as u32) << 16u32)
}

/// The hash of a trigram in the fast compressor's table.
pub open spec fn fast_hash(t: u32) -> u32 {
    (t ^ (t >> 17u32)) & 4095u32
}

/// Records a match of the fast compressor: the length less 3 and the distance less 1
/// written straight into the buffer.
fn fast_match(d: &mut CompressorOxide, cur_match_len: u32, cur_match_dist: u16, Ghost(p): Ghost<int>)
    requires
        old(d).state_ok(),
        old(d).lz.code_position <= 65532,
        3 <= cur_match_len <= 258,
        cur_match_dist < 32768,
        old(d).block_ok(p),
        code_valid(old(d).hist@, p, LzCode::Match((cur_match_len - 3) as u8, cur_match_dist)),
        match_obeys(old(d).params.flags, LzCode::Match((cur_match_len - 3) as u8, cur_match_dist)),
    ensures
        final(d).flush_written == old(d).flush_written,
        final(d).state_ok(),
        final(d).lz.code_position <= old(d).lz.code_position + 4,
        final(d).params == old(d).params,
        final(d).dict == old(d).dict,
        final(d).hist == old(d).hist,
        final(d).block_ok(p + cur_match_len),
{
    let ghost items = d.items@;
    let ghost c0 = d.huff.count@;
    let ghost lz0 = d.lz;
    let ghost l = (cur_match_len - 3) as u8;
    let ghost c = LzCode::Match(l, cur_match_dist);
    proof {
        lemma_symbols(l, cur_match_dist);
        lemma_lz_total_bound(items);
        lemma_counts_bound(items, len_symbol(l));
        lemma_counts_bound(items, dist_sym(cur_match_dist));
        assert(c0[len_symbol(l)] as nat == sym_count(items, len_symbol(l)));
        assert(c0[288 + dist_sym(cur_match_dist)] as nat == dsym_count(items, dist_sym(cur_match_dist)));
    }
    d.lz.write_code((cur_match_len - 3) as u8);
    let cp = d.lz.code_position;
    write_u16_le_uc(cur_match_dist, d.lz.codes.as_mut_slice(), cp);
    d.lz.code_position += 2;
    let fp = d.lz.flag_position;
    d.lz.codes[fp] = d.lz.codes[fp] >> 1;
    d.lz.codes[fp] = d.lz.codes[fp] | 0x80;
    proof {
        let f = lz0.codes@[fp as int];
        assert(((f >> 1u8) | 0x80u8) == ((f >> 1u8) | 0x80u8));
    }
    let sym = if cur_match_dist < 512 {
        SMALL_DIST_SYM[cur_match_dist as usize]
    } else {
        proof {
            assert(cur_match_dist >> 8 == cur_match_dist / 256) by (bit_vector);
        }
        LARGE_DIST_SYM[(cur_match_dist >> 8) as usize]
    } as usize;
    d.huff.count[288 + sym] += 1;
    d.huff.count[LEN_SYM[(cur_match_len - 3) as usize] as usize] += 1;
    d.lz.consume_flag();
    d.lz.total_bytes += cur_match_len;
    proof {
        lemma_inv_push(lz0, d.lz, items, c);
    }
    d.items = Ghost(items.push(c));
    proof {
        lemma_codes_valid_push(d.hist@, d.block_start@, items, c);
        lemma_items_obey_push(d.params.flags, items, c);
        lemma_lz_total_push(items, c);
        lemma_counts_push(items, c);
        assert forall|i: int| 0 <= i < 288 implies (#[trigger] d.huff.count@[i]) as nat == sym_count(d.items@, i) by {
            if i != len_symbol(l) {
                assert(d.huff.count@[i] == c0[i]);
            }
        }
        assert forall|j: int| 0 <= j < 32 implies (#[trigger] d.huff.count@[288 + j]) as nat == dsym_count(
            d.items@,
            j,
        ) by {
            if j != dist_sym(cur_match_dist) {
                assert(d.huff.count@[288 + j] == c0[288 + j]);
            }
        }
        assert forall|i: int| 320 <= i < 576 implies (#[trigger] d.huff.count@[i]) == 0 by {
            assert(d.huff.count@[i] == c0[i]);
        }
    }
}

/// One step of the fast compressor at `cur_pos`: the trigram there is looked up in the
/// hash table (which then points here); a match found there is extended and recorded, or
/// the byte is recorded as a literal. When the table's position is out of reach nothing is
/// recorded and 0 is returned; the next step at the same position then finds this one.
/// Returns how many positions the lookahead moves on.
fn fast_step(d: &mut CompressorOxide, lookahead_pos: u32, lookahead_size: u32, cur_pos: u32) -> (r: u32)
    requires
        old(d).wf(),
        fast_path(old(d).params.flags),
        4 <= lookahead_size <= 4096,
        cur_pos == lookahead_pos & 32767,
        old(d).window_ok(lookahead_size, lookahead_pos),
        old(d).block_ok(old(d).hist@.len() - lookahead_size),
    ensures
        final(d).flush_written == old(d).flush_written,
        final(d).state_ok(),
        final(d).lz.code_position <= old(d).lz.code_position + 4,
        r <= lookahead_size,
        final(d).params == old(d).params,
        final(d).dict.b.dict == old(d).dict.b.dict,
        final(d).dict.b.next == old(d).dict.b.next,
        final(d).dict.size == old(d).dict.size,
        final(d).dict.lookahead_size == old(d).dict.lookahead_size,
        final(d).dict.lookahead_pos == old(d).dict.lookahead_pos,
        final(d).dict.max_probes == old(d).dict.max_probes,
        final(d).dict.code_buf_dict_pos == old(d).dict.code_buf_dict_pos,
        final(d).hist == old(d).hist,
        final(d).block_ok(old(d).hist@.len() - lookahead_size + r),
        r == 0 ==> final(d).dict.b.hash@[fast_hash(trigram_at(old(d).dict.b.dict@, cur_pos as int)) as int]
            == lookahead_pos as u16 && final(d).lz == old(d).lz && final(d).items == old(d).items,
        old(d).dict.b.hash@[fast_hash(trigram_at(old(d).dict.b.dict@, cur_pos as int)) as int] == lookahead_pos
            as u16 ==> r >= 1,
        ({
            let e = old(d).dict.b.hash@[fast_hash(trigram_at(old(d).dict.b.dict@, cur_pos as int)) as int] as u32;
            let dist = lookahead_pos.wrapping_sub(e) as u16;
            let pp = (e & 32767u32) as int;
            dist != 0 && dist <= old(d).dict.size && (forall|t: int|
                0 <= t < 4 ==> #[trigger] old(d).dict.b.dict@[cur_pos + t] == old(d).dict.b.dict@[pp + t]) ==> r >= 4
        }),
{
    let ghost pos = d.hist@.len() - lookahead_size;
    let ghost hist = d.hist@;
    let ghost span = lookahead_size + d.dict.size;
    proof {
        lemma_mask15(lookahead_pos);
        lemma_cur_slot(lookahead_pos, pos);
        lemma_fast_not_raw(d.params.flags);
    }
    let ghost dict0 = d.dict.b.dict@;
    let c = cur_pos as usize;
    let first_trigram = (d.dict.b.dict[c] as u32) | ((d.dict.b.dict[c + 1] as u32) << 8) | ((d.dict.b.dict[c
        + 2] as u32) << 16);
    let hash = (first_trigram ^ (first_trigram >> 17)) & 4095;
    proof {
        assert(hash <= 4095) by (bit_vector)
            requires
                hash == (first_trigram ^ (first_trigram >> 17u32)) & 4095u32,
        ;
        lemma_trigram_low(dict0[c as int], dict0[c + 1], dict0[c + 2]);
        lemma_window_read(dict0, hist, span, pos, 0);
        assert(code_valid(hist, pos, LzCode::Lit(first_trigram as u8)));
    }
    let mut probe_pos = d.dict.b.hash[hash as usize] as u32;
    let ghost h0 = probe_pos;
    d.dict.b.hash[hash as usize] = lookahead_pos as u16;
    let cur_match_dist = (lookahead_pos.wrapping_sub(probe_pos)) as u16;
    proof {
        let lp = lookahead_pos;
        let pp = probe_pos;
        assert(pp <= 65535 && (lp.wrapping_sub(pp)) as u16 == 0 ==> (pp & 32767) == (lp & 32767)) by (bit_vector);
        assert(pp == (lp as u16) as u32 ==> (lp.wrapping_sub(pp)) as u16 == 0) by (bit_vector);
        lemma_probe_back(lp, pp);
    }
    if cur_match_dist as u32 <= d.dict.size {
        probe_pos = probe_pos & 32767;
        proof {
            let pp = h0;
            lemma_mask15(pp);
        }
        let pp = probe_pos as usize;
        let trigram = (d.dict.b.dict[pp] as u32) | ((d.dict.b.dict[pp + 1] as u32) << 8) | ((d.dict.b.dict[pp
            + 2] as u32) << 16);
        let mut cur_match_len: u32 = 1;
        if first_trigram == trigram {
            let n = equal_run(&d.dict.b.dict, c + 3, pp + 3, 256);
            proof {
                lemma_trigram_eq(
                    dict0[c as int],
                    dict0[c + 1],
                    dict0[c + 2],
                    dict0[pp as int],
                    dict0[pp + 1],
                    dict0[pp + 2],
                );
                assert forall|t: int| 0 <= t < 3 + n implies #[trigger] dict0[c + t] == dict0[pp + t] by {
                    if t >= 3 {
                        assert(dict0[(c + 3) + (t - 3)] == dict0[(pp + 3) + (t - 3)]);
                    }
                }
                if cur_match_dist == 0 {
                    assert(pp == c);
                    if n < 256 {
                        assert(d.dict.b.dict@[(c + 3) + n] == d.dict.b.dict@[(pp + 3) + n]);
                    }
                }
            }
            proof {
                if cur_match_dist != 0 && dict0[c + 3] == dict0[pp + 3] && n < 256 {
                    assert(n >= 1);
                }
            }
            let found_len: u32 = if n < 256 {
                3 + n as u32
            } else if cur_match_dist == 0 {
                0
            } else {
                258
            };
            if found_len < 3 || (found_len == 3 && cur_match_dist >= 8 * 1024) {
                cur_match_len = 1;
                rec_literal(d, first_trigram as u8, Ghost(pos));
            } else {
                cur_match_len = if found_len < lookahead_size { found_len } else { lookahead_size };
                proof {
                    let dist = cur_match_dist as u32;
                    assert(match_at(dict0, lookahead_pos, dist, cur_match_len as int));
                    lemma_match_in_stream(
                        dict0,
                        hist,
                        span,
                        lookahead_pos,
                        pos,
                        lookahead_size as int,
                        dist,
                        cur_match_len as int,
                    );
                    assert(code_valid(
                        hist,
                        pos,
                        LzCode::Match((cur_match_len - 3) as u8, (cur_match_dist - 1) as u16),
                    ));
                }
                fast_match(d, cur_match_len, cur_match_dist - 1, Ghost(pos));
            }
        } else {
            rec_literal(d, first_trigram as u8, Ghost(pos));
        }
        cur_match_len
    } else {
        0
    }
}

/// The low byte of a trigram is its first byte.
proof fn lemma_trigram_low(a: u8, b: u8, c: u8)
    by (bit_vector)
    ensures
        (((a as u32) | ((b as u32) << 8u32) | ((c as u32) << 16u32)) as u8) == a,
{
}

/// Equal trigrams have equal bytes.
proof fn lemma_trigram_eq(a: u8, b: u8, c: u8, x: u8, y: u8, z: u8)
    by (bit_vector)
    requires
        ((a as u32) | ((b as u32) << 8u32) | ((c as u32) << 16u32)) == ((x as u32) | ((y as u32) << 8u32) | ((
        z as u32) << 16u32)),
    ensures
        a == x,
        b == y,
        c == z,
{
}

/// Going back from `lp` by the 16-bit distance to `h` lands on `h`'s slot.
proof fn lemma_probe_back(lp: u32, h: u32)
    by (bit_vector)
    requires
        h <= 65535,
    ensures
        lp.wrapping_sub(((lp.wrapping_sub(h)) as u16) as u32) & 32767u32 == h & 32767u32,
{
}

/// Ends the current block: writes it, then the flush's ending; resets the block state;
/// and hands the output to the sink. Returns the number of bytes still to hand out, or a
/// negative status. The block written holds the block's codes, which decode to the input
/// from the block's start to `p`, or that input stored.
fn flush_block<S: FlushSink>(
    d: &mut CompressorOxide,
    callback: &mut CallbackOxide<S>,
    flush: TDEFLFlush,
    Ghost(p): Ghost<int>,
) -> (r: i32)
    requires
        old(d).state_ok(),
        old(d).block_ok(p),
        old(d).window_ok(old(d).dict.lookahead_size, old(d).dict.lookahead_pos),
        old(d).hist@.len() - old(d).dict.lookahead_size - 1 <= p <= old(d).hist@.len() - old(d).dict.lookahead_size,
        old(d).params.flags & TDEFL_FORCE_ALL_RAW_BLOCKS != 0 ==> (old(d).hist@.len() - old(d).dict.lookahead_size)
            - old(d).block_start@ <= old(d).dict.size,
        old(callback).out.ready(old(d).params.out_buf_ofs, old(d).params.handed@),
        old(d).params.flush_remaining == 0,
    ensures
        final(d).wf(),
        final(callback).out.ready(final(d).params.out_buf_ofs, final(d).params.handed@),
        final(callback).in_buf == old(callback).in_buf,
        final(d).lz.code_position == 1,
        final(d).items@ == Seq::<LzCode>::empty(),
        final(d).params.flags == old(d).params.flags,
        final(d).params.src_pos == old(d).params.src_pos,
        final(d).params.flush == old(d).params.flush,
        final(d).params.finished == old(d).params.finished,
        final(d).params.adler32 == old(d).params.adler32,
        final(d).params.saved_match_len == old(d).params.saved_match_len,
        final(d).params.saved_match_dist == old(d).params.saved_match_dist,
        final(d).params.saved_lit == old(d).params.saved_lit,
        final(d).params.greedy_parsing == old(d).params.greedy_parsing,
        final(d).dict.lookahead_size == old(d).dict.lookahead_size,
        final(d).dict.lookahead_pos == old(d).dict.lookahead_pos,
        final(d).dict.size == old(d).dict.size,
        final(d).dict.b == old(d).dict.b,
        final(d).dict.max_probes == old(d).dict.max_probes,
        r == final(d).params.flush_remaining as i32 || (r == TDEFLStatus::PutBufFailed.spec_value()
            && final(d).params.prev_return_status == TDEFLStatus::PutBufFailed),
        r != TDEFLStatus::PutBufFailed.spec_value() ==> final(d).params.prev_return_status == old(
            d,
        ).params.prev_return_status,
        S::never_fails() ==> r == final(d).params.flush_remaining as i32,
        final(callback).out.out_len() == old(callback).out.out_len(),
        final(callback).out.can_refuse() == old(callback).out.can_refuse(),
        r == TDEFLStatus::PutBufFailed.spec_value() ==> old(callback).out.can_refuse(),
        final(d).hist == old(d).hist,
        final(d).flush_written@ == Some(flush),
        final(d).params.block_index == old(d).params.block_index.wrapping_add(1),
        final(d).block_ok(p),
        block_flushed(
            old(d).params.saved_bit_buffer,
            old(d).params.saved_bits_in,
            final(d).params.local_buf@,
            final(d).params.saved_bit_buffer,
            final(d).params.saved_bits_in,
            final(d).huff.codes@,
            final(d).huff.code_sizes@,
            old(d).items@,
            old(d).hist@.subrange(old(d).block_start@, p),
            (old(d).hist@.len() - old(d).dict.lookahead_size) - old(d).block_start@ <= old(d).dict.size,
            old(d).params.flags,
            old(d).params.block_index,
            flush,
            old(d).params.adler32,
        ),
        lz_decode(old(d).hist@.take(old(d).block_start@), old(d).items@) == old(d).hist@.take(p),
        final(d).params.flush_remaining != 0 ==> final(callback).out.full(final(d).params.out_buf_ofs),
        flush != TDEFLFlush::NoFlush ==> final(d).params.saved_bits_in == 0,
{
    proof {
        lemma_lz_decode(d.hist@, d.block_start@, d.items@);
    }
    d.params.flush_ofs = 0;
    d.params.flush_remaining = 0;
    let output = write_block_out(
        &mut d.huff,
        &mut d.lz,
        &d.dict,
        d.params.flags,
        d.params.block_index,
        d.params.adler32,
        d.params.saved_bit_buffer,
        d.params.saved_bits_in,
        flush,
        Ghost(d.items@),
        Ghost(d.hist@),
        Ghost(d.block_start@),
        Ghost(p),
    );
    memset_range(&mut d.huff.count, 0, 288, 0u16);
    memset_range(&mut d.huff.count, 288, 320, 0u16);
    d.lz.code_position = 1;
    d.lz.flag_position = 0;
    d.lz.num_flags_left = 8;
    d.dict.code_buf_dict_pos = d.dict.code_buf_dict_pos.wrapping_add(d.lz.total_bytes);
    d.lz.total_bytes = 0;
    d.params.block_index = d.params.block_index.wrapping_add(1);
    let saved_buffer = output.save();
    d.params.saved_bit_buffer = saved_buffer.bit_buffer;
    d.params.saved_bits_in = saved_buffer.bits_in;
    d.params.local_buf = output.inner;
    d.items = Ghost(Seq::empty());
    proof {
        lemma_items_obey_empty(d.params.flags);
        lemma_wrap_pos(old(d).dict.code_buf_dict_pos, old(d).lz.total_bytes, old(d).block_start@);
    }
    d.block_start = Ghost(p);
    d.flush_written = Ghost(Some(flush));
    proof {
        let e = Seq::<LzCode>::empty();
        assert(e.take(0) =~= e);
        assert(e.skip(0) =~= e);
        assert(d.lz.codes@.subrange(0, 0) =~= crate::lz::lz_enc(e.take(0)));
        assert(d.lz.codes@.subrange(1, 1) =~= crate::lz::group_bytes(e.skip(0)));
        assert forall|i: int| 0 <= i < 288 implies (#[trigger] d.huff.count@[i]) as nat == sym_count(e, i) by {
            lemma_counts_empty(i);
        }
        assert forall|j: int| 0 <= j < 32 implies (#[trigger] d.huff.count@[288 + j]) as nat == dsym_count(e, j) by {
            lemma_counts_empty(j);
        }
    }
    callback.flush_output(saved_buffer.pos as usize, &mut d.params)
}


/// The fields of the parameters that compressing input keeps.
pub open spec fn same_stream_params(a: &ParamsOxide, b: &ParamsOxide) -> bool {
    &&& b.flags == a.flags
    &&& b.greedy_parsing == a.greedy_parsing
    &&& b.flush == a.flush
    &&& b.finished == a.finished
    &&& b.adler32 == a.adler32
}

/// Takes as much input as fits in the lookahead of the normal compressor into the
/// dictionary. Returns the new input position and lookahead size.
fn take_input_normal(d: &mut CompressorOxide, in_buf: &[u8], src_pos: usize, lookahead_pos: u32, lookahead_size: u32)
    -> (r: (usize, u32))
    requires
        old(d).wf(),
        src_pos <= in_buf@.len(),
        lookahead_size <= 258,
        old(d).window_ok(lookahead_size, lookahead_pos),
    ensures
        final(d).flush_written == old(d).flush_written,
        final(d).wf(),
        src_pos <= r.0 <= in_buf@.len(),
        lookahead_size <= r.1 <= 258,
        r.0 - src_pos == r.1 - lookahead_size,
        src_pos < in_buf@.len() ==> r.1 >= 1,
        r.1 < 258 ==> r.0 == in_buf@.len(),
        final(d).dict.size == (if 32768 - r.1 < old(d).dict.size { 32768 - r.1 } else { old(d).dict.size as int }),
        final(d).params == old(d).params,
        final(d).lz == old(d).lz,
        final(d).items == old(d).items,
        final(d).dict.lookahead_size == old(d).dict.lookahead_size,
        final(d).dict.lookahead_pos == old(d).dict.lookahead_pos,
        final(d).dict.max_probes == old(d).dict.max_probes,
        final(d).dict.code_buf_dict_pos == old(d).dict.code_buf_dict_pos,
        final(d).hist@ == old(d).hist@ + in_buf@.subrange(src_pos as int, r.0 as int),
        final(d).block_start == old(d).block_start,
        final(d).window_ok(r.1, lookahead_pos),
        forall|p: int| old(d).block_ok(p) ==> #[trigger] final(d).block_ok(p),
        forall|p: int, sl: u8, slen: u32, sd: u32|
            old(d).saved_valid(p, sl, slen, sd) ==> #[trigger] final(d).saved_valid(p, sl, slen, sd),
{
    let ghost d0 = *d;
    let in_len = in_buf.len();
    let src_buf_left = in_len - src_pos;
    let num_bytes_to_process: usize = if src_buf_left < 258 - lookahead_size as usize {
        src_buf_left
    } else {
        258 - lookahead_size as usize
    };
    let mut la = lookahead_size;
    if lookahead_size + d.dict.size >= 2 && num_bytes_to_process > 0 {
        d.dict.insert_rolling(in_buf, src_pos, num_bytes_to_process, lookahead_pos, lookahead_size);
        la = lookahead_size + num_bytes_to_process as u32;
    } else {
        la = d.dict.insert_each(in_buf, src_pos, num_bytes_to_process, lookahead_pos, lookahead_size);
    }
    let room = 32768 - la;
    d.dict.size = if room < d.dict.size { room } else { d.dict.size };
    let ghost data = in_buf@.subrange(src_pos as int, src_pos + num_bytes_to_process);
    d.hist = Ghost(d.hist@ + data);
    proof {
        lemma_take_in(d0, *d, lookahead_size, lookahead_pos, data);
    }
    (src_pos + num_bytes_to_process, la)
}

/// One step of the normal compressor at `lookahead_pos`: looks for a match, and records
/// a literal, a match, or (with lazy matching) keeps the match pending to compare it with
/// one at the next position. Returns how many positions the lookahead moves on.
fn choose_normal(
    d: &mut CompressorOxide,
    lookahead_pos: u32,
    lookahead_size: u32,
    saved_lit: &mut u8,
    saved_match_dist: &mut u32,
    saved_match_len: &mut u32,
) -> (len_to_move: u32)
    requires
        old(d).wf(),
        1 <= lookahead_size <= 258,
        *old(saved_match_len) != 0 ==> 3 <= *old(saved_match_len) <= 258 && 1 <= *old(saved_match_dist) <= 32768
            && *old(saved_match_len) <= lookahead_size + 1,
        old(d).window_ok(lookahead_size, lookahead_pos),
        old(d).block_ok(
            old(d).hist@.len() - lookahead_size - (if *old(saved_match_len) != 0 { 1int } else { 0int }),
        ),
        old(d).saved_valid(
            old(d).hist@.len() - lookahead_size,
            *old(saved_lit),
            *old(saved_match_len),
            *old(saved_match_dist),
        ),
    ensures
        final(d).flush_written == old(d).flush_written,
        final(d).block_start == old(d).block_start,
        final(d).state_ok(),
        final(d).lz.code_position <= old(d).lz.code_position + 6,
        1 <= len_to_move <= lookahead_size,
        *final(saved_match_len) != 0 ==> 3 <= *final(saved_match_len) <= 258 && 1 <= *final(saved_match_dist)
            <= 32768 && *final(saved_match_len) <= lookahead_size - len_to_move + 1,
        final(d).params == old(d).params,
        final(d).dict == old(d).dict,
        final(d).hist == old(d).hist,
        final(d).block_ok(
            old(d).hist@.len() - lookahead_size + len_to_move - (if *final(saved_match_len) != 0 {
                1int
            } else {
                0int
            }),
        ),
        final(d).saved_valid(
            old(d).hist@.len() - lookahead_size + len_to_move,
            *final(saved_lit),
            *final(saved_match_len),
            *final(saved_match_dist),
        ),
        old(d).params.flags & TDEFL_FORCE_ALL_RAW_BLOCKS != 0 && *old(saved_match_len) == 0 ==> len_to_move == 1
            && *final(saved_match_len) == 0,
        old(d).params.greedy_parsing && *old(saved_match_len) == 0 ==> *final(saved_match_len) == 0,
{
    let ghost hist = d.hist@;
    let ghost pos = hist.len() - lookahead_size;
    let ghost span = lookahead_size + d.dict.size;
    let ghost dict0 = d.dict.b.dict@;
    let mut len_to_move: u32 = 1;
    let mut cur_match_dist: u32 = 0;
    let mut cur_match_len: u32 = if *saved_match_len != 0 { *saved_match_len } else { 2 };
    let ghost cur0 = cur_match_len;
    let cur_pos = lookahead_pos & 32767;
    proof {
        lemma_mask15(lookahead_pos);
        lemma_cur_slot(lookahead_pos, pos);
        lemma_window_read(dict0, hist, span, pos, 0);
    }
    proof {
        let f = d.params.flags;
        assert((f & 0x8_0000u32 != 0 ==> f & (0x1_0000u32 | 0x8_0000u32) != 0) && (f & 0x1_0000u32 != 0 ==> f & (
        0x1_0000u32 | 0x8_0000u32) != 0)) by (bit_vector);
        assert(f & 0xFFFu32 == 0 ==> (f & 0xFFFu32) >> 2u32 == 0) by (bit_vector);
        assert(f & (0x1_0000u32 | 0x8_0000u32) != 0 && f & 0x1_0000u32 == 0 ==> f & 0x8_0000u32 != 0) by (bit_vector);
    }
    if d.params.flags & (TDEFL_RLE_MATCHES | TDEFL_FORCE_ALL_RAW_BLOCKS) != 0 {
        if d.dict.size != 0 && d.params.flags & TDEFL_FORCE_ALL_RAW_BLOCKS == 0 {
            cur_match_len = d.dict.run_length(cur_pos, lookahead_size);
            if cur_match_len < 3 {
                cur_match_len = 0;
            } else {
                cur_match_dist = 1;
                proof {
                    lemma_run_in_stream(dict0, hist, span, lookahead_pos, pos, lookahead_size as int, cur_match_len as int);
                }
            }
        }
    } else {
        proof {
            let f = d.params.flags;
            assert(f & (0x1_0000u32 | 0x8_0000u32) == 0 ==> f & 0x8_0000u32 == 0) by (bit_vector);
            assert(f & TDEFL_FORCE_ALL_RAW_BLOCKS == 0);
            if f & 0xFFFu32 == 0 {
                assert(probes_of(f).0 == 1);
                assert(probes_of(f).1 == 1);
                assert(d.dict.max_probes[0] <= 1 && d.dict.max_probes[1] <= 1);
            }
        }
        let dist_len = d.dict.find_match(lookahead_pos, d.dict.size, lookahead_size, cur_match_dist, cur_match_len);
        cur_match_dist = dist_len.0;
        cur_match_len = dist_len.1;
        proof {
            if d.params.flags & 0xFFFu32 == 0 {
                assert(cur_match_dist == 0);
            }
            if cur_match_dist != 0 {
                lemma_match_in_stream(
                    dict0,
                    hist,
                    span,
                    lookahead_pos,
                    pos,
                    lookahead_size as int,
                    cur_match_dist,
                    cur_match_len as int,
                );
            }
        }
    }
    let far_and_small = cur_match_len == 3 && cur_match_dist >= 8 * 1024;
    let filter_small = d.params.flags & TDEFL_FILTER_MATCHES != 0 && cur_match_len <= 5;
    if far_and_small || filter_small || cur_pos == cur_match_dist {
        cur_match_dist = 0;
        cur_match_len = 0;
    }
    proof {
        assert(cur_match_dist == 0 || (3 <= cur_match_len <= 258 && cur_match_len <= lookahead_size && 1
            <= cur_match_dist <= 32768));
        assert(cur_match_dist == 0 ==> cur_match_len <= cur0);
        assert(cur_match_dist != 0 ==> code_valid(
            hist,
            pos,
            LzCode::Match((cur_match_len - 3) as u8, (cur_match_dist - 1) as u16),
        ));
        if cur_match_dist != 0 {
            let f = d.params.flags;
            assert(f & TDEFL_FORCE_ALL_RAW_BLOCKS == 0);
            assert(!(f & 0xFFFu32 == 0 && f & TDEFL_RLE_MATCHES == 0));
            assert(!((cur_match_len - 3) as u8 == 0 && (cur_match_dist - 1) as u16 >= 8191));
        }
        assert(cur_match_dist != 0 ==> match_obeys(
            d.params.flags,
            LzCode::Match((cur_match_len - 3) as u8, (cur_match_dist - 1) as u16),
        ));
    }
    if *saved_match_len != 0 {
        if cur_match_len > *saved_match_len {
            rec_literal(d, *saved_lit, Ghost(pos - 1));
            if cur_match_len >= 128 {
                rec_match(d, cur_match_len, cur_match_dist, Ghost(pos));
                *saved_match_len = 0;
                len_to_move = cur_match_len;
            } else {
                *saved_lit = d.dict.b.dict[cur_pos as usize];
                *saved_match_dist = cur_match_dist;
                *saved_match_len = cur_match_len;
            }
        } else {
            rec_match(d, *saved_match_len, *saved_match_dist, Ghost(pos - 1));
            len_to_move = *saved_match_len - 1;
            *saved_match_len = 0;
        }
    } else if cur_match_dist == 0 {
        let last = d.dict.b.dict.len() - 1;
        let idx = if (cur_pos as usize) < last { cur_pos as usize } else { last };
        rec_literal(d, d.dict.b.dict[idx], Ghost(pos));
    } else if d.params.greedy_parsing || (d.params.flags & TDEFL_RLE_MATCHES != 0) || cur_match_len >= 128 {
        rec_match(d, cur_match_len, cur_match_dist, Ghost(pos));
        len_to_move = cur_match_len;
    } else {
        let last = d.dict.b.dict.len() - 1;
        let idx = if (cur_pos as usize) < last { cur_pos as usize } else { last };
        *saved_lit = d.dict.b.dict[idx];
        *saved_match_dist = cur_match_dist;
        *saved_match_len = cur_match_len;
    }
    len_to_move
}

/// A run the dictionary shows at the lookahead, of bytes equal to the one before it, is a
/// match at distance 1 in the stream.
proof fn lemma_run_in_stream(d: Seq<u8>, hist: Seq<u8>, span: int, lookahead_pos: u32, pos: int, la: int, len: int)
    requires
        window_holds(d, hist, span),
        0 <= pos,
        pos + la == hist.len(),
        la < span,
        lookahead_pos as int == pos % 0x1_0000_0000,
        0 <= len <= la,
        len <= 258,
        forall|t: int| 0 <= t < len ==> #[trigger] d[(lookahead_pos & 32767u32) + t] == d[(
        (lookahead_pos & 32767u32).wrapping_sub(1) & 32767u32) as int],
    ensures
        code_valid(hist, pos, LzCode::Match((len - 3) as u8, 0u16)) || len < 3,
        1 <= pos,
{
    lemma_cur_slot(lookahead_pos, pos);
    lemma_probe_slot(lookahead_pos, pos, 1);
    let lp = lookahead_pos;
    lemma_wrap_mask15(lp, 1u32);
    lemma_wrap_mask15(lp & 32767u32, 1u32);
    lemma_mask15(lp & 32767u32);
    lemma_mask15(1u32);
    lemma_window_read(d, hist, span, pos - 1, 0);
    assert forall|t: int| 0 <= t < len implies #[trigger] hist[pos + t] == hist[pos - 1] by {
        lemma_window_read(d, hist, span, pos, t);
    }
    if len >= 3 {
        assert forall|t: int| 0 <= t < len implies #[trigger] hist[pos + t] == hist[pos - 1 + t] by {
            if t > 0 {
                assert(hist[pos + (t - 1)] == hist[pos - 1]);
            }
        }
    }
}

/// One step of the normal compressor: records what `choose_normal` chooses and moves the
/// lookahead on past it. Returns the new lookahead position and size.
fn step_normal(
    d: &mut CompressorOxide,
    lookahead_pos: u32,
    lookahead_size: u32,
    saved_lit: &mut u8,
    saved_match_dist: &mut u32,
    saved_match_len: &mut u32,
) -> (r: (u32, u32))
    requires
        old(d).wf(),
        1 <= lookahead_size <= 258,
        *old(saved_match_len) != 0 ==> 3 <= *old(saved_match_len) <= 258 && 1 <= *old(saved_match_dist) <= 32768
            && *old(saved_match_len) <= lookahead_size + 1,
        old(d).window_ok(lookahead_size, lookahead_pos),
        old(d).block_ok(
            old(d).hist@.len() - lookahead_size - (if *old(saved_match_len) != 0 { 1int } else { 0int }),
        ),
        old(d).saved_valid(
            old(d).hist@.len() - lookahead_size,
            *old(saved_lit),
            *old(saved_match_len),
            *old(saved_match_dist),
        ),
        old(d).params.flags & TDEFL_FORCE_ALL_RAW_BLOCKS != 0 ==> {
            &&& *old(saved_match_len) == 0
            &&& (old(d).hist@.len() - lookahead_size) - old(d).block_start@ <= old(d).dict.size
            &&& (old(d).hist@.len() - lookahead_size) - old(d).block_start@ <= 31 * 1024
        },
    ensures
        final(d).flush_written == old(d).flush_written,
        final(d).state_ok(),
        final(d).lz.code_position <= old(d).lz.code_position + 6,
        r.1 < lookahead_size,
        final(d).params == old(d).params,
        final(d).hist == old(d).hist,
        final(d).block_start == old(d).block_start,
        *final(saved_match_len) != 0 ==> 3 <= *final(saved_match_len) <= 258 && 1 <= *final(saved_match_dist)
            <= 32768 && *final(saved_match_len) <= r.1 + 1,
        final(d).window_ok(r.1, r.0),
        final(d).block_ok(final(d).hist@.len() - r.1 - (if *final(saved_match_len) != 0 { 1int } else { 0int })),
        final(d).saved_valid(final(d).hist@.len() - r.1, *final(saved_lit), *final(saved_match_len), *final(saved_match_dist)),
        old(d).params.greedy_parsing && *old(saved_match_len) == 0 ==> *final(saved_match_len) == 0,
        old(d).params.flags & TDEFL_FORCE_ALL_RAW_BLOCKS != 0 ==> {
            &&& *final(saved_match_len) == 0
            &&& (final(d).hist@.len() - r.1) - final(d).block_start@ <= final(d).dict.size
        },
{
    let len_to_move = choose_normal(d, lookahead_pos, lookahead_size, saved_lit, saved_match_dist, saved_match_len);
    let ghost dc = *d;
    let new_pos = lookahead_pos.wrapping_add(len_to_move);
    let new_size = lookahead_size - len_to_move;
    let grown = d.dict.size + len_to_move;
    d.dict.size = if grown < 32768 { grown } else { 32768 };
    proof {
        lemma_advance(dc, *d, lookahead_size, lookahead_pos, len_to_move);
    }
    (new_pos, new_size)
}

/// Ends the current block in the middle of the normal compressor's loop, with the loop's
/// input position, lookahead and pending match written back first. Returns what
/// `flush_block` returns.
#[verifier::rlimit(40)]
#[verifier::spinoff_prover]
fn flush_mid_normal<S: FlushSink>(
    d: &mut CompressorOxide,
    callback: &mut CallbackOxide<S>,
    src_pos: usize,
    lookahead_size: u32,
    lookahead_pos: u32,
    saved_lit: u8,
    saved_match_dist: u32,
    saved_match_len: u32,
) -> (n: i32)
    requires
        old(d).state_ok(),
        lookahead_size <= 258,
        saved_match_len != 0 ==> 3 <= saved_match_len <= 258 && 1 <= saved_match_dist <= 32768
            && saved_match_len <= lookahead_size + 1,
        old(d).window_ok(lookahead_size, lookahead_pos),
        old(d).block_ok(
            old(d).hist@.len() - lookahead_size - (if saved_match_len != 0 { 1int } else { 0int }),
        ),
        old(d).saved_valid(old(d).hist@.len() - lookahead_size, saved_lit, saved_match_len, saved_match_dist),
        old(d).params.flags & TDEFL_FORCE_ALL_RAW_BLOCKS != 0 ==> {
            &&& saved_match_len == 0
            &&& (old(d).hist@.len() - lookahead_size) - old(d).block_start@ <= old(d).dict.size
        },
        old(callback).out.ready(old(d).params.out_buf_ofs, old(d).params.handed@),
        old(d).params.flush_remaining == 0,
    ensures
        final(d).flush_written@ == Some(TDEFLFlush::NoFlush),
        final(d).wf(),
        final(d).hist == old(d).hist,
        final(d).window_ok(lookahead_size, lookahead_pos),
        final(d).block_ok(
            old(d).hist@.len() - lookahead_size - (if saved_match_len != 0 { 1int } else { 0int }),
        ),
        final(d).block_start@ == old(d).hist@.len() - lookahead_size - (if saved_match_len != 0 {
            1int
        } else {
            0int
        }),
        final(d).saved_valid(final(d).hist@.len() - lookahead_size, saved_lit, saved_match_len, saved_match_dist),
        final(d).dict.size == old(d).dict.size,
        final(d).dict.lookahead_size == lookahead_size,
        final(d).dict.lookahead_pos == lookahead_pos,
        final(d).params.src_pos == src_pos,
        final(d).params.saved_lit == saved_lit,
        final(d).params.saved_match_dist == saved_match_dist,
        final(d).params.saved_match_len == saved_match_len,
        same_stream_params(&old(d).params, &final(d).params),
        final(callback).out.ready(final(d).params.out_buf_ofs, final(d).params.handed@),
        final(callback).in_buf == old(callback).in_buf,
        final(callback).out.out_len() == old(callback).out.out_len(),
        final(callback).out.can_refuse() == old(callback).out.can_refuse(),
        n >= 0 ==> n == final(d).params.flush_remaining as i32 && final(d).params.prev_return_status == old(
            d,
        ).params.prev_return_status,
        n < 0 ==> final(d).params.prev_return_status == TDEFLStatus::PutBufFailed && old(callback).out.can_refuse(),
        S::never_fails() ==> n >= 0,
        final(d).params.flush_remaining != 0 ==> final(callback).out.full(final(d).params.out_buf_ofs),
{
    d.params.src_pos = src_pos;
    d.dict.lookahead_size = lookahead_size;
    d.dict.lookahead_pos = lookahead_pos;
    d.params.saved_lit = saved_lit;
    d.params.saved_match_dist = saved_match_dist;
    d.params.saved_match_len = saved_match_len;
    let ghost bp = d.hist@.len() - lookahead_size - (if saved_match_len != 0 { 1int } else { 0int });
    flush_block(d, callback, TDEFLFlush::NoFlush, Ghost(bp))
}

/// The normal compressor: takes the input into the dictionary and, once enough lookahead
/// is there (or the input is being flushed), chooses a literal or a match at each
/// position, trying the next position first for a longer match (lazy matching) unless
/// parsing is greedy. Blocks are ended when the LZ buffer is full or no longer pays.
/// Returns false if handing out a block failed.
#[verifier::rlimit(100)]
#[verifier::spinoff_prover]
fn compress_normal<S: FlushSink>(d: &mut CompressorOxide, callback: &mut CallbackOxide<S>) -> (r: bool)
    requires
        old(d).wf(),
        old(d).saved_ok(),
        old(d).lz_ok(),
        old(d).raw_ok(),
        old(d).params.greedy_parsing ==> old(d).params.saved_match_len == 0,
        !fast_path(old(d).params.flags),
        old(callback).out.ready(old(d).params.out_buf_ofs, old(d).params.handed@),
        old(d).params.flush_remaining == 0,
        old(callback).in_buf is Some ==> old(d).params.src_pos <= old(callback).in_buf->0@.len(),
    ensures
        final(d).flush_written == old(d).flush_written || final(d).flush_written@ == Some(TDEFLFlush::NoFlush),
        final(d).wf(),
        final(d).saved_ok(),
        final(d).lz_ok(),
        final(d).raw_ok(),
        final(d).params.greedy_parsing ==> final(d).params.saved_match_len == 0,
        final(callback).out.ready(final(d).params.out_buf_ofs, final(d).params.handed@),
        final(callback).in_buf == old(callback).in_buf,
        same_stream_params(&old(d).params, &final(d).params),
        final(callback).in_buf is Some ==> final(d).params.src_pos <= final(callback).in_buf->0@.len(),
        final(callback).in_buf is Some ==> old(d).params.src_pos <= final(d).params.src_pos && final(d).hist@
            == old(d).hist@ + final(callback).in_buf->0@.subrange(
            old(d).params.src_pos as int,
            final(d).params.src_pos as int,
        ),
        final(callback).in_buf is None ==> final(d).params.src_pos == old(d).params.src_pos && r && final(d).hist
            == old(d).hist,
        r && final(d).params.flush_remaining != 0 ==> final(callback).out.full(final(d).params.out_buf_ofs),
        r && final(d).params.flush_remaining == 0 && final(callback).in_buf is Some ==> final(d).params.src_pos
            == final(callback).in_buf->0@.len() && (final(d).params.flush != TDEFLFlush::NoFlush
            ==> final(d).dict.lookahead_size == 0),
        !r ==> final(d).params.prev_return_status == TDEFLStatus::PutBufFailed,
        S::never_fails() ==> r,
        final(callback).out.out_len() == old(callback).out.out_len(),
        final(callback).out.can_refuse() == old(callback).out.can_refuse(),
        !r ==> old(callback).out.can_refuse(),
        r ==> final(d).params.prev_return_status == old(d).params.prev_return_status,
{
    let mut src_pos = d.params.src_pos;
    let in_buf = match callback.in_buf {
        None => return true,
        Some(in_buf) => in_buf,
    };
    let ghost p0 = d.params;
    let ghost h0 = d.hist@;
    let mut lookahead_size = d.dict.lookahead_size;
    let mut lookahead_pos = d.dict.lookahead_pos;
    let mut saved_lit = d.params.saved_lit;
    let mut saved_match_dist = d.params.saved_match_dist;
    let mut saved_match_len = d.params.saved_match_len;
    let in_len = in_buf.len();
    proof {
        assert(h0 + in_buf@.subrange(src_pos as int, src_pos as int) =~= h0);
    }
    while src_pos < in_len || (d.params.flush != TDEFLFlush::NoFlush && lookahead_size != 0)
        invariant
            d.wf(),
            !fast_path(d.params.flags),
            callback.out.ready(d.params.out_buf_ofs, d.params.handed@),
            callback.out.out_len() == old(callback).out.out_len(),
            callback.out.can_refuse() == old(callback).out.can_refuse(),
            d.flush_written == old(d).flush_written || d.flush_written@ == Some(TDEFLFlush::NoFlush),
            callback.in_buf == old(callback).in_buf,
            callback.in_buf == Some(in_buf),
            in_len == in_buf@.len(),
            p0 == old(d).params,
            h0 == old(d).hist@,
            same_stream_params(&p0, &d.params),
            d.params.prev_return_status == p0.prev_return_status,
            d.params.flush_remaining == 0,
            p0.src_pos <= src_pos <= in_len,
            lookahead_size <= 258,
            saved_match_len != 0 ==> 3 <= saved_match_len <= 258 && 1 <= saved_match_dist <= 32768
                && saved_match_len <= lookahead_size + 1,
            d.params.greedy_parsing ==> saved_match_len == 0,
            d.window_ok(lookahead_size, lookahead_pos),
            d.block_ok(d.hist@.len() - lookahead_size - (if saved_match_len != 0 { 1int } else { 0int })),
            d.saved_valid(d.hist@.len() - lookahead_size, saved_lit, saved_match_len, saved_match_dist),
            d.hist@ == h0 + in_buf@.subrange(p0.src_pos as int, src_pos as int),
            d.params.flags & TDEFL_FORCE_ALL_RAW_BLOCKS != 0 ==> {
                &&& saved_match_len == 0
                &&& (d.hist@.len() - lookahead_size) - d.block_start@ <= d.dict.size
                &&& (d.hist@.len() - lookahead_size) - d.block_start@ <= 31 * 1024
            },
        ensures
            src_pos == in_len,
            d.params.flush != TDEFLFlush::NoFlush ==> lookahead_size == 0,
        decreases (in_len - src_pos) + lookahead_size,
    {
        let ghost hb = d.hist@;
        let ghost sp0 = src_pos;
        let (sp, la) = take_input_normal(d, in_buf, src_pos, lookahead_pos, lookahead_size);
        src_pos = sp;
        lookahead_size = la;
        proof {
            assert(in_buf@.subrange(p0.src_pos as int, sp0 as int) + in_buf@.subrange(sp0 as int, sp as int)
                =~= in_buf@.subrange(p0.src_pos as int, sp as int));
            assert(d.hist@ =~= h0 + in_buf@.subrange(p0.src_pos as int, src_pos as int));
        }
        if d.params.flush == TDEFLFlush::NoFlush && (lookahead_size as usize) < 258 {
            break;
        }
        let (lp, la) = step_normal(
            d,
            lookahead_pos,
            lookahead_size,
            &mut saved_lit,
            &mut saved_match_dist,
            &mut saved_match_len,
        );
        lookahead_pos = lp;
        lookahead_size = la;
        let lz_buf_tight = d.lz.code_position > 65536 - 8;
        let raw = d.params.flags & TDEFL_FORCE_ALL_RAW_BLOCKS != 0;
        let fat = ((d.lz.code_position * 115) >> 7) >= d.lz.total_bytes as usize;
        let fat_or_raw = (d.lz.total_bytes > 31 * 1024) && (fat || raw);
        if lz_buf_tight || fat_or_raw {
            let n = flush_mid_normal(
                d,
                callback,
                src_pos,
                lookahead_size,
                lookahead_pos,
                saved_lit,
                saved_match_dist,
                saved_match_len,
            );
            if n != 0 {
                return n > 0;
            }
        }
    }
    d.params.src_pos = src_pos;
    d.dict.lookahead_size = lookahead_size;
    d.dict.lookahead_pos = lookahead_pos;
    d.params.saved_lit = saved_lit;
    d.params.saved_match_dist = saved_match_dist;
    d.params.saved_match_len = saved_match_len;
    true
}

/// The fast compressor: takes the input into the dictionary in chunks of up to 4096 bytes
/// of lookahead, and at each position records a literal or the match that the single hash
/// table entry of its trigram gives. Blocks are ended when the LZ buffer is full.
/// Returns false if handing out a block failed.
#[verifier::rlimit(40)]
fn compress_fast<S: FlushSink>(d: &mut CompressorOxide, callback: &mut CallbackOxide<S>) -> (r: bool)
    requires
        old(d).wf(),
        old(d).lz_ok(),
        old(d).params.saved_match_len == 0,
        fast_path(old(d).params.flags),
        old(callback).out.ready(old(d).params.out_buf_ofs, old(d).params.handed@),
        old(d).params.flush_remaining == 0,
        old(callback).in_buf is Some ==> old(d).params.src_pos <= old(callback).in_buf->0@.len(),
    ensures
        final(d).flush_written == old(d).flush_written || final(d).flush_written@ == Some(TDEFLFlush::NoFlush),
        final(d).wf(),
        final(d).lz_ok(),
        final(callback).out.ready(final(d).params.out_buf_ofs, final(d).params.handed@),
        final(callback).in_buf == old(callback).in_buf,
        same_stream_params(&old(d).params, &final(d).params),
        final(d).params.saved_match_len == old(d).params.saved_match_len,
        final(d).params.saved_match_dist == old(d).params.saved_match_dist,
        final(callback).in_buf is Some ==> final(d).params.src_pos <= final(callback).in_buf->0@.len(),
        final(callback).in_buf is Some ==> old(d).params.src_pos <= final(d).params.src_pos && final(d).hist@
            == old(d).hist@ + final(callback).in_buf->0@.subrange(
            old(d).params.src_pos as int,
            final(d).params.src_pos as int,
        ),
        final(callback).in_buf is None ==> final(d).params.src_pos == old(d).params.src_pos && r && final(d).hist
            == old(d).hist,
        r && final(d).params.flush_remaining != 0 ==> final(callback).out.full(final(d).params.out_buf_ofs),
        r && final(d).params.flush_remaining == 0 && final(callback).in_buf is Some ==> final(d).params.src_pos
            == final(callback).in_buf->0@.len() && (final(d).params.flush != TDEFLFlush::NoFlush
            ==> final(d).dict.lookahead_size == 0),
        !r ==> final(d).params.prev_return_status == TDEFLStatus::PutBufFailed,
        S::never_fails() ==> r,
        final(callback).out.out_len() == old(callback).out.out_len(),
        final(callback).out.can_refuse() == old(callback).out.can_refuse(),
        !r ==> old(callback).out.can_refuse(),
        r ==> final(d).params.prev_return_status == old(d).params.prev_return_status,
{
    let mut src_pos = d.params.src_pos;
    let mut lookahead_size = d.dict.lookahead_size;
    let mut lookahead_pos = d.dict.lookahead_pos;
    let mut cur_pos = lookahead_pos & 32767;
    let in_buf = match callback.in_buf {
        None => return true,
        Some(in_buf) => in_buf,
    };
    let ghost p0 = d.params;
    let ghost h0 = d.hist@;
    let in_len = in_buf.len();
    proof {
        assert(h0 + in_buf@.subrange(src_pos as int, src_pos as int) =~= h0);
    }
    while src_pos < in_len || (d.params.flush != TDEFLFlush::NoFlush && lookahead_size > 0)
        invariant
            d.wf(),
            fast_path(d.params.flags),
            callback.out.ready(d.params.out_buf_ofs, d.params.handed@),
            callback.out.out_len() == old(callback).out.out_len(),
            callback.out.can_refuse() == old(callback).out.can_refuse(),
            d.flush_written == old(d).flush_written || d.flush_written@ == Some(TDEFLFlush::NoFlush),
            callback.in_buf == old(callback).in_buf,
            callback.in_buf == Some(in_buf),
            in_len == in_buf@.len(),
            p0 == old(d).params,
            h0 == old(d).hist@,
            same_stream_params(&p0, &d.params),
            d.params.saved_match_len == p0.saved_match_len,
            d.params.saved_match_dist == p0.saved_match_dist,
            p0.saved_match_len == 0,
            d.params.prev_return_status == p0.prev_return_status,
            d.params.flush_remaining == 0,
            p0.src_pos <= src_pos <= in_len,
            lookahead_size <= 4096,
            cur_pos == lookahead_pos & 32767,
            d.window_ok(lookahead_size, lookahead_pos),
            d.block_ok(d.hist@.len() - lookahead_size),
            d.hist@ == h0 + in_buf@.subrange(p0.src_pos as int, src_pos as int),
        ensures
            src_pos == in_len,
            d.params.flush != TDEFLFlush::NoFlush ==> lookahead_size == 0,
        decreases (in_len - src_pos) + lookahead_size,
    {
        let end = lookahead_pos.wrapping_add(lookahead_size);
        let dst_pos = (end & 32767) as usize;
        proof {
            lemma_mask15(end);
            lemma_wrap_mask15(lookahead_pos, lookahead_size);
            lemma_mask15(lookahead_size);
            lemma_mask15(((lookahead_pos & 32767u32) + (lookahead_size & 32767u32)) as u32);
            lemma_mask15(lookahead_pos);
        }
        let left = in_len - src_pos;
        let num_bytes_to_process: usize = if left < (4096 - lookahead_size) as usize {
            left
        } else {
            (4096 - lookahead_size) as usize
        };
        let ghost d0 = *d;
        let ghost la0 = lookahead_size;
        let ghost sp0 = src_pos;
        lookahead_size += num_bytes_to_process as u32;
        d.dict.copy_in(in_buf, src_pos, num_bytes_to_process, dst_pos);
        src_pos += num_bytes_to_process;
        let room = 32768 - lookahead_size;
        d.dict.size = if room < d.dict.size { room } else { d.dict.size };
        let ghost data = in_buf@.subrange(sp0 as int, src_pos as int);
        d.hist = Ghost(d.hist@ + data);
        proof {
            lemma_take_in(d0, *d, la0, lookahead_pos, data);
            assert(d0.block_ok(d0.hist@.len() - la0));
            assert(in_buf@.subrange(p0.src_pos as int, sp0 as int) + data =~= in_buf@.subrange(
                p0.src_pos as int,
                src_pos as int,
            ));
            assert(d.hist@ =~= h0 + in_buf@.subrange(p0.src_pos as int, src_pos as int));
        }
        if d.params.flush == TDEFLFlush::NoFlush && lookahead_size < 4096 {
            break;
        }
        let ghost mut pending: bool = false;
        while lookahead_size >= 4
            invariant
                d.wf(),
                fast_path(d.params.flags),
                callback.out.ready(d.params.out_buf_ofs, d.params.handed@),
                callback.out.out_len() == old(callback).out.out_len(),
                callback.out.can_refuse() == old(callback).out.can_refuse(),
                d.flush_written == old(d).flush_written || d.flush_written@ == Some(TDEFLFlush::NoFlush),
                callback.in_buf == old(callback).in_buf,
                callback.in_buf == Some(in_buf),
                in_len == in_buf@.len(),
                p0 == old(d).params,
                h0 == old(d).hist@,
                same_stream_params(&p0, &d.params),
                d.params.saved_match_len == p0.saved_match_len,
                d.params.saved_match_dist == p0.saved_match_dist,
                p0.saved_match_len == 0,
                d.params.prev_return_status == p0.prev_return_status,
                d.params.flush_remaining == 0,
                p0.src_pos <= src_pos <= in_len,
                lookahead_size <= 4096,
                cur_pos == lookahead_pos & 32767,
                pending ==> d.dict.b.hash@[fast_hash(trigram_at(d.dict.b.dict@, cur_pos as int)) as int]
                    == lookahead_pos as u16,
                d.window_ok(lookahead_size, lookahead_pos),
                d.block_ok(d.hist@.len() - lookahead_size),
                d.hist@ == h0 + in_buf@.subrange(p0.src_pos as int, src_pos as int),
            decreases 2 * lookahead_size + (if pending { 0int } else { 1int }),
        {
            proof {
                lemma_mask15(lookahead_pos);
            }
            let cur_match_len = fast_step(d, lookahead_pos, lookahead_size, cur_pos);
            if cur_match_len == 0 {
                proof {
                    pending = true;
                }
            } else {
                proof {
                    pending = false;
                }
                let ghost dc = *d;
                let ghost la0 = lookahead_size;
                let ghost lpa = lookahead_pos;
                lookahead_pos = lookahead_pos.wrapping_add(cur_match_len);
                let grown = d.dict.size + cur_match_len;
                d.dict.size = if grown < 32768 { grown } else { 32768 };
                let t = cur_pos + cur_match_len;
                cur_pos = t & 32767;
                proof {
                    let lp0 = (lookahead_pos.wrapping_sub(cur_match_len));
                    assert(lookahead_pos == lp0.wrapping_add(cur_match_len));
                    assert((lp0 & 32767) + cur_match_len == t ==> (t & 32767) == (lp0.wrapping_add(cur_match_len)
                        & 32767)) by (bit_vector);
                    lemma_advance(dc, *d, la0, lpa, cur_match_len);
                }
                lookahead_size -= cur_match_len;
                if d.lz.code_position > 65536 - 8 {
                    d.dict.lookahead_size = lookahead_size;
                    d.dict.lookahead_pos = lookahead_pos;
                    let ghost bp = d.hist@.len() - lookahead_size;
                    proof {
                        lemma_fast_not_raw(d.params.flags);
                    }
                    let n = flush_block(d, callback, TDEFLFlush::NoFlush, Ghost(bp));
                    if n != 0 {
                        d.params.src_pos = src_pos;
                        return n > 0;
                    }
                    lookahead_size = d.dict.lookahead_size;
                    lookahead_pos = d.dict.lookahead_pos;
                }
            }
        }
        while lookahead_size != 0
            invariant
                d.wf(),
                fast_path(d.params.flags),
                callback.out.ready(d.params.out_buf_ofs, d.params.handed@),
                callback.out.out_len() == old(callback).out.out_len(),
                callback.out.can_refuse() == old(callback).out.can_refuse(),
                d.flush_written == old(d).flush_written || d.flush_written@ == Some(TDEFLFlush::NoFlush),
                callback.in_buf == old(callback).in_buf,
                callback.in_buf == Some(in_buf),
                in_len == in_buf@.len(),
                p0 == old(d).params,
                h0 == old(d).hist@,
                same_stream_params(&p0, &d.params),
                d.params.saved_match_len == p0.saved_match_len,
                d.params.saved_match_dist == p0.saved_match_dist,
                p0.saved_match_len == 0,
                d.params.prev_return_status == p0.prev_return_status,
                d.params.flush_remaining == 0,
                p0.src_pos <= src_pos <= in_len,
                lookahead_size <= 4096,
                cur_pos == lookahead_pos & 32767,
                d.window_ok(lookahead_size, lookahead_pos),
                d.block_ok(d.hist@.len() - lookahead_size),
                d.hist@ == h0 + in_buf@.subrange(p0.src_pos as int, src_pos as int),
            decreases lookahead_size,
        {
            let ghost pos = d.hist@.len() - lookahead_size;
            proof {
                lemma_mask15(lookahead_pos);
                lemma_cur_slot(lookahead_pos, pos);
                lemma_window_read(d.dict.b.dict@, d.hist@, lookahead_size + d.dict.size, pos, 0);
            }
            let lit = d.dict.b.dict[cur_pos as usize];
            rec_literal(d, lit, Ghost(pos));
            let ghost dc = *d;
            let ghost lpa = lookahead_pos;
            lookahead_pos = lookahead_pos.wrapping_add(1);
            let grown = d.dict.size + 1;
            d.dict.size = if grown < 32768 { grown } else { 32768 };
            let t = cur_pos + 1;
            cur_pos = t & 32767;
            proof {
                let lp0 = (lookahead_pos.wrapping_sub(1));
                assert(lookahead_pos == lp0.wrapping_add(1));
                assert((lp0 & 32767) + 1 == t ==> (t & 32767) == (lp0.wrapping_add(1) & 32767)) by (bit_vector);
                lemma_advance(dc, *d, lookahead_size, lpa, 1);
            }
            lookahead_size -= 1;
            if d.lz.code_position > 65536 - 8 {
                d.dict.lookahead_size = lookahead_size;
                d.dict.lookahead_pos = lookahead_pos;
                let ghost bp = d.hist@.len() - lookahead_size;
                proof {
                    lemma_fast_not_raw(d.params.flags);
                }
                let n = flush_block(d, callback, TDEFLFlush::NoFlush, Ghost(bp));
                if n != 0 {
                    d.params.src_pos = src_pos;
                    return n > 0;
                }
                lookahead_size = d.dict.lookahead_size;
                lookahead_pos = d.dict.lookahead_pos;
            }
        }
    }
    d.params.src_pos = src_pos;
    d.dict.lookahead_size = lookahead_size;
    d.dict.lookahead_pos = lookahead_pos;
    true
}

/// The flush and status of the stream refuse a call: the last call failed, or a finished
/// stream is called without `Finish`.
pub open spec fn refused(prev_status: TDEFLStatus, prev_flush: TDEFLFlush, flush: TDEFLFlush) -> bool {
    prev_status != TDEFLStatus::Okay || (prev_flush == TDEFLFlush::Finish && flush != TDEFLFlush::Finish)
}

/// Compresses what the input of `callback` holds, as far as the output takes it, and
/// carries out `flush`. Returns the status, the input position and the output position.
#[verifier::rlimit(80)]
#[verifier::spinoff_prover]
fn compress_inner<S: FlushSink>(d: &mut CompressorOxide, callback: &mut CallbackOxide<S>, flush: TDEFLFlush) -> (r: (
    TDEFLStatus,
    usize,
    usize,
))
    requires
        old(d).inv(),
        old(callback).out.ready(0, Seq::empty()),
    ensures
        final(d).inv(),
        final(callback).in_buf == old(callback).in_buf,
        final(d).params.flags == old(d).params.flags,
        final(callback).out.out_len() == old(callback).out.out_len(),
        final(callback).out.can_refuse() == old(callback).out.can_refuse(),
        r.0 == TDEFLStatus::PutBufFailed ==> old(callback).out.can_refuse(),
        old(callback).in_buf is Some ==> final(d).hist@ == old(d).hist@ + old(callback).in_buf->0@.subrange(
            0,
            r.1 as int,
        ),
        (old(d).params.flush_remaining != 0 || old(d).params.finished) ==> final(d).params.adler32 == old(
            d,
        ).params.adler32,
        old(d).params.flags & (TDEFL_WRITE_ZLIB_HEADER | TDEFL_COMPUTE_ADLER32) == 0 ==> final(d).params.adler32
            == old(d).params.adler32,
        refused(old(d).params.prev_return_status, old(d).params.flush, flush) ==> *final(callback) == *old(
            callback,
        ),
        !refused(old(d).params.prev_return_status, old(d).params.flush, flush) && r.0 != TDEFLStatus::PutBufFailed
            && final(d).flush_written@ == Some(TDEFLFlush::Full) ==> final(d).spec_window_cleared(),
        r.0 == TDEFLStatus::PutBufFailed ==> r.2 == final(d).params.out_buf_ofs,
        old(callback).in_buf is None ==> final(d).hist == old(d).hist,
        refused(old(d).params.prev_return_status, old(d).params.flush, flush) ==> r == (
        TDEFLStatus::BadParam,
        0usize,
        0usize,
        ) && final(d).params.prev_return_status == TDEFLStatus::BadParam,
        !refused(old(d).params.prev_return_status, old(d).params.flush, flush) ==> {
            &&& r.0 == final(d).params.prev_return_status
            &&& r.0 != TDEFLStatus::BadParam
            &&& r.0 == TDEFLStatus::Done ==> final(d).params.finished && final(d).params.flush_remaining == 0
            &&& r.0 == TDEFLStatus::Okay ==> !(final(d).params.finished && final(d).params.flush_remaining == 0)
            &&& final(callback).out.ready(final(d).params.out_buf_ofs, final(d).params.handed@)
            &&& r.0 != TDEFLStatus::PutBufFailed ==> r.2 == final(callback).out.reported_ofs(
                final(d).params.out_buf_ofs,
            )
            &&& r.1 == final(d).params.src_pos
            &&& S::never_fails() ==> r.0 != TDEFLStatus::PutBufFailed
            &&& (old(callback).in_buf is Some ==> r.1 <= old(callback).in_buf->0@.len())
            &&& (old(callback).in_buf is None ==> r.1 == 0)
            &&& (old(d).params.flush_remaining == 0 && !old(d).params.finished && old(callback).in_buf is Some
                && r.0 != TDEFLStatus::PutBufFailed && final(d).params.flush_remaining == 0) ==> {
                &&& r.1 == old(callback).in_buf->0@.len()
                &&& flush != TDEFLFlush::NoFlush ==> final(d).items@.len() == 0 && final(d).block_start@
                    == final(d).hist@.len() && final(d).params.saved_bits_in == 0
                &&& flush == TDEFLFlush::Finish ==> r.0 == TDEFLStatus::Done
                &&& flush == TDEFLFlush::Full ==> final(d).spec_window_cleared()
                &&& flush != TDEFLFlush::NoFlush ==> final(d).flush_written@ == Some(flush)
            }
            &&& (old(d).params.flush_remaining == 0 && !old(d).params.finished && old(callback).in_buf is Some
                && old(d).params.flags & (TDEFL_WRITE_ZLIB_HEADER | TDEFL_COMPUTE_ADLER32) != 0
                && r.0 != TDEFLStatus::PutBufFailed) ==> final(d).params.adler32 == adler32_spec(
                old(d).params.adler32,
                old(callback).in_buf->0@.subrange(0, r.1 as int),
            )
        },
{
    d.params.out_buf_ofs = 0;
    d.params.handed = Ghost(Seq::empty());
    d.flush_written = Ghost(None);
    d.params.src_pos = 0;
    let prev_ok = d.params.prev_return_status == TDEFLStatus::Okay;
    let flush_finish_once = d.params.flush != TDEFLFlush::Finish || flush == TDEFLFlush::Finish;
    d.params.flush = flush;
    proof {
        if let Some(b) = callback.in_buf {
            assert(d.hist@ + b@.subrange(0, 0) =~= d.hist@);
        }
    }
    if !prev_ok || !flush_finish_once {
        d.params.prev_return_status = TDEFLStatus::BadParam;
        return (d.params.prev_return_status, 0, 0);
    }
    if d.params.flush_remaining != 0 || d.params.finished {
        let res = callback.out.flush_output_buffer(&mut d.params);
        d.params.prev_return_status = res.0;
        return res;
    }
    let one_probe = d.params.flags & 0xFFF == 1;
    let greedy = d.params.flags & TDEFL_GREEDY_PARSING_FLAG != 0;
    let filter_or_rle_or_raw = d.params.flags & (TDEFL_FILTER_MATCHES | TDEFL_FORCE_ALL_RAW_BLOCKS
        | TDEFL_RLE_MATCHES) != 0;
    proof {
        let f = d.params.flags;
        assert((f & 0xFFF == 1 && f & 0x4000 != 0 && f & (0x2_0000u32 | 0x8_0000u32 | 0x1_0000u32) == 0) == (f & 0xFFF
            == 1 && f & 0x4000 != 0 && f & 0xB_0000u32 == 0) && (f & 0xB_0000u32 == 0 ==> f & 0x8_0000u32 == 0))
            by (bit_vector);
    }
    let compress_success = if one_probe && greedy && !filter_or_rle_or_raw {
        compress_fast(d, callback)
    } else {
        compress_normal(d, callback)
    };
    if !compress_success {
        return (d.params.prev_return_status, d.params.src_pos, d.params.out_buf_ofs);
    }
    if let Some(in_buf) = callback.in_buf {
        if d.params.flags & (TDEFL_WRITE_ZLIB_HEADER | TDEFL_COMPUTE_ADLER32) != 0 {
            d.params.adler32 = update_adler32(d.params.adler32, slice_subrange(in_buf, 0, d.params.src_pos));
        }
    }
    let flush_none = d.params.flush == TDEFLFlush::NoFlush;
    let in_len = match callback.in_buf {
        Some(buf) => buf.len(),
        None => 0,
    };
    let in_left = in_len - d.params.src_pos;
    let remaining = in_left != 0 || d.params.flush_remaining != 0;
    if !flush_none && d.dict.lookahead_size == 0 && !remaining {
        let flush = d.params.flush;
        let ghost bp = d.hist@.len() as int;
        let x = flush_block(d, callback, flush, Ghost(bp));
        if x < 0 {
            return (d.params.prev_return_status, d.params.src_pos, d.params.out_buf_ofs);
        }
        d.params.finished = d.params.flush == TDEFLFlush::Finish;
        if d.params.flush == TDEFLFlush::Full {
            memset_range(&mut d.dict.b.hash, 0, 32768, 0u16);
            memset_range(&mut d.dict.b.next, 0, 32768, 0u16);
            d.dict.size = 0;
            assert(window_holds(d.dict.b.dict@, d.hist@, 0));
        }
    }
    let res = callback.out.flush_output_buffer(&mut d.params);
    d.params.prev_return_status = res.0;
    res
}

/// Compresses `in_buf` into `out_buf` and carries out `flush`. Returns the status, how
/// much of the input was taken and how much of the output was written; output that did
/// not fit is handed out by the next calls.
#[verifier::rlimit(40)]
pub fn compress(d: &mut CompressorOxide, in_buf: &[u8], out_buf: &mut [u8], flush: TDEFLFlush) -> (r: (
    TDEFLStatus,
    usize,
    usize,
))
    requires
        old(d).inv(),
    ensures
        final(d).inv(),
        final(d).spec_flags() == old(d).spec_flags(),
        final(d).spec_prev_return_status() == r.0,
        final(d).spec_hist() == old(d).spec_hist() + in_buf@.subrange(0, r.1 as int),
        refused(old(d).spec_prev_return_status(), old(d).spec_flush(), flush) <==> r.0 == TDEFLStatus::BadParam,
        r.0 == TDEFLStatus::BadParam ==> r.1 == 0 && r.2 == 0,
        r.0 != TDEFLStatus::PutBufFailed,
        r.1 <= in_buf@.len(),
        r.0 == TDEFLStatus::BadParam ==> final(out_buf)@ == old(out_buf)@,
        final(out_buf)@.len() == old(out_buf)@.len(),
        r.0 != TDEFLStatus::BadParam ==> final(out_buf)@.take(r.2 as int) == final(d).spec_handed()
            && final(out_buf)@.skip(r.2 as int) == old(out_buf)@.skip(r.2 as int)
            && r.2 == final(d).spec_handed().len(),
        r.2 <= old(out_buf)@.len(),
        r.0 == TDEFLStatus::Done ==> final(d).spec_finished() && final(d).spec_flush_remaining() == 0,
        r.0 == TDEFLStatus::Okay ==> !(final(d).spec_finished() && final(d).spec_flush_remaining() == 0),
        (old(d).spec_flush_remaining() == 0 && !old(d).spec_finished() && r.0 != TDEFLStatus::BadParam
            && final(d).spec_flush_remaining() == 0) ==> {
            &&& r.1 == in_buf@.len()
            &&& flush != TDEFLFlush::NoFlush ==> final(d).spec_items().len() == 0 && final(d).spec_block_start()
                == final(d).spec_hist().len() && final(d).spec_pending_bits() == 0
            &&& flush == TDEFLFlush::Finish ==> r.0 == TDEFLStatus::Done
            &&& flush == TDEFLFlush::Full ==> final(d).spec_window_cleared()
            &&& flush != TDEFLFlush::NoFlush ==> final(d).spec_flush_written() == Some(flush)
        },
        r.0 != TDEFLStatus::BadParam && r.0 != TDEFLStatus::PutBufFailed && final(d).spec_flush_written() == Some(
            TDEFLFlush::Full,
        ) ==> final(d).spec_window_cleared(),
        (old(d).spec_flush_remaining() != 0 || old(d).spec_finished()) ==> final(d).spec_adler32() == old(
            d,
        ).spec_adler32(),
        old(d).spec_flags() & (TDEFL_WRITE_ZLIB_HEADER | TDEFL_COMPUTE_ADLER32) == 0 ==> final(d).spec_adler32()
            == old(d).spec_adler32(),
        (old(d).spec_flush_remaining() == 0 && !old(d).spec_finished() && r.0 != TDEFLStatus::BadParam
            && old(d).spec_flags() & (TDEFL_WRITE_ZLIB_HEADER | TDEFL_COMPUTE_ADLER32) != 0)
            ==> final(d).spec_adler32() == adler32_spec(old(d).spec_adler32(), in_buf@.subrange(0, r.1 as int)),
{
    let mut cb = CallbackOxide::new_callback_buf(in_buf, out_buf.len());
    let r = compress_inner(d, &mut cb, flush);
    let written = &cb.out.written;
    let ghost ob0 = out_buf@;
    let mut k: usize = 0;
    while k < written.len()
        invariant
            k <= written@.len() <= out_buf@.len(),
            out_buf@.len() == ob0.len(),
            forall|m: int| 0 <= m < k ==> #[trigger] out_buf@[m] == written@[m],
            forall|m: int| k <= m < ob0.len() ==> #[trigger] out_buf@[m] == ob0[m],
        decreases written@.len() - k,
    {
        out_buf[k] = written[k];
        k += 1;
    }
    proof {
        assert(out_buf@.take(written@.len() as int) =~= written@);
        assert(out_buf@.skip(written@.len() as int) =~= ob0.skip(written@.len() as int));
    }
    r
}

/// Compresses `in_buf`, handing each block of output to `callback_func`, and carries out
/// `flush`. Returns the status and how much of the input was taken.
#[verifier::rlimit(40)]
pub fn compress_to_output<F: Fn(&[u8]) -> bool>(
    d: &mut CompressorOxide,
    in_buf: &[u8],
    callback_func: CallbackFunc<F>,
    flush: TDEFLFlush,
) -> (r: (TDEFLStatus, usize))
    requires
        old(d).inv(),
        forall|s: &[u8]| #[trigger] callback_func.put_buf_func.requires((s,)),
    ensures
        final(d).inv(),
        final(d).spec_flags() == old(d).spec_flags(),
        final(d).spec_prev_return_status() == r.0,
        final(d).spec_hist() == old(d).spec_hist() + in_buf@.subrange(0, r.1 as int),
        refused(old(d).spec_prev_return_status(), old(d).spec_flush(), flush) <==> r.0 == TDEFLStatus::BadParam,
        r.0 == TDEFLStatus::BadParam ==> r.1 == 0,
        r.1 <= in_buf@.len(),
        r.0 == TDEFLStatus::PutBufFailed ==> exists|s: &[u8]| #[trigger] call_ensures(callback_func.put_buf_func, (s,), false),
        r.0 == TDEFLStatus::Done ==> final(d).spec_finished() && final(d).spec_flush_remaining() == 0,
        r.0 == TDEFLStatus::Okay ==> !(final(d).spec_finished() && final(d).spec_flush_remaining() == 0),
        (old(d).spec_flush_remaining() == 0 && !old(d).spec_finished() && r.0 != TDEFLStatus::BadParam
            && r.0 != TDEFLStatus::PutBufFailed && final(d).spec_flush_remaining() == 0) ==> {
            &&& r.1 == in_buf@.len()
            &&& flush != TDEFLFlush::NoFlush ==> final(d).spec_items().len() == 0 && final(d).spec_block_start()
                == final(d).spec_hist().len() && final(d).spec_pending_bits() == 0
            &&& flush == TDEFLFlush::Finish ==> r.0 == TDEFLStatus::Done
            &&& flush == TDEFLFlush::Full ==> final(d).spec_window_cleared()
            &&& flush != TDEFLFlush::NoFlush ==> final(d).spec_flush_written() == Some(flush)
        },
        r.0 != TDEFLStatus::BadParam && r.0 != TDEFLStatus::PutBufFailed && final(d).spec_flush_written() == Some(
            TDEFLFlush::Full,
        ) ==> final(d).spec_window_cleared(),
        (old(d).spec_flush_remaining() != 0 || old(d).spec_finished()) ==> final(d).spec_adler32() == old(
            d,
        ).spec_adler32(),
        old(d).spec_flags() & (TDEFL_WRITE_ZLIB_HEADER | TDEFL_COMPUTE_ADLER32) == 0 ==> final(d).spec_adler32()
            == old(d).spec_adler32(),
        (old(d).spec_flush_remaining() == 0 && !old(d).spec_finished() && r.0 != TDEFLStatus::BadParam
            && r.0 != TDEFLStatus::PutBufFailed && old(d).spec_flags() & (TDEFL_WRITE_ZLIB_HEADER
            | TDEFL_COMPUTE_ADLER32) != 0) ==> final(d).spec_adler32() == adler32_spec(
            old(d).spec_adler32(),
            in_buf@.subrange(0, r.1 as int),
        ),
{
    let mut cb = CallbackOxide::new_callback_func(in_buf, callback_func);
    let res = compress_inner(d, &mut cb, flush);
    (res.0, res.1)
}

/// The codes of the current block, decoded after the input before the block, give back
/// the input from the block's start to where the block has got; what follows is at most
/// the lookahead and a pending literal.
#[verifier::rlimit(40)]
#[verifier::spinoff_prover]
pub proof fn lemma_block_decodes(d: &CompressorOxide)
    requires
        d.inv(),
    ensures
        0 <= d.spec_block_start(),
        d.spec_block_start() + lz_total(d.spec_items()) <= d.spec_hist().len(),
        d.spec_hist().len() - (d.spec_block_start() + lz_total(d.spec_items())) <= 4097,
        lz_decode(d.spec_hist().take(d.spec_block_start()), d.spec_items()) == d.spec_hist().take(
            d.spec_block_start() + lz_total(d.spec_items()),
        ),
{
    let la = d.dict.lookahead_size;
    let pos = d.hist@.len() - la;
    let pending = if d.params.saved_match_len != 0 { 1int } else { 0int };
    assert(d.lz_ok());
    assert(d.window_ok(la, d.dict.lookahead_pos));
    assert(d.block_ok(pos - pending));
    assert(d.state_ok());
    lemma_lz_decode(d.hist@, d.block_start@, d.items@);
}

/// Once the stream is finished, every byte of input taken has gone into a block: no
/// lookahead and no codes are left over.
pub proof fn lemma_finished_all_coded(d: &CompressorOxide)
    requires
        d.inv(),
        d.spec_finished(),
    ensures
        d.spec_items().len() == 0,
        d.spec_block_start() == d.spec_hist().len(),
{
}

/// The codes of the current block obey the rules that limit matches: no match at all where
/// raw blocks are forced or where the flags allow no probes and no runs (Huffman coding
/// only), none shorter than six bytes where short matches are filtered out, all at distance
/// 1 where only runs are matched, and never a three-byte match at a distance of 8192 or
/// more.
pub proof fn lemma_matches_obey_flags(d: &CompressorOxide)
    requires
        d.inv(),
    ensures
        forall|k: int| 0 <= k < d.spec_items().len() ==> match_obeys(d.spec_flags(), #[trigger] d.spec_items()[k]),
{
    let la = d.dict.lookahead_size;
    let pos = d.hist@.len() - la;
    let pending = if d.params.saved_match_len != 0 { 1int } else { 0int };
    assert(d.lz_ok());
    assert(d.block_ok(pos - pending));
    reveal(items_obey);
}

/// With greedy parsing no lazy match is ever left pending between calls: every match found
/// is recorded where it was found.
pub proof fn lemma_greedy_leaves_no_pending(d: &CompressorOxide)
    requires
        d.inv(),
    ensures
        d.spec_flags() & TDEFL_GREEDY_PARSING_FLAG != 0 ==> !d.spec_match_pending(),
{
}

} // verus!
