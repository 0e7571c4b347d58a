//! Bit-level output: a byte buffer with a small accumulator of pending bits.
//!
//! Deflate writes its data least significant bit first. The abstract view of an
//! output buffer is the sequence of bits written so far: the bits of every
//! complete byte, followed by the bits still pending in the accumulator.

use vstd::prelude::*;
use vstd::arithmetic::power2::*;
use vstd::arithmetic::div_mod::*;
use vstd::arithmetic::mul::*;
use vstd::bits::*;

verus! {

/// The `n` low bits of `v`, least significant first.
pub open spec fn bits_of(v: nat, n: nat) -> Seq<bool>
    decreases n,
{
    if n == 0 {
        Seq::empty()
    } else {
        seq![v % 2 == 1] + bits_of(v / 2, (n - 1) as nat)
    }
}

/// The bits of a byte sequence, each byte least significant bit first.
pub open spec fn bytes_bits(s: Seq<u8>) -> Seq<bool>
    decreases s.len(),
{
    if s.len() == 0 {
        Seq::empty()
    } else {
        bytes_bits(s.drop_last()) + bits_of(s.last() as nat, 8)
    }
}

/// `n` zero bits.
pub open spec fn zero_bits(n: nat) -> Seq<bool> {
    Seq::new(n, |i: int| false)
}

pub proof fn lemma_bits_of_len(v: nat, n: nat)
    ensures
        #[trigger] bits_of(v, n).len() == n,
    decreases n,
{
    if n > 0 {
        lemma_bits_of_len(v / 2, (n - 1) as nat);
    }
}

pub proof fn lemma_bytes_bits_len(s: Seq<u8>)
    ensures
        #[trigger] bytes_bits(s).len() == 8 * s.len(),
    decreases s.len(),
{
    if s.len() > 0 {
        lemma_bytes_bits_len(s.drop_last());
        lemma_bits_of_len(s.last() as nat, 8);
    }
}

pub proof fn lemma_bytes_bits_push(s: Seq<u8>, b: u8)
    ensures
        bytes_bits(s.push(b)) == bytes_bits(s) + bits_of(b as nat, 8),
{
    assert(s.push(b).drop_last() =~= s);
}

/// Splitting the low `a + b` bits of `v` into the low `a` and the next `b`.
pub proof fn lemma_bits_of_split(v: nat, a: nat, b: nat)
    ensures
        bits_of(v, a + b) == bits_of(v, a) + bits_of(v / pow2(a), b),
    decreases a,
{
    if a == 0 {
        lemma2_to64();
        assert(bits_of(v, a) + bits_of(v / pow2(a), b) =~= bits_of(v, b));
    } else {
        lemma_bits_of_split(v / 2, (a - 1) as nat, b);
        lemma_pow2_unfold(a);
        lemma_pow2_pos((a - 1) as nat);
        lemma_div_denominator(v as int, 2, pow2((a - 1) as nat) as int);
        assert((a + b - 1) as nat == (a - 1) as nat + b);
        assert(bits_of(v, a + b) =~= bits_of(v, a) + bits_of(v / pow2(a), b));
    }
}

/// Only the low `n` bits of `v` matter.
pub proof fn lemma_bits_of_mod(v: nat, n: nat)
    ensures
        bits_of(v, n) == bits_of(v % pow2(n), n),
    decreases n,
{
    lemma_pow2_pos(n);
    if n > 0 {
        let p = pow2((n - 1) as nat);
        lemma_pow2_unfold(n);
        lemma_pow2_pos((n - 1) as nat);
        lemma_mod_breakdown(v as int, 2, p as int);
        let m = v % pow2(n);
        assert(m == 2 * ((v / 2) % p) + v % 2);
        lemma_mod_pos_bound((v / 2) as int, p as int);
        lemma_fundamental_div_mod_converse(m as int, 2, ((v / 2) % p) as int, (v % 2) as int);
        lemma_bits_of_mod(v / 2, (n - 1) as nat);
        lemma_small_mod(((v / 2) % p) as nat, p as nat);
    }
}

/// Bits of a sum whose low part fits in `k` bits.
pub proof fn lemma_bits_of_concat(lo: nat, hi: nat, k: nat, len: nat)
    requires
        lo < pow2(k),
    ensures
        bits_of(lo + hi * pow2(k), k + len) == bits_of(lo, k) + bits_of(hi, len),
{
    let v = lo + hi * pow2(k);
    lemma_pow2_pos(k);
    lemma_bits_of_split(v, k, len);
    lemma_fundamental_div_mod_converse(v as int, pow2(k) as int, hi as int, lo as int);
    lemma_bits_of_mod(v, k);
    lemma_bits_of_mod(lo, k);
    lemma_small_mod(lo, pow2(k));
}

/// Zero contributes only zero bits.
pub proof fn lemma_bits_of_zero(n: nat)
    ensures
        bits_of(0, n) == zero_bits(n),
    decreases n,
{
    if n > 0 {
        lemma_bits_of_zero((n - 1) as nat);
        assert(bits_of(0, n) =~= zero_bits(n));
    }
}

/// `a | (b << k)` adds `b * 2^k` when `a` fits in `k` bits.
pub proof fn lemma_or_shl_u32(a: u32, b: u32, k: u32)
    requires
        k < 32,
        a < pow2(k as nat),
        b * pow2(k as nat) <= u32::MAX,
    ensures
        a | (b << k) == a + b * pow2(k as nat),
{
    lemma_u32_pow2_no_overflow(k as nat);
    lemma_u32_shl_is_mul(b, k);
    lemma_u32_shl_is_mul(1, k);
    assert(a < (1u32 << k) ==> a | (b << k) == a + (b << k)) by (bit_vector)
        requires
            k < 32,
            b << k == b * (1u32 << k),
    ;
}

pub proof fn lemma_or_shl_u64(a: u64, b: u64, k: u64)
    requires
        k < 64,
        a < pow2(k as nat),
        b * pow2(k as nat) <= u64::MAX,
    ensures
        a | (b << k) == a + b * pow2(k as nat),
{
    lemma_u64_pow2_no_overflow(k as nat);
    lemma_u64_shl_is_mul(b, k);
    lemma_u64_shl_is_mul(1, k);
    assert(a < (1u64 << k) ==> a | (b << k) == a + (b << k)) by (bit_vector)
        requires
            k < 64,
            b << k == b * (1u64 << k),
    ;
}

/// Emitting the low byte of a bit accumulator keeps the bit view.
pub proof fn lemma_emit_byte(s: Seq<u8>, x: nat, c: nat)
    requires
        c >= 8,
    ensures
        bytes_bits(s.push((x % 256) as u8)) + bits_of(x / 256, (c - 8) as nat) == bytes_bits(s)
            + bits_of(x, c),
{
    lemma_pow2_unfold(8);
    lemma2_to64();
    lemma_bits_of_split(x, 8, (c - 8) as nat);
    lemma_bits_of_mod(x, 8);
    lemma_bytes_bits_push(s, (x % 256) as u8);
    assert(8 + (c - 8) as nat == c);
    assert(bytes_bits(s) + bits_of(x, 8) + bits_of(x / 256, (c - 8) as nat) =~= bytes_bits(s)
        + (bits_of(x, 8) + bits_of(x / 256, (c - 8) as nat)));
}

/// Masking with `0x7FFF` keeps the value modulo 32768.
pub proof fn lemma_mask15_usize(x: usize)
    by (bit_vector)
    ensures
        x & 32767usize <= 32767usize,
        x & 32767usize == x % 32768,
{
}

/// Masking with `0x7FFF` keeps the value modulo 32768.
pub proof fn lemma_mask15(x: u32)
    by (bit_vector)
    ensures
        x & 32767u32 <= 32767u32,
        x & 32767u32 == x % 32768,
{
}

/// Adding with wraparound and then masking with `0x7FFF` is adding modulo 32768.
pub proof fn lemma_wrap_mask15(x: u32, y: u32)
    by (bit_vector)
    ensures
        x.wrapping_add(y) & 32767u32 == (((x & 32767u32) + (y & 32767u32)) as u32) & 32767u32,
        x.wrapping_sub(y) & 32767u32 == ((((x & 32767u32) + 32768u32) - (y & 32767u32)) as u32) & 32767u32,
{
}

/// A bit writer over a growing byte buffer.
pub struct OutputBufferOxide {
    pub inner: Vec<u8>,
    pub local: bool,
    pub bit_buffer: u32,
    pub bits_in: u32,
}

/// A snapshot of an output buffer's position and pending bits.
#[derive(Copy, Clone)]
pub struct SavedOutputBufferOxide {
    pub pos: u64,
    pub bit_buffer: u32,
    pub bits_in: u32,
    pub local: bool,
}

impl OutputBufferOxide {
    /// Fewer than 8 pending bits, and nothing set above them.
    pub open spec fn wf(&self) -> bool {
        &&& self.bits_in < 8
        &&& self.bit_buffer < pow2(self.bits_in as nat)
    }

    /// All bits written so far.
    pub open spec fn stream(&self) -> Seq<bool> {
        bytes_bits(self.inner@) + bits_of(self.bit_buffer as nat, self.bits_in as nat)
    }

    /// A well-formed writer whose bytes begin with `i0` and whose bits begin with `s0`.
    pub open spec fn extends(&self, i0: Seq<u8>, s0: Seq<bool>) -> bool {
        &&& self.wf()
        &&& self.inner@.len() >= i0.len()
        &&& self.inner@.subrange(0, i0.len() as int) == i0
        &&& self.stream().len() >= s0.len()
        &&& self.stream().subrange(0, s0.len() as int) == s0
    }

    /// An empty writer.
    pub fn new(local: bool) -> (r: Self)
        ensures
            r.wf(),
            r.inner@.len() == 0,
            r.stream().len() == 0,
            r.local == local,
    {
        proof {
            lemma_pow2_pos(0);
            assert(bytes_bits(Seq::<u8>::empty()) =~= Seq::<bool>::empty());
        }
        OutputBufferOxide { inner: Vec::new(), local, bit_buffer: 0, bits_in: 0 }
    }

    /// Appends the `len` low bits of `bits`.
    pub fn put_bits(&mut self, bits: u32, len: u32)
        requires
            old(self).wf(),
            len <= 24,
            bits < pow2(len as nat),
        ensures
            final(self).wf(),
            final(self).stream() == old(self).stream() + bits_of(bits as nat, len as nat),
            final(self).local == old(self).local,
            final(self).bits_in == (old(self).bits_in + len) % 8,
            final(self).inner@.len() == old(self).inner@.len() + (old(self).bits_in + len) / 8,
            final(self).inner@.subrange(0, old(self).inner@.len() as int) == old(self).inner@,
            forall|i0: Seq<u8>, s0: Seq<bool>|
                old(self).extends(i0, s0) ==> #[trigger] final(self).extends(i0, s0),
    {
        let ghost old_stream = self.stream();
        let ghost old_inner = self.inner@;
        proof {
            lemma_pow2_adds(len as nat, self.bits_in as nat);
            lemma_pow2_strictly_increases((len + self.bits_in) as nat, 32);
            lemma_mul_inequality(bits as int, (pow2(len as nat) - 1) as int, pow2(self.bits_in as nat) as int);
            lemma_mul_is_distributive_sub_other_way(pow2(self.bits_in as nat) as int, pow2(len as nat) as int, 1);
            lemma_mul_is_commutative(pow2(self.bits_in as nat) as int, pow2(len as nat) as int);
            lemma_pow2_unfold(32);
            lemma2_to64();
            lemma_or_shl_u32(self.bit_buffer, bits, self.bits_in);
            lemma_bits_of_concat(self.bit_buffer as nat, bits as nat, self.bits_in as nat, len as nat);
        }
        self.bit_buffer = self.bit_buffer | (bits << self.bits_in);
        self.bits_in = self.bits_in + len;
        proof {
            assert(self.stream() =~= old_stream + bits_of(bits as nat, len as nat));
        }
        while self.bits_in >= 8
            invariant
                self.bits_in < 32,
                self.bit_buffer < pow2(self.bits_in as nat),
                self.stream() == old_stream + bits_of(bits as nat, len as nat),
                self.local == old(self).local,
                self.inner@.len() >= old_inner.len(),
                self.bits_in % 8 == (old(self).bits_in + len) % 8,
                self.inner@.len() * 8 + self.bits_in == old_inner.len() * 8 + old(self).bits_in + len,
                self.inner@.subrange(0, old_inner.len() as int) == old_inner,
            decreases self.bits_in,
        {
            let ghost s0 = self.inner@;
            let ghost x = self.bit_buffer as nat;
            let ghost c = self.bits_in as nat;
            proof {
                lemma_emit_byte(s0, x, c);
                lemma_u32_shr_is_div(self.bit_buffer, 8);
                lemma_pow2_unfold(8);
                lemma2_to64();
                let bb = self.bit_buffer;
                assert((bb as u8) == bb % 256) by (bit_vector);
                lemma_pow2_subtracts(8, c);
                lemma_pow2_pos(8);
                lemma_div_by_multiple_is_strongly_ordered_helper(x, c);
            }
            self.inner.push(self.bit_buffer as u8);
            self.bit_buffer = self.bit_buffer >> 8;
            self.bits_in = self.bits_in - 8;
            proof {
                assert(self.inner@.subrange(0, old_inner.len() as int) =~= s0.subrange(
                    0,
                    old_inner.len() as int,
                ));
            }
        }
        proof {
            assert forall|i0: Seq<u8>, s0: Seq<bool>|
                old(self).extends(i0, s0) implies #[trigger] self.extends(i0, s0) by {
                assert(self.inner@.subrange(0, i0.len() as int) =~= self.inner@.subrange(
                    0,
                    old_inner.len() as int,
                ).subrange(0, i0.len() as int));
                assert(self.stream().subrange(0, s0.len() as int) =~= old_stream.subrange(
                    0,
                    s0.len() as int,
                ));
            }
        }
    }

    /// A snapshot of the current position and pending bits.
    pub fn save(&self) -> (r: SavedOutputBufferOxide)
        ensures
            r.pos == self.inner@.len(),
            r.bit_buffer == self.bit_buffer,
            r.bits_in == self.bits_in,
            r.local == self.local,
    {
        SavedOutputBufferOxide {
            pos: self.inner.len() as u64,
            bit_buffer: self.bit_buffer,
            bits_in: self.bits_in,
            local: self.local,
        }
    }

    /// Returns to an earlier snapshot of this writer.
    pub fn load(&mut self, saved: SavedOutputBufferOxide)
        requires
            saved.pos <= old(self).inner@.len(),
        ensures
            final(self).inner@ == old(self).inner@.subrange(0, saved.pos as int),
            final(self).bit_buffer == saved.bit_buffer,
            final(self).bits_in == saved.bits_in,
            final(self).local == saved.local,
    {
        self.inner.truncate(saved.pos as usize);
        self.bit_buffer = saved.bit_buffer;
        self.bits_in = saved.bits_in;
        self.local = saved.local;
    }

    /// Pads with zero bits up to the next byte boundary.
    pub fn pad_to_bytes(&mut self)
        requires
            old(self).wf(),
        ensures
            final(self).wf(),
            final(self).bits_in == 0,
            final(self).stream() == old(self).stream() + zero_bits(
                ((8 - old(self).bits_in) % 8) as nat,
            ),
            final(self).stream().len() % 8 == 0,
            final(self).local == old(self).local,
            final(self).inner@.len() >= old(self).inner@.len(),
            final(self).inner@.subrange(0, old(self).inner@.len() as int) == old(self).inner@,
            final(self).inner@.len() <= old(self).inner@.len() + 1,
            forall|i0: Seq<u8>, s0: Seq<bool>|
                old(self).extends(i0, s0) ==> #[trigger] final(self).extends(i0, s0),
    {
        if self.bits_in != 0 {
            let len = 8 - self.bits_in;
            proof {
                lemma_pow2_pos(len as nat);
                lemma_bits_of_zero(len as nat);
            }
            self.put_bits(0, len);
        } else {
            proof {
                assert(zero_bits(0) =~= Seq::<bool>::empty());
                assert(self.stream() + zero_bits(0) =~= self.stream());
            }
        }
        proof {
            lemma_bytes_bits_len(self.inner@);
            lemma_bits_of_len(self.bit_buffer as nat, self.bits_in as nat);
        }
    }
}

/// A 64-bit accumulator used while encoding a block.
pub struct BitBuffer {
    pub bit_buffer: u64,
    pub bits_in: u32,
}

impl BitBuffer {
    pub open spec fn wf(&self) -> bool {
        &&& self.bits_in <= 64
        &&& self.bit_buffer < pow2(self.bits_in as nat)
    }

    /// The pending bits.
    pub open spec fn stream(&self) -> Seq<bool> {
        bits_of(self.bit_buffer as nat, self.bits_in as nat)
    }

    /// Appends the `len` low bits of `bits`.
    pub fn put_fast(&mut self, bits: u64, len: u32)
        requires
            old(self).wf(),
            old(self).bits_in + len <= 64,
            bits < pow2(len as nat),
        ensures
            final(self).wf(),
            final(self).bits_in == old(self).bits_in + len,
            final(self).stream() == old(self).stream() + bits_of(bits as nat, len as nat),
    {
        proof {
            lemma_pow2_adds(len as nat, self.bits_in as nat);
            lemma_mul_inequality(bits as int, (pow2(len as nat) - 1) as int, pow2(self.bits_in as nat) as int);
            lemma_mul_is_distributive_sub_other_way(pow2(self.bits_in as nat) as int, pow2(len as nat) as int, 1);
            lemma_mul_is_commutative(pow2(self.bits_in as nat) as int, pow2(len as nat) as int);
            lemma_pow2_unfold(64);
            lemma2_to64();
            if self.bits_in + len < 64 {
                lemma_pow2_strictly_increases((len + self.bits_in) as nat, 64);
            }
            lemma_bits_of_concat(self.bit_buffer as nat, bits as nat, self.bits_in as nat, len as nat);
        }
        if self.bits_in < 64 {
            proof {
                lemma_or_shl_u64(self.bit_buffer, bits, self.bits_in as u64);
            }
            self.bit_buffer = self.bit_buffer | (bits << self.bits_in);
        } else {
            proof {
                lemma_pow2_pos(0);
                assert(bits == 0);
                assert(self.bit_buffer + 0 * pow2(64) == self.bit_buffer);
            }
        }
        self.bits_in = self.bits_in + len;
    }

    /// Moves all complete bytes into `output`.
    pub fn flush(&mut self, output: &mut OutputBufferOxide)
        requires
            old(self).wf(),
        ensures
            final(self).wf(),
            final(self).bits_in == old(self).bits_in % 8,
            bytes_bits(final(output).inner@) + final(self).stream() == bytes_bits(old(output).inner@)
                + old(self).stream(),
            final(output).bit_buffer == old(output).bit_buffer,
            final(output).bits_in == old(output).bits_in,
            final(output).local == old(output).local,
            final(output).inner@.len() == old(output).inner@.len() + old(self).bits_in / 8,
            final(output).inner@.subrange(0, old(output).inner@.len() as int) == old(
                output,
            ).inner@,
    {
        let ghost old_inner = output.inner@;
        while self.bits_in >= 8
            invariant
                self.wf(),
                self.bits_in % 8 == old(self).bits_in % 8,
                bytes_bits(output.inner@) + self.stream() == bytes_bits(old_inner) + old(
                    self,
                ).stream(),
                output.bit_buffer == old(output).bit_buffer,
                output.bits_in == old(output).bits_in,
                output.local == old(output).local,
                output.inner@.len() + self.bits_in / 8 == old_inner.len() + old(self).bits_in / 8,
                output.inner@.len() >= old_inner.len(),
                output.inner@.subrange(0, old_inner.len() as int) == old_inner,
            decreases self.bits_in,
        {
            let ghost s0 = output.inner@;
            let ghost x = self.bit_buffer as nat;
            let ghost c = self.bits_in as nat;
            proof {
                lemma_emit_byte(s0, x, c);
                lemma_u64_shr_is_div(self.bit_buffer, 8);
                lemma_pow2_unfold(8);
                lemma2_to64();
                let bb = self.bit_buffer;
                assert((bb as u8) == bb % 256) by (bit_vector);
                lemma_div_by_multiple_is_strongly_ordered_helper(x, c);
            }
            output.inner.push(self.bit_buffer as u8);
            self.bit_buffer = self.bit_buffer >> 8;
            self.bits_in = self.bits_in - 8;
            proof {
                assert(output.inner@.subrange(0, old_inner.len() as int) =~= s0.subrange(
                    0,
                    old_inner.len() as int,
                ));
            }
        }
    }
}

/// If `x < 2^c` with `c >= 8` then `x / 256 < 2^(c - 8)`.
pub proof fn lemma_div_by_multiple_is_strongly_ordered_helper(x: nat, c: nat)
    requires
        c >= 8,
        x < pow2(c),
    ensures
        x / 256 < pow2((c - 8) as nat),
{
    lemma_pow2_adds(8, (c - 8) as nat);
    lemma_pow2_unfold(8);
    lemma2_to64();
    lemma_pow2_pos((c - 8) as nat);
    lemma_multiply_divide_lt(x as int, 256, pow2((c - 8) as nat) as int);
}

/// A position kept modulo 2^32 moves on with wrapping addition.
pub proof fn lemma_wrap_pos(a: u32, b: u32, x: int)
    requires
        0 <= x,
        a as int == x % 0x1_0000_0000,
    ensures
        a.wrapping_add(b) as int == (x + b) % 0x1_0000_0000,
{
    let m = 0x1_0000_0000int;
    vstd::arithmetic::div_mod::lemma_add_mod_noop(x, b as int, m);
    vstd::arithmetic::div_mod::lemma_small_mod(b as nat, m as nat);
    if a + b < m {
        vstd::arithmetic::div_mod::lemma_small_mod((a + b) as nat, m as nat);
    } else {
        vstd::arithmetic::div_mod::lemma_mod_sub_multiples_vanish(a + b, m);
        vstd::arithmetic::div_mod::lemma_small_mod((a + b - m) as nat, m as nat);
    }
}

/// Positions kept modulo 2^32 subtract with wrapping while they are less than 2^32 apart.
pub proof fn lemma_wrap_sub_pos(a: u32, b: u32, x: int, y: int)
    requires
        0 <= y <= x < y + 0x1_0000_0000,
        a as int == x % 0x1_0000_0000,
        b as int == y % 0x1_0000_0000,
    ensures
        a.wrapping_sub(b) as int == x - y,
{
    let m = 0x1_0000_0000int;
    vstd::arithmetic::div_mod::lemma_sub_mod_noop(x, y, m);
    vstd::arithmetic::div_mod::lemma_small_mod((x - y) as nat, m as nat);
    if a >= b {
        vstd::arithmetic::div_mod::lemma_small_mod((a - b) as nat, m as nat);
    } else {
        vstd::arithmetic::div_mod::lemma_mod_add_multiples_vanish(a - b, m);
        vstd::arithmetic::div_mod::lemma_small_mod((m + a - b) as nat, m as nat);
    }
}

} // verus!
