//! Block headers: the fixed Huffman codes, and the dynamic codes with their
//! run-length encoded code lengths.

use vstd::prelude::*;
use vstd::arithmetic::power2::*;
use crate::bits::{OutputBufferOxide, bits_of};
use crate::bytes::memset_range;
use crate::huffman::{HuffmanOxide, tix, canonical_table, lemma_canonical_table_ext};
use crate::prefix::{lengths_fit, lemma_lengths_fit_ext, lemma_fixed_fit};
use crate::tables::HUFFMAN_LENGTH_ORDER;

verus! {

/// The code length of literal/length symbol `i` in the fixed Huffman code.
pub open spec fn fixed_litlen_size(i: int) -> u8 {
    if i < 144 {
        8
    } else if i < 256 {
        9
    } else if i < 280 {
        7
    } else {
        8
    }
}


/// The code lengths of the fixed Huffman codes: literal/length symbols by
/// `fixed_litlen_size`, distance symbols five bits each.
pub open spec fn fixed_code_sizes(sizes: Seq<u8>) -> bool {
    &&& forall|i: int| 0 <= i < 288 ==> #[trigger] sizes[tix(0, i)] == fixed_litlen_size(i)
    &&& forall|i: int| 0 <= i < 32 ==> #[trigger] sizes[tix(1, i)] == 5
}

/// The limit on the extra value that follows run token `c` (16, 17 or 18).
pub open spec fn run_extra_limit(c: u8) -> u8 {
    if c == 16 {
        4
    } else if c == 17 {
        8
    } else {
        128
    }
}

/// `p` from position `i` on is a sequence of whole tokens of the code length alphabet:
/// a length `0..=15`, or a run symbol `16..=18` followed by its extra value.
pub open spec fn rle_ok(p: Seq<u8>, i: int) -> bool
    decreases p.len() - i,
{
    if i < 0 || i > p.len() {
        false
    } else if i == p.len() {
        true
    } else if p[i] < 16 {
        rle_ok(p, i + 1)
    } else if p[i] <= 18 && i + 1 < p.len() && p[i + 1] < run_extra_limit(p[i]) {
        rle_ok(p, i + 2)
    } else {
        false
    }
}

/// The bits of the first `k` lengths of the code length code, three bits each, in the
/// order in which the format sends them.
pub open spec fn cl_sizes_bits(sizes: Seq<u8>, k: int) -> Seq<bool>
    decreases k,
{
    if k <= 0 {
        Seq::empty()
    } else {
        cl_sizes_bits(sizes, k - 1) + bits_of(sizes[576 + HUFFMAN_LENGTH_ORDER@[k - 1]] as nat, 3)
    }
}

/// The number of extra bits after run symbol `c` (16, 17 or 18).
pub open spec fn run_extra_bits(c: u8) -> nat {
    if c == 16 {
        2
    } else if c == 17 {
        3
    } else {
        7
    }
}

/// The bits of the tokens of `p` from position `i` on: each symbol under the code length
/// code, and after a run symbol its extra value.
pub open spec fn tokens_bits(codes: Seq<u16>, sizes: Seq<u8>, p: Seq<u8>, i: int) -> Seq<bool>
    decreases p.len() - i,
{
    if i < 0 || i >= p.len() {
        Seq::empty()
    } else {
        let c = p[i];
        let sym = bits_of(codes[576 + c] as nat, sizes[576 + c] as nat);
        if c < 16 {
            sym + tokens_bits(codes, sizes, p, i + 1)
        } else if i + 1 < p.len() {
            sym + bits_of(p[i + 1] as nat, run_extra_bits(c)) + tokens_bits(codes, sizes, p, i + 2)
        } else {
            sym
        }
    }
}

/// `hdr` is the header of a dynamic block that sends `nlit` literal/length and `ndist`
/// distance code lengths and `nbl` lengths of the code length code: the block type `10`,
/// the three numbers, those lengths, then the tokens `packed`, which expand to the code
/// lengths sent. The lengths not sent are zero.
pub open spec fn dyn_header_with(
    hdr: Seq<bool>,
    codes: Seq<u16>,
    sizes: Seq<u8>,
    nlit: int,
    ndist: int,
    nbl: int,
    packed: Seq<u8>,
) -> bool {
    &&& 257 <= nlit <= 286
    &&& 1 <= ndist <= 30
    &&& 4 <= nbl <= 19
    &&& forall|i: int| nlit <= i < 286 ==> #[trigger] sizes[i] == 0
    &&& forall|i: int| ndist <= i < 30 ==> #[trigger] sizes[288 + i] == 0
    &&& forall|j: int| nbl <= j < 19 ==> sizes[576 + #[trigger] HUFFMAN_LENGTH_ORDER@[j]] == 0
    &&& nlit > 257 ==> sizes[nlit - 1] != 0
    &&& ndist > 1 ==> sizes[288 + ndist - 1] != 0
    &&& nbl > 4 ==> sizes[576 + HUFFMAN_LENGTH_ORDER@[nbl - 1]] != 0
    &&& forall|j: int| 0 <= j < 19 ==> #[trigger] sizes[576 + j] <= 7
    &&& rle_ok(packed, 0)
    &&& rle_lengths(packed) == sizes.subrange(0, nlit) + sizes.subrange(288, 288 + ndist)
    &&& canonical_table(codes, sizes, 2, 19)
    &&& lengths_fit(sizes, 576, 19)
    &&& tokens_all(packed, 0, coded(sizes))
    &&& hdr == bits_of(2, 2) + bits_of((nlit - 257) as nat, 5) + bits_of((ndist - 1) as nat, 5) + bits_of(
        (nbl - 4) as nat,
        4,
    ) + cl_sizes_bits(sizes, nbl) + tokens_bits(codes, sizes, packed, 0)
}

/// `hdr` is the header of a dynamic block for the code lengths `sizes` under the codes
/// `codes`.
pub open spec fn dynamic_header(hdr: Seq<bool>, codes: Seq<u16>, sizes: Seq<u8>) -> bool {
    exists|nlit: int, ndist: int, nbl: int, packed: Seq<u8>|
        #[trigger] dyn_header_with(hdr, codes, sizes, nlit, ndist, nbl, packed)
}

/// `n` copies of `v`.
pub open spec fn repeat_u8(v: u8, n: nat) -> Seq<u8> {
    Seq::new(n, |k: int| v)
}

/// The code lengths that the tokens of `p` from position `i` stand for, appended to `out`:
/// `16 x` repeats the previous length `x + 3` times, `17 x` and `18 x` give `x + 3` and
/// `x + 11` zeros.
pub open spec fn rle_expand(p: Seq<u8>, i: int, out: Seq<u8>) -> Seq<u8>
    decreases p.len() - i,
{
    if i < 0 || i >= p.len() {
        out
    } else if p[i] < 16 {
        rle_expand(p, i + 1, out.push(p[i]))
    } else if i + 1 >= p.len() {
        out
    } else if p[i] == 16 {
        rle_expand(p, i + 2, out + repeat_u8(out.last(), (p[i + 1] + 3) as nat))
    } else if p[i] == 17 {
        rle_expand(p, i + 2, out + repeat_u8(0, (p[i + 1] + 3) as nat))
    } else {
        rle_expand(p, i + 2, out + repeat_u8(0, (p[i + 1] + 11) as nat))
    }
}

/// Expanding whole tokens followed by more tokens is expanding the first part, then the rest.
pub proof fn lemma_rle_expand_append(p: Seq<u8>, q: Seq<u8>, i: int, out: Seq<u8>)
    requires
        rle_ok(p, i),
    ensures
        rle_expand(p + q, i, out) == rle_expand(q, 0, rle_expand(p, i, out)),
        rle_ok(q, 0) ==> rle_ok(p + q, i),
    decreases p.len() - i,
{
    if i == p.len() {
        assert(rle_expand(p, i, out) == out);
        if q.len() == 0 {
            assert(p + q =~= p);
        } else {
            assert forall|k: int| 0 <= k < q.len() implies (p + q)[i + k] == q[k] by {}
            lemma_rle_shift(p, q, 0);
        }
    } else if p[i] < 16 {
        assert((p + q)[i] == p[i]);
        lemma_rle_expand_append(p, q, i + 1, out.push(p[i]));
    } else {
        assert((p + q)[i] == p[i]);
        assert((p + q)[i + 1] == p[i + 1]);
        let n: nat = if p[i] == 18 { (p[i + 1] + 11) as nat } else { (p[i + 1] + 3) as nat };
        let v: u8 = if p[i] == 16 { out.last() } else { 0 };
        lemma_rle_expand_append(p, q, i + 2, out + repeat_u8(v, n));
    }
}

/// Tokens read from position `p.len() + j` of `p + q` are those of `q` from `j`.
proof fn lemma_rle_shift(p: Seq<u8>, q: Seq<u8>, j: int)
    requires
        0 <= j <= q.len(),
    ensures
        forall|o: Seq<u8>| #[trigger] rle_expand(p + q, p.len() + j, o) == rle_expand(q, j, o),
        rle_ok(p + q, p.len() + j) == rle_ok(q, j),
    decreases q.len() - j,
{
    let pq = p + q;
    let k = p.len() + j;
    if j < q.len() {
        assert(pq[k] == q[j]);
        if j + 1 < q.len() {
            assert(pq[k + 1] == q[j + 1]);
            lemma_rle_shift(p, q, j + 2);
        }
        lemma_rle_shift(p, q, j + 1);
        assert forall|o: Seq<u8>| #[trigger] rle_expand(pq, k, o) == rle_expand(q, j, o) by {
            if q[j] < 16 {
                assert(rle_expand(pq, k + 1, o.push(q[j])) == rle_expand(q, j + 1, o.push(q[j])));
            } else if j + 1 < q.len() {
                let n: nat = if q[j] == 16 || q[j] == 17 { (q[j + 1] + 3) as nat } else { (q[j + 1] + 11) as nat };
                let v: u8 = if q[j] == 16 { o.last() } else { 0 };
                assert(rle_expand(pq, k + 2, o + repeat_u8(v, n)) == rle_expand(q, j + 2, o + repeat_u8(v, n)));
            }
        }
    }
}

/// Every token of `p` from position `i` on has a symbol `s` with `ok(s)`.
pub open spec fn tokens_all(p: Seq<u8>, i: int, ok: spec_fn(int) -> bool) -> bool
    decreases p.len() - i,
{
    if i < 0 || i >= p.len() {
        true
    } else if p[i] < 16 {
        ok(p[i] as int) && tokens_all(p, i + 1, ok)
    } else {
        ok(p[i] as int) && (i + 1 >= p.len() || tokens_all(p, i + 2, ok))
    }
}

/// The symbols of the code length table that `count` counts.
pub open spec fn counted(count: Seq<u16>) -> spec_fn(int) -> bool {
    |s: int| count[576 + s] > 0
}

/// The symbols of the code length table that have a code.
pub open spec fn coded(sizes: Seq<u8>) -> spec_fn(int) -> bool {
    |s: int| sizes[576 + s] != 0
}

proof fn lemma_tokens_shift(p: Seq<u8>, q: Seq<u8>, j: int, ok: spec_fn(int) -> bool)
    requires
        0 <= j <= q.len(),
    ensures
        tokens_all(p + q, p.len() + j, ok) == tokens_all(q, j, ok),
    decreases q.len() - j,
{
    let pq = p + q;
    let k = p.len() + j;
    if j < q.len() {
        assert(pq[k] == q[j]);
        if j + 2 <= q.len() {
            lemma_tokens_shift(p, q, j + 2, ok);
        }
        lemma_tokens_shift(p, q, j + 1, ok);
    }
}

/// Tokens whose symbols pass `ok`, followed by more such tokens.
proof fn lemma_tokens_append(p: Seq<u8>, q: Seq<u8>, i: int, ok: spec_fn(int) -> bool)
    requires
        rle_ok(p, i),
        tokens_all(p, i, ok),
        tokens_all(q, 0, ok),
    ensures
        tokens_all(p + q, i, ok),
    decreases p.len() - i,
{
    if i == p.len() {
        lemma_tokens_shift(p, q, 0, ok);
    } else if p[i] < 16 {
        assert((p + q)[i] == p[i]);
        lemma_tokens_append(p, q, i + 1, ok);
    } else {
        assert((p + q)[i] == p[i]);
        lemma_tokens_append(p, q, i + 2, ok);
    }
}

/// A weaker test on the symbols of the code length alphabet passes the same tokens.
pub proof fn lemma_tokens_weaken(p: Seq<u8>, i: int, f: spec_fn(int) -> bool, g: spec_fn(int) -> bool)
    requires
        rle_ok(p, i),
        tokens_all(p, i, f),
        forall|s: int| 0 <= s < 19 && #[trigger] f(s) ==> g(s),
    ensures
        tokens_all(p, i, g),
    decreases p.len() - i,
{
    if i < p.len() {
        if p[i] < 16 {
            lemma_tokens_weaken(p, i + 1, f, g);
        } else {
            lemma_tokens_weaken(p, i + 2, f, g);
        }
    }
}

/// The tokens written so far stay counted while the counts grow, and new tokens whose
/// symbols are counted join them.
proof fn lemma_tokens_grow(p: Seq<u8>, t: Seq<u8>, c1: Seq<u16>, c2: Seq<u16>)
    requires
        rle_ok(p, 0),
        tokens_all(p, 0, counted(c1)),
        forall|s: int| 0 <= s < 19 && #[trigger] c1[576 + s] > 0 ==> c2[576 + s] > 0,
        tokens_all(t, 0, counted(c2)),
    ensures
        tokens_all(p + t, 0, counted(c2)),
{
    assert forall|s: int| 0 <= s < 19 && #[trigger] counted(c1)(s) implies counted(c2)(s) by {
        assert(c1[576 + s] > 0);
    }
    lemma_tokens_weaken(p, 0, counted(c1), counted(c2));
    lemma_tokens_append(p, t, 0, counted(c2));
}

/// After ending a run of repeats, the tokens written are counted.
proof fn lemma_repeat_tokens_counted(p: Seq<u8>, count: Seq<u16>, c0: Seq<u16>, plen: nat, r: u32, pv: u8)
    requires
        rle_ok(p, 0),
        tokens_all(p, 0, counted(count)),
        rle_count_inv(count, c0, plen),
        plen <= 320,
        r <= 6,
        r > 0 ==> pv <= 15,
    ensures
        tokens_all(p + repeat_tokens(r, pv), 0, counted(repeat_counts(count, r, pv))),
{
    let c2 = repeat_counts(count, r, pv);
    let t = repeat_tokens(r, pv);
    if r == 0 {
        assert(p + t =~= p);
    } else {
        assert forall|s: int| 0 <= s < 19 && #[trigger] count[576 + s] > 0 implies c2[576 + s] > 0 by {}
        if r < 3 {
            assert(c2[576 + pv] > 0);
            assert(counted(c2)(pv as int));
            if r == 1 {
                assert(tokens_all(t, 1, counted(c2)));
            } else {
                assert(tokens_all(t, 2, counted(c2)));
                assert(tokens_all(t, 1, counted(c2)));
            }
        } else {
            assert(count[576 + 16int] <= plen);
            assert(c2[592] > 0);
            assert(counted(c2)(16int));
            assert(tokens_all(t, 2, counted(c2)));
        }
        assert(tokens_all(t, 0, counted(c2)));
        lemma_tokens_grow(p, t, count, c2);
    }
}

/// After ending a run of zeros, the tokens written are counted.
proof fn lemma_zero_tokens_counted(p: Seq<u8>, count: Seq<u16>, c0: Seq<u16>, plen: nat, z: u32)
    requires
        rle_ok(p, 0),
        tokens_all(p, 0, counted(count)),
        rle_count_inv(count, c0, plen),
        plen <= 320,
        z <= 138,
    ensures
        tokens_all(p + zero_tokens(z), 0, counted(zero_counts(count, z))),
{
    let c2 = zero_counts(count, z);
    let t = zero_tokens(z);
    if z == 0 {
        assert(p + t =~= p);
    } else {
        assert forall|s: int| 0 <= s < 19 && #[trigger] count[576 + s] > 0 implies c2[576 + s] > 0 by {}
        assert(count[576 + 0int] <= plen);
        assert(count[576 + 17int] <= plen);
        assert(count[576 + 18int] <= plen);
        if z < 3 {
            assert(c2[576] > 0);
            assert(counted(c2)(0int));
            if z == 1 {
                assert(tokens_all(t, 1, counted(c2)));
            } else {
                assert(tokens_all(t, 2, counted(c2)));
                assert(tokens_all(t, 1, counted(c2)));
            }
        } else if z <= 10 {
            assert(c2[593] > 0);
            assert(counted(c2)(17int));
            assert(tokens_all(t, 2, counted(c2)));
        } else {
            assert(c2[594] > 0);
            assert(counted(c2)(18int));
            assert(tokens_all(t, 2, counted(c2)));
        }
        assert(tokens_all(t, 0, counted(c2)));
        lemma_tokens_grow(p, t, count, c2);
    }
}

/// The state of the run-length encoder of code lengths: a pending run of zeros, or a
/// pending run of repeats of the previous length.
pub struct RLE {
    pub z_count: u32,
    pub repeat_count: u32,
    pub prev_code_size: u8,
}

/// The tokens that end a run of `r` repeats of length `c`.
pub open spec fn repeat_tokens(r: u32, c: u8) -> Seq<u8> {
    if r == 0 {
        Seq::empty()
    } else if r < 3 {
        repeat_u8(c, r as nat)
    } else {
        seq![16u8, (r - 3) as u8]
    }
}

/// The tokens that end a run of `z` zeros.
pub open spec fn zero_tokens(z: u32) -> Seq<u8> {
    if z == 0 {
        Seq::empty()
    } else if z < 3 {
        repeat_u8(0, z as nat)
    } else if z <= 10 {
        seq![17u8, (z - 3) as u8]
    } else {
        seq![18u8, (z - 11) as u8]
    }
}

/// `count` with entry `i` raised by `n`, wrapping around at 2^16.
pub open spec fn bump(count: Seq<u16>, i: int, n: int) -> Seq<u16> {
    count.update(i, ((count[i] + n) % 65536) as u16)
}

/// The symbol counts of the code length table after the tokens that end a run of `r`
/// repeats of `c`.
pub open spec fn repeat_counts(count: Seq<u16>, r: u32, c: u8) -> Seq<u16> {
    if r == 0 {
        count
    } else if r < 3 {
        bump(count, 576 + c, r as int)
    } else {
        bump(count, 592, 1)
    }
}

/// The symbol counts of the code length table after the tokens that end a run of `z` zeros.
pub open spec fn zero_counts(count: Seq<u16>, z: u32) -> Seq<u16> {
    if z == 0 {
        count
    } else if z < 3 {
        bump(count, 576, z as int)
    } else if z <= 10 {
        bump(count, 593, 1)
    } else {
        bump(count, 594, 1)
    }
}

proof fn lemma_repeat_tokens(r: u32, c: u8, out: Seq<u8>)
    requires
        1 <= r <= 6,
        c <= 15,
        r >= 3 ==> out.len() > 0 && out.last() == c,
    ensures
        rle_ok(repeat_tokens(r, c), 0),
        rle_expand(repeat_tokens(r, c), 0, out) == out + repeat_u8(c, r as nat),
{
    let t = repeat_tokens(r, c);
    if r < 3 {
        if r == 1 {
            assert(rle_ok(t, 1));
            assert(rle_expand(t, 1, out.push(c)) == out.push(c));
        } else {
            assert(rle_ok(t, 2));
            assert(rle_ok(t, 1));
            assert(rle_expand(t, 2, out.push(c).push(c)) == out.push(c).push(c));
            assert(rle_expand(t, 1, out.push(c)) == out.push(c).push(c));
        }
        assert(rle_expand(t, 0, out) =~= out + repeat_u8(c, r as nat));
    } else {
        assert(rle_ok(t, 2));
        assert(rle_expand(t, 2, out + repeat_u8(c, r as nat)) == out + repeat_u8(c, r as nat));
    }
}

proof fn lemma_zero_tokens(z: u32, out: Seq<u8>)
    requires
        1 <= z <= 138,
    ensures
        rle_ok(zero_tokens(z), 0),
        rle_expand(zero_tokens(z), 0, out) == out + repeat_u8(0, z as nat),
{
    let t = zero_tokens(z);
    if z < 3 {
        if z == 1 {
            assert(rle_ok(t, 1));
            assert(rle_expand(t, 1, out.push(0)) == out.push(0));
        } else {
            assert(rle_ok(t, 2));
            assert(rle_ok(t, 1));
            assert(rle_expand(t, 2, out.push(0).push(0)) == out.push(0).push(0));
            assert(rle_expand(t, 1, out.push(0)) == out.push(0).push(0));
        }
        assert(rle_expand(t, 0, out) =~= out + repeat_u8(0, z as nat));
    } else {
        assert(rle_ok(t, 2));
        assert(rle_expand(t, 2, out + repeat_u8(0, z as nat)) == out + repeat_u8(0, z as nat));
    }
}

/// Appends `n` copies of `v`.
fn push_repeat(dst: &mut Vec<u8>, v: u8, n: u32)
    ensures
        final(dst)@ == old(dst)@ + repeat_u8(v, n as nat),
{
    let mut i: u32 = 0;
    while i < n
        invariant
            i <= n,
            dst@ == old(dst)@ + repeat_u8(v, i as nat),
        decreases n - i,
    {
        dst.push(v);
        i += 1;
        proof {
            assert(old(dst)@ + repeat_u8(v, i as nat) =~= (old(dst)@ + repeat_u8(v, (i - 1) as nat)).push(v));
        }
    }
}

impl RLE {
    /// Ends the pending run of repeats of the previous length: up to two repeats are
    /// written as lengths, more as symbol 16 with the count less 3.
    pub fn prev_code_size(&mut self, packed_code_sizes: &mut Vec<u8>, h: &mut HuffmanOxide)
        requires
            old(h).count@.len() == 864,
            old(self).repeat_count <= 6,
        ensures
            final(self).repeat_count == 0,
            final(self).z_count == old(self).z_count,
            final(self).prev_code_size == old(self).prev_code_size,
            final(packed_code_sizes)@ == old(packed_code_sizes)@ + repeat_tokens(
                old(self).repeat_count,
                old(self).prev_code_size,
            ),
            final(h).count@ == repeat_counts(
                old(h).count@,
                old(self).repeat_count,
                old(self).prev_code_size,
            ),
            final(h).codes == old(h).codes,
            final(h).code_sizes == old(h).code_sizes,
    {
        if self.repeat_count != 0 {
            let p = self.prev_code_size as usize;
            if self.repeat_count < 3 {
                h.count[576 + p] = h.count[576 + p].wrapping_add(self.repeat_count as u16);
                push_repeat(packed_code_sizes, self.prev_code_size, self.repeat_count);
            } else {
                h.count[576 + 16] = h.count[576 + 16].wrapping_add(1);
                packed_code_sizes.push(16);
                packed_code_sizes.push((self.repeat_count - 3) as u8);
                proof {
                    assert(packed_code_sizes@ =~= old(packed_code_sizes)@ + repeat_tokens(
                        old(self).repeat_count,
                        old(self).prev_code_size,
                    ));
                }
            }
            self.repeat_count = 0;
        }
    }

    /// Ends the pending run of zeros: up to two are written as lengths, up to ten as
    /// symbol 17 with the count less 3, more as symbol 18 with the count less 11.
    pub fn zero_code_size(&mut self, packed_code_sizes: &mut Vec<u8>, h: &mut HuffmanOxide)
        requires
            old(h).count@.len() == 864,
            old(self).z_count <= 138,
        ensures
            final(self).z_count == 0,
            final(self).repeat_count == old(self).repeat_count,
            final(self).prev_code_size == old(self).prev_code_size,
            final(packed_code_sizes)@ == old(packed_code_sizes)@ + zero_tokens(old(self).z_count),
            final(h).count@ == zero_counts(old(h).count@, old(self).z_count),
            final(h).codes == old(h).codes,
            final(h).code_sizes == old(h).code_sizes,
    {
        if self.z_count != 0 {
            if self.z_count < 3 {
                h.count[576] = h.count[576].wrapping_add(self.z_count as u16);
                push_repeat(packed_code_sizes, 0, self.z_count);
            } else if self.z_count <= 10 {
                h.count[576 + 17] = h.count[576 + 17].wrapping_add(1);
                packed_code_sizes.push(17);
                packed_code_sizes.push((self.z_count - 3) as u8);
                proof {
                    assert(packed_code_sizes@ =~= old(packed_code_sizes)@ + zero_tokens(old(self).z_count));
                }
            } else {
                h.count[576 + 18] = h.count[576 + 18].wrapping_add(1);
                packed_code_sizes.push(18);
                packed_code_sizes.push((self.z_count - 11) as u8);
                proof {
                    assert(packed_code_sizes@ =~= old(packed_code_sizes)@ + zero_tokens(old(self).z_count));
                }
            }
            self.z_count = 0;
        }
    }
}

/// The code lengths that the whole token sequence `p` stands for.
pub open spec fn rle_lengths(p: Seq<u8>) -> Seq<u8> {
    rle_expand(p, 0, Seq::empty())
}

/// Appending the tokens `t` to whole tokens `p` appends what `t` stands for.
proof fn lemma_rle_extend(p: Seq<u8>, t: Seq<u8>)
    requires
        rle_ok(p, 0),
        rle_ok(t, 0),
    ensures
        rle_ok(p + t, 0),
        rle_lengths(p + t) == rle_expand(t, 0, rle_lengths(p)),
{
    lemma_rle_expand_append(p, t, 0, Seq::empty());
}

/// The state of the run-length encoder after the lengths `done`: the tokens written so
/// far, then the pending run of zeros or repeats, stand for `done`.
pub open spec fn rle_inv(packed: Seq<u8>, z: u32, r: u32, prev: u8, done: Seq<u8>) -> bool {
    &&& rle_ok(packed, 0)
    &&& rle_lengths(packed) + repeat_u8(0, z as nat) + repeat_u8(prev, r as nat) == done
    &&& z == 0 || r == 0
    &&& z <= 137
    &&& r <= 5
    &&& done.len() == 0 ==> prev == 0xFF && r == 0 && z == 0
    &&& done.len() > 0 ==> prev == done.last()
    &&& r > 0 ==> prev != 0
    &&& done.len() > 0 && prev != 0 ==> z == 0 && rle_lengths(packed).len() > 0
        && rle_lengths(packed).last() == prev
    &&& packed.len() + z + r <= done.len()
    &&& forall|k: int| 0 <= k < done.len() ==> (#[trigger] done[k]) <= 15
}

/// The symbol counts of the code length table count the tokens written, and nothing else changed.
pub open spec fn rle_count_inv(count: Seq<u16>, c0: Seq<u16>, plen: nat) -> bool {
    &&& count.len() == 864
    &&& forall|i: int| 0 <= i < 576 ==> count[i] == c0[i]
    &&& forall|i: int| 595 <= i < 864 ==> count[i] == c0[i]
    &&& forall|s: int| 0 <= s < 19 ==> (#[trigger] count[576 + s]) <= plen
    &&& plen > 0 ==> exists|s: int| 0 <= s < 19 && (#[trigger] count[576 + s]) != 0
}

proof fn lemma_count_bump(count: Seq<u16>, c0: Seq<u16>, plen: nat, c: int, n: int, newlen: nat)
    requires
        rle_count_inv(count, c0, plen),
        0 <= c < 19,
        1 <= n,
        plen + n <= newlen <= 400,
    ensures
        rle_count_inv(bump(count, 576 + c, n), c0, newlen),
        bump(count, 576 + c, n)[576 + c] != 0,
{
    let b = bump(count, 576 + c, n);
    assert(count[576 + c] + n < 65536);
    assert(b[576 + c] == count[576 + c] + n);
    assert forall|s: int| 0 <= s < 19 implies (#[trigger] b[576 + s]) <= newlen by {
        if s != c {
            assert(b[576 + s] == count[576 + s]);
        }
    }
    assert(0 <= c < 19 && b[576 + c] != 0);
}

/// Ends a pending run of repeats: what the tokens stand for grows by the run.
proof fn lemma_flush_repeats(packed: Seq<u8>, r: u32, prev: u8)
    requires
        rle_ok(packed, 0),
        r <= 6,
        r > 0 ==> prev <= 15,
        r >= 3 ==> rle_lengths(packed).len() > 0 && rle_lengths(packed).last() == prev,
    ensures
        rle_ok(packed + repeat_tokens(r, prev), 0),
        rle_lengths(packed + repeat_tokens(r, prev)) == rle_lengths(packed) + repeat_u8(prev, r as nat),
        repeat_tokens(r, prev).len() <= r,
{
    if r > 0 {
        lemma_repeat_tokens(r, prev, rle_lengths(packed));
        lemma_rle_extend(packed, repeat_tokens(r, prev));
    } else {
        assert(packed + repeat_tokens(r, prev) =~= packed);
        assert(rle_lengths(packed) + repeat_u8(prev, 0) =~= rle_lengths(packed));
    }
}

/// Ends a pending run of zeros: what the tokens stand for grows by the run.
proof fn lemma_flush_zeros(packed: Seq<u8>, z: u32)
    requires
        rle_ok(packed, 0),
        z <= 138,
    ensures
        rle_ok(packed + zero_tokens(z), 0),
        rle_lengths(packed + zero_tokens(z)) == rle_lengths(packed) + repeat_u8(0, z as nat),
        zero_tokens(z).len() <= z,
{
    if z > 0 {
        lemma_zero_tokens(z, rle_lengths(packed));
        lemma_rle_extend(packed, zero_tokens(z));
    } else {
        assert(packed + zero_tokens(z) =~= packed);
        assert(rle_lengths(packed) + repeat_u8(0, 0) =~= rle_lengths(packed));
    }
}

proof fn lemma_repeat_counts(count: Seq<u16>, c0: Seq<u16>, plen: nat, r: u32, prev: u8, newlen: nat)
    requires
        rle_count_inv(count, c0, plen),
        r <= 6,
        r > 0 ==> prev <= 15,
        newlen == plen + repeat_tokens(r, prev).len(),
        newlen <= 400,
    ensures
        rle_count_inv(repeat_counts(count, r, prev), c0, newlen),
{
    if r > 0 && r < 3 {
        lemma_count_bump(count, c0, plen, prev as int, r as int, newlen);
    } else if r >= 3 {
        lemma_count_bump(count, c0, plen, 16, 1, newlen);
    }
}

proof fn lemma_zero_counts(count: Seq<u16>, c0: Seq<u16>, plen: nat, z: u32, newlen: nat)
    requires
        rle_count_inv(count, c0, plen),
        z <= 138,
        newlen == plen + zero_tokens(z).len(),
        newlen <= 400,
    ensures
        rle_count_inv(zero_counts(count, z), c0, newlen),
{
    if z > 0 && z < 3 {
        lemma_count_bump(count, c0, plen, 0, z as int, newlen);
    } else if z >= 3 && z <= 10 {
        lemma_count_bump(count, c0, plen, 17, 1, newlen);
    } else if z > 10 {
        lemma_count_bump(count, c0, plen, 18, 1, newlen);
    }
}

impl HuffmanOxide {
    /// One step of the run-length encoder: takes in the next code length.
    fn rle_step(
        &mut self,
        rle: &mut RLE,
        packed: &mut Vec<u8>,
        code_size: u8,
        Ghost(done): Ghost<Seq<u8>>,
        Ghost(c0): Ghost<Seq<u16>>,
    )
        requires
            rle_inv(old(packed)@, old(rle).z_count, old(rle).repeat_count, old(rle).prev_code_size, done),
            rle_count_inv(old(self).count@, c0, old(packed)@.len()),
            tokens_all(old(packed)@, 0, counted(old(self).count@)),
            code_size <= 15,
            done.len() < 320,
        ensures
            tokens_all(final(packed)@, 0, counted(final(self).count@)),
            rle_inv(
                final(packed)@,
                final(rle).z_count,
                final(rle).repeat_count,
                final(rle).prev_code_size,
                done.push(code_size),
            ),
            rle_count_inv(final(self).count@, c0, final(packed)@.len()),
            final(self).codes == old(self).codes,
            final(self).code_sizes == old(self).code_sizes,
    {
        let ghost d1 = done.push(code_size);
        let ghost p0 = packed@;
        if code_size == 0 {
            let ghost r = rle.repeat_count;
            let ghost pv = rle.prev_code_size;
            proof {
                lemma_flush_repeats(p0, r, pv);
                lemma_repeat_counts(self.count@, c0, p0.len(), r, pv, (p0.len() + repeat_tokens(r, pv).len()) as nat);
                lemma_repeat_tokens_counted(p0, self.count@, c0, p0.len(), r, pv);
            }
            rle.prev_code_size(packed, self);
            rle.z_count += 1;
            proof {
                assert(rle_lengths(packed@) + repeat_u8(0, rle.z_count as nat) =~= rle_lengths(p0) + repeat_u8(
                    0,
                    (rle.z_count - 1) as nat,
                ) + repeat_u8(pv, r as nat) + seq![0u8]);
            }
            if rle.z_count == 138 {
                let ghost p1 = packed@;
                proof {
                    lemma_flush_zeros(p1, 138);
                    lemma_zero_counts(self.count@, c0, p1.len(), 138, (p1.len() + 2) as nat);
                    lemma_zero_tokens_counted(p1, self.count@, c0, p1.len(), 138);
                }
                rle.zero_code_size(packed, self);
            }
            rle.prev_code_size = code_size;
            proof {
                assert(rle_lengths(packed@) + repeat_u8(0, rle.z_count as nat) + repeat_u8(0, rle.repeat_count as nat)
                    =~= d1);
            }
        } else {
            let ghost z = rle.z_count;
            proof {
                lemma_flush_zeros(p0, z);
                lemma_zero_counts(self.count@, c0, p0.len(), z, (p0.len() + zero_tokens(z).len()) as nat);
                lemma_zero_tokens_counted(p0, self.count@, c0, p0.len(), z);
            }
            rle.zero_code_size(packed, self);
            let ghost p1 = packed@;
            proof {
                assert(rle_lengths(p1) + repeat_u8(rle.prev_code_size, rle.repeat_count as nat) =~= done);
            }
            if code_size != rle.prev_code_size {
                let ghost r = rle.repeat_count;
                let ghost pv = rle.prev_code_size;
                proof {
                    lemma_flush_repeats(p1, r, pv);
                    lemma_repeat_counts(self.count@, c0, p1.len(), r, pv, (p1.len() + repeat_tokens(r, pv).len()) as nat);
                    lemma_repeat_tokens_counted(p1, self.count@, c0, p1.len(), r, pv);
                }
                rle.prev_code_size(packed, self);
                let ghost p2 = packed@;
                let ghost cb = self.count@;
                let c = code_size as usize;
                proof {
                    lemma_count_bump(self.count@, c0, p2.len(), c as int, 1, (p2.len() + 1) as nat);
                }
                self.count[576 + c] = self.count[576 + c].wrapping_add(1);
                packed.push(code_size);
                proof {
                    let t = seq![code_size];
                    assert(rle_ok(t, 1));
                    assert(rle_ok(t, 0));
                    assert(rle_expand(t, 1, rle_lengths(p2).push(code_size)) == rle_lengths(p2).push(code_size));
                    lemma_rle_extend(p2, t);
                    assert(p2 + t =~= packed@);
                    assert(cb[576 + c] <= p2.len());
                    assert forall|s: int| 0 <= s < 19 && #[trigger] cb[576 + s] > 0 implies self.count@[576 + s] > 0 by {
                        assert(cb[576 + s] <= p2.len());
                    }
                    assert(counted(self.count@)(c as int));
                    assert(tokens_all(t, 1, counted(self.count@)));
                    assert(tokens_all(t, 0, counted(self.count@)));
                    lemma_tokens_grow(p2, t, cb, self.count@);
                }
                rle.prev_code_size = code_size;
                proof {
                    assert(rle_lengths(packed@) + repeat_u8(0, rle.z_count as nat) + repeat_u8(code_size, 0) =~= d1);
                }
            } else {
                rle.repeat_count += 1;
                proof {
                    assert(rle_lengths(p1) + repeat_u8(rle.prev_code_size, rle.repeat_count as nat) =~= d1);
                }
                if rle.repeat_count == 6 {
                    let ghost pv = rle.prev_code_size;
                    proof {
                        lemma_flush_repeats(p1, 6, pv);
                        lemma_repeat_counts(self.count@, c0, p1.len(), 6, pv, (p1.len() + 2) as nat);
                        lemma_repeat_tokens_counted(p1, self.count@, c0, p1.len(), 6, pv);
                    }
                    rle.prev_code_size(packed, self);
                }
                rle.prev_code_size = code_size;
                proof {
                    assert(rle_lengths(packed@) + repeat_u8(0, rle.z_count as nat) + repeat_u8(
                        code_size,
                        rle.repeat_count as nat,
                    ) =~= d1);
                }
            }
        }
    }

    /// Run-length encodes the code lengths `to_pack` with the code length alphabet, and
    /// counts the symbols used in the code length table (table 2). The tokens expand to
    /// exactly `to_pack`.
    pub fn pack_code_sizes(&mut self, to_pack: &Vec<u8>) -> (packed: Vec<u8>)
        requires
            old(self).count@.len() == 864,
            1 <= to_pack@.len() <= 320,
            forall|k: int| 0 <= k < to_pack@.len() ==> (#[trigger] to_pack@[k]) <= 15,
            forall|s: int| 0 <= s < 19 ==> (#[trigger] old(self).count@[576 + s]) == 0,
        ensures
            rle_ok(packed@, 0),
            rle_lengths(packed@) == to_pack@,
            1 <= packed@.len() <= to_pack@.len(),
            rle_count_inv(final(self).count@, old(self).count@, packed@.len()),
            tokens_all(packed@, 0, counted(final(self).count@)),
            final(self).codes == old(self).codes,
            final(self).code_sizes == old(self).code_sizes,
    {
        let ghost c0 = self.count@;
        let mut rle = RLE { z_count: 0, repeat_count: 0, prev_code_size: 0xFF };
        let mut packed: Vec<u8> = Vec::new();
        let n = to_pack.len();
        let mut k: usize = 0;
        proof {
            assert(rle_lengths(packed@) =~= Seq::<u8>::empty());
            assert(to_pack@.take(0) =~= Seq::<u8>::empty());
            assert(Seq::<u8>::empty() + repeat_u8(0, 0) + repeat_u8(0xFF, 0) =~= Seq::<u8>::empty());
        }
        while k < n
            invariant
                n == to_pack@.len(),
                1 <= n <= 320,
                k <= n,
                forall|j: int| 0 <= j < to_pack@.len() ==> (#[trigger] to_pack@[j]) <= 15,
                rle_inv(packed@, rle.z_count, rle.repeat_count, rle.prev_code_size, to_pack@.take(k as int)),
                rle_count_inv(self.count@, c0, packed@.len()),
                tokens_all(packed@, 0, counted(self.count@)),
                self.codes == old(self).codes,
                self.code_sizes == old(self).code_sizes,
            decreases n - k,
        {
            proof {
                assert(to_pack@.take(k + 1) =~= to_pack@.take(k as int).push(to_pack@[k as int]));
            }
            self.rle_step(&mut rle, &mut packed, to_pack[k], Ghost(to_pack@.take(k as int)), Ghost(c0));
            k += 1;
        }
        let ghost p0 = packed@;
        let ghost z = rle.z_count;
        let ghost r = rle.repeat_count;
        let ghost pv = rle.prev_code_size;
        if rle.repeat_count != 0 {
            proof {
                lemma_flush_repeats(p0, r, pv);
                lemma_repeat_counts(self.count@, c0, p0.len(), r, pv, (p0.len() + repeat_tokens(r, pv).len()) as nat);
                lemma_repeat_tokens_counted(p0, self.count@, c0, p0.len(), r, pv);
            }
            rle.prev_code_size(&mut packed, self);
        } else {
            proof {
                lemma_flush_zeros(p0, z);
                lemma_zero_counts(self.count@, c0, p0.len(), z, (p0.len() + zero_tokens(z).len()) as nat);
                lemma_zero_tokens_counted(p0, self.count@, c0, p0.len(), z);
            }
            rle.zero_code_size(&mut packed, self);
        }
        proof {
            assert(to_pack@.take(n as int) =~= to_pack@);
            assert(repeat_u8(0, 0) =~= Seq::<u8>::empty());
            assert(rle_lengths(packed@) =~= to_pack@);
            if packed@.len() == 0 {
                assert(rle_lengths(packed@) =~= Seq::<u8>::empty());
            }
        }
        packed
    }
}

impl HuffmanOxide {
    /// Starts a block with the fixed Huffman codes: sets the fixed code lengths of the
    /// literal/length and distance tables, assigns their codes, and writes the block
    /// type `01`.
    pub fn start_static_block(&mut self, output: &mut OutputBufferOxide)
        requires
            old(self).wf(),
            old(output).wf(),
        ensures
            final(self).wf(),
            final(self).count@ == old(self).count@,
            forall|i: int| 0 <= i < 288 ==> #[trigger] final(self).code_sizes@[tix(0, i)] == fixed_litlen_size(i),
            forall|i: int| 0 <= i < 32 ==> #[trigger] final(self).code_sizes@[tix(1, i)] == 5,
            forall|i: int| 576 <= i < 864 ==> final(self).code_sizes@[i] == old(self).code_sizes@[i]
                && final(self).codes@[i] == old(self).codes@[i],
            canonical_table(final(self).codes@, final(self).code_sizes@, 0, 288),
            canonical_table(final(self).codes@, final(self).code_sizes@, 1, 32),
            lengths_fit(final(self).code_sizes@, 0, 288),
            lengths_fit(final(self).code_sizes@, 288, 32),
            final(output).wf(),
            final(output).stream() == old(output).stream() + bits_of(1, 2),
            final(output).local == old(output).local,
            final(output).inner@.len() >= old(output).inner@.len(),
            final(output).inner@.subrange(0, old(output).inner@.len() as int) == old(output).inner@,
            final(output).inner@.len() <= old(output).inner@.len() + 1,
    {
        // The codes of both tables are assigned anew below; clearing them first keeps every
        // stored code within its length while the lengths change.
        memset_range(&mut self.codes, 0, 320, 0u16);
        memset_range(&mut self.code_sizes, 0, 144, 8u8);
        memset_range(&mut self.code_sizes, 144, 256, 9u8);
        memset_range(&mut self.code_sizes, 256, 280, 7u8);
        memset_range(&mut self.code_sizes, 280, 288, 8u8);
        memset_range(&mut self.code_sizes, 288, 320, 5u8);
        proof {
            lemma2_to64();
            assert forall|i: int| 0 <= i < 864 implies (#[trigger] self.codes@[i]) < pow2(
                self.code_sizes@[i] as nat,
            ) by {
                if i < 320 {
                    lemma_pow2_pos(self.code_sizes@[i] as nat);
                }
            }
        }
        self.optimize_table(0, 288, 15, true);
        let ghost h0 = *self;
        proof {
            assert(canonical_table(h0.codes@, h0.code_sizes@, 0, 288));
        }
        self.optimize_table(1, 32, 15, true);
        proof {
            lemma2_to64();
            lemma_canonical_table_ext(h0.codes@, h0.code_sizes@, self.codes@, self.code_sizes@, 0, 288);
            assert(canonical_table(self.codes@, self.code_sizes@, 1, 32));
            lemma_fixed_fit(self.code_sizes@);
        }
        output.put_bits(1, 2);
    }

    /// Starts a block with dynamic Huffman codes: builds the literal/length and distance
    /// codes from the symbol counts (with one end-of-block symbol), run-length encodes
    /// their code lengths, builds the code for those, and writes the block type `10`
    /// followed by the header that describes the codes.
    #[verifier::rlimit(80)]
    #[verifier::spinoff_prover]
    pub fn start_dynamic_block(&mut self, output: &mut OutputBufferOxide)
        requires
            old(self).wf(),
            old(output).wf(),
        ensures
            final(self).wf(),
            forall|i: int| 0 <= i < 576 && i != 256 ==> final(self).count@[i] == old(self).count@[i],
            final(self).count@[256] == 1,
            forall|i: int|
                0 <= i < 288 ==> ((#[trigger] final(self).code_sizes@[tix(0, i)]) != 0
                    <==> final(self).count@[tix(0, i)] != 0),
            forall|i: int|
                0 <= i < 32 ==> ((#[trigger] final(self).code_sizes@[tix(1, i)]) != 0
                    <==> final(self).count@[tix(1, i)] != 0),
            final(self).code_sizes@[256] != 0,
            forall|i: int, j: int|
                0 <= i < 288 && 0 <= j < 288 && final(self).count@[tix(0, i)] > final(self).count@[tix(0, j)] > 0
                    ==> final(self).code_sizes@[#[trigger] tix(0, i)] <= final(self).code_sizes@[#[trigger] tix(0, j)],
            forall|i: int, j: int|
                0 <= i < 32 && 0 <= j < 32 && final(self).count@[tix(1, i)] > final(self).count@[tix(1, j)] > 0
                    ==> final(self).code_sizes@[#[trigger] tix(1, i)] <= final(self).code_sizes@[#[trigger] tix(1, j)],
            canonical_table(final(self).codes@, final(self).code_sizes@, 0, 288),
            canonical_table(final(self).codes@, final(self).code_sizes@, 1, 32),
            lengths_fit(final(self).code_sizes@, 0, 288),
            lengths_fit(final(self).code_sizes@, 288, 32),
            final(output).wf(),
            final(output).inner@.len() >= old(output).inner@.len(),
            final(output).inner@.subrange(0, old(output).inner@.len() as int) == old(output).inner@,
            exists|hdr: Seq<bool>|
                #[trigger] dynamic_header(hdr, final(self).codes@, final(self).code_sizes@) && final(output).stream()
                    == old(output).stream() + hdr,
            final(output).local == old(output).local,
            final(output).inner@.len() <= old(output).inner@.len() + 2048,
    {
        let ghost i0 = output.inner@;
        let ghost s0 = output.stream();
        self.count[256] = 1;
        let ghost c1 = self.count@;
        proof {
            lemma2_to64();
        }
        self.optimize_table(0, 288, 15, false);
        let ghost h0 = *self;
        proof {
            assert(canonical_table(h0.codes@, h0.code_sizes@, 0, 288));
        }
        self.optimize_table(1, 32, 15, false);
        let ghost h1 = *self;
        proof {
            lemma_canonical_table_ext(h0.codes@, h0.code_sizes@, self.codes@, self.code_sizes@, 0, 288);
            assert(canonical_table(self.codes@, self.code_sizes@, 1, 32));
            lemma_lengths_fit_ext(h0.code_sizes@, self.code_sizes@, 0, 288);
        }
        assert(self.count@ == c1);
        assert(self.code_sizes@[tix(0, 256)] != 0);

        let mut num_lit_codes: usize = 286;
        while num_lit_codes > 257 && self.code_sizes[num_lit_codes - 1] == 0
            invariant
                257 <= num_lit_codes <= 286,
                self.wf(),
                forall|i: int| num_lit_codes <= i < 286 ==> #[trigger] self.code_sizes@[i] == 0,
            decreases num_lit_codes,
        {
            num_lit_codes -= 1;
        }
        let mut num_dist_codes: usize = 30;
        while num_dist_codes > 1 && self.code_sizes[288 + num_dist_codes - 1] == 0
            invariant
                1 <= num_dist_codes <= 30,
                self.wf(),
                forall|i: int| num_dist_codes <= i < 30 ==> #[trigger] self.code_sizes@[288 + i] == 0,
            decreases num_dist_codes,
        {
            num_dist_codes -= 1;
        }

        proof {
            assert(num_lit_codes > 257 ==> self.code_sizes@[num_lit_codes - 1] != 0);
            assert(num_dist_codes > 1 ==> self.code_sizes@[288 + num_dist_codes - 1] != 0);
        }
        let mut code_sizes_to_pack: Vec<u8> = Vec::new();
        let mut i: usize = 0;
        while i < num_lit_codes
            invariant
                i <= num_lit_codes <= 286,
                self.wf(),
                code_sizes_to_pack@.len() == i,
                forall|k: int| 0 <= k < i ==> (#[trigger] code_sizes_to_pack@[k]) <= 15,
                code_sizes_to_pack@ == self.code_sizes@.subrange(0, i as int),
            decreases num_lit_codes - i,
        {
            code_sizes_to_pack.push(self.code_sizes[i]);
            i += 1;
        }
        let mut i: usize = 0;
        while i < num_dist_codes
            invariant
                i <= num_dist_codes <= 30,
                num_lit_codes <= 286,
                self.wf(),
                code_sizes_to_pack@.len() == num_lit_codes + i,
                forall|k: int| 0 <= k < code_sizes_to_pack@.len() ==> (#[trigger] code_sizes_to_pack@[k]) <= 15,
                code_sizes_to_pack@ == self.code_sizes@.subrange(0, num_lit_codes as int) + self.code_sizes@.subrange(
                    288,
                    288 + i,
                ),
            decreases num_dist_codes - i,
        {
            code_sizes_to_pack.push(self.code_sizes[288 + i]);
            i += 1;
        }

        proof {
            assert(code_sizes_to_pack@ =~= self.code_sizes@.subrange(0, num_lit_codes as int)
                + self.code_sizes@.subrange(288, 288 + num_dist_codes));
        }
        let ghost sizes01 = self.code_sizes@;
        memset_range(&mut self.count, 576, 595, 0u16);
        let ghost c2 = self.count@;
        let packed = self.pack_code_sizes(&code_sizes_to_pack);
        proof {
            let w = choose|s: int| 0 <= s < 19 && (#[trigger] self.count@[576 + s]) != 0;
            assert(self.count@[tix(2, w)] != 0);
        }
        let ghost c3 = self.count@;
        proof {
            lemma2_to64();
        }
        self.optimize_table(2, 19, 7, false);
        proof {
            assert(canonical_table(self.codes@, self.code_sizes@, 2, 19));
            assert forall|s: int| 0 <= s < 19 && #[trigger] counted(c3)(s) implies coded(self.code_sizes@)(s) by {
                assert(c3[576 + s] > 0);
                assert(self.code_sizes@[tix(2, s)] != 0);
            }
            lemma_tokens_weaken(packed@, 0, counted(c3), coded(self.code_sizes@));
        }
        let ghost w = choose|s: int| 0 <= s < 19 && (#[trigger] c3[576 + s]) != 0;
        proof {
            assert(self.code_sizes@[tix(2, w)] != 0);
            assert(self.code_sizes@[576 + w] != 0);
        }

        let ghost hs = self.code_sizes@;
        let ghost hc = self.codes@;
        output.put_bits(2, 2);
        let ghost s1 = output.stream();
        proof {
            assert(output.extends(i0, s1)) by {
                assert(output.stream().subrange(0, s1.len() as int) =~= s1);
                assert(output.inner@.subrange(0, i0.len() as int) == i0);
            }
            lemma2_to64();
        }
        output.put_bits((num_lit_codes - 257) as u32, 5);
        output.put_bits((num_dist_codes - 1) as u32, 5);

        let mut nbl: usize = 19;
        while nbl > 0 && self.code_sizes[576 + HUFFMAN_LENGTH_ORDER[nbl - 1] as usize] == 0
            invariant
                nbl <= 19,
                self.wf(),
                forall|j: int| nbl <= j < 19 ==> self.code_sizes@[576 + (#[trigger] HUFFMAN_LENGTH_ORDER@[j])] == 0,
                0 <= w < 19,
                self.code_sizes@[576 + w] != 0,
            decreases nbl,
        {
            nbl -= 1;
        }
        proof {
            if nbl == 0 {
                assert(HUFFMAN_LENGTH_ORDER@[0] == 16);
                assert(HUFFMAN_LENGTH_ORDER@[1] == 17);
                assert(HUFFMAN_LENGTH_ORDER@[2] == 18);
                assert(HUFFMAN_LENGTH_ORDER@[3] == 0);
                assert(HUFFMAN_LENGTH_ORDER@[4] == 8);
                assert(HUFFMAN_LENGTH_ORDER@[5] == 7);
                assert(HUFFMAN_LENGTH_ORDER@[6] == 9);
                assert(HUFFMAN_LENGTH_ORDER@[7] == 6);
                assert(HUFFMAN_LENGTH_ORDER@[8] == 10);
                assert(HUFFMAN_LENGTH_ORDER@[9] == 5);
                assert(HUFFMAN_LENGTH_ORDER@[10] == 11);
                assert(HUFFMAN_LENGTH_ORDER@[11] == 4);
                assert(HUFFMAN_LENGTH_ORDER@[12] == 12);
                assert(HUFFMAN_LENGTH_ORDER@[13] == 3);
                assert(HUFFMAN_LENGTH_ORDER@[14] == 13);
                assert(HUFFMAN_LENGTH_ORDER@[15] == 2);
                assert(HUFFMAN_LENGTH_ORDER@[16] == 14);
                assert(HUFFMAN_LENGTH_ORDER@[17] == 1);
                assert(HUFFMAN_LENGTH_ORDER@[18] == 15);
                assert(false);
            }
        }
        proof {
            assert(self.code_sizes@[576 + HUFFMAN_LENGTH_ORDER@[nbl - 1]] != 0);
        }
        // The number of code lengths sent: up to the last nonzero one in the order, at least 4.
        let trailing = 19 - nbl;
        let mut num_bit_lengths: usize = 18 - trailing;
        if num_bit_lengths + 1 > 4 {
            num_bit_lengths = num_bit_lengths + 1;
        } else {
            num_bit_lengths = 4;
        }
        output.put_bits((num_bit_lengths - 4) as u32, 4);
        let ghost sb = output.stream();
        proof {
            assert(cl_sizes_bits(self.code_sizes@, 0) =~= Seq::<bool>::empty());
            assert(sb + cl_sizes_bits(self.code_sizes@, 0) =~= sb);
        }
        let ghost ib = output.inner@.len();
        assert(ib <= i0.len() + 12);
        let mut j: usize = 0;
        while j < num_bit_lengths
            invariant
                j <= num_bit_lengths <= 19,
                self.wf(),
                forall|x: int| 0 <= x < 288 ==> (#[trigger] self.code_sizes@[tix(2, x)]) <= 7,
                output.extends(i0, s1),
                output.local == old(output).local,
                output.inner@.len() <= ib + 3 * j,
                self.code_sizes@ == hs,
                output.stream() == sb + cl_sizes_bits(hs, j as int),
            decreases num_bit_lengths - j,
        {
            let sz = self.code_sizes[576 + HUFFMAN_LENGTH_ORDER[j] as usize];
            proof {
                assert(self.code_sizes@[tix(2, HUFFMAN_LENGTH_ORDER@[j as int] as int)] <= 7);
                lemma2_to64();
            }
            output.put_bits(sz as u32, 3);
            proof {
                assert(output.stream() =~= sb + cl_sizes_bits(hs, j + 1));
            }
            j += 1;
        }
        let ghost sp = output.stream();
        proof {
            assert(sp + tokens_bits(hc, hs, packed@, 0) =~= sp + tokens_bits(hc, hs, packed@, 0));
        }

        let ghost ip = output.inner@.len();
        assert(ip <= i0.len() + 12 + 57);
        let mut idx: usize = 0;
        while idx < packed.len()
            invariant
                rle_ok(packed@, idx as int),
                self.wf(),
                output.extends(i0, s1),
                output.local == old(output).local,
                output.inner@.len() <= ip + 6 * idx,
                packed@.len() <= 316,
                idx <= packed@.len(),
                self.code_sizes@ == hs,
                self.codes@ == hc,
                output.stream() + tokens_bits(hc, hs, packed@, idx as int) == sp + tokens_bits(hc, hs, packed@, 0),
            decreases packed@.len() - idx,
        {
            let ghost st = output.stream();
            let ghost i_at = idx as int;
            let code = packed[idx] as usize;
            idx += 1;
            proof {
                lemma_pow2_strictly_increases(self.code_sizes@[576 + code] as nat, 24);
            }
            output.put_bits(self.codes[576 + code] as u32, self.code_sizes[576 + code] as u32);
            if code >= 16 {
                let extra_bits: u32 = if code == 16 {
                    2
                } else if code == 17 {
                    3
                } else {
                    7
                };
                proof {
                    lemma2_to64();
                }
                output.put_bits(packed[idx] as u32, extra_bits);
                idx += 1;
            }
            proof {
                let c = packed@[i_at];
                let sym = bits_of(hc[576 + c] as nat, hs[576 + c] as nat);
                if c < 16 {
                    assert(tokens_bits(hc, hs, packed@, i_at) == sym + tokens_bits(hc, hs, packed@, i_at + 1));
                    assert(output.stream() + tokens_bits(hc, hs, packed@, idx as int) =~= st + tokens_bits(
                        hc,
                        hs,
                        packed@,
                        i_at,
                    ));
                } else {
                    assert(tokens_bits(hc, hs, packed@, i_at) == sym + bits_of(
                        packed@[i_at + 1] as nat,
                        run_extra_bits(c),
                    ) + tokens_bits(hc, hs, packed@, i_at + 2));
                    assert(output.stream() + tokens_bits(hc, hs, packed@, idx as int) =~= st + tokens_bits(
                        hc,
                        hs,
                        packed@,
                        i_at,
                    ));
                }
            }
        }
        proof {
            assert(s1 == s0 + bits_of(2, 2));
            assert(tokens_bits(hc, hs, packed@, packed@.len() as int) =~= Seq::<bool>::empty());
            let hdr = bits_of(2, 2) + bits_of((num_lit_codes - 257) as nat, 5) + bits_of(
                (num_dist_codes - 1) as nat,
                5,
            ) + bits_of((num_bit_lengths - 4) as nat, 4) + cl_sizes_bits(hs, num_bit_lengths as int)
                + tokens_bits(hc, hs, packed@, 0);
            assert(output.stream() =~= s0 + hdr);
            assert(hs.subrange(0, num_lit_codes as int) =~= sizes01.subrange(0, num_lit_codes as int));
            assert(hs.subrange(288, 288 + num_dist_codes) =~= sizes01.subrange(288, 288 + num_dist_codes));
            assert forall|j: int| num_bit_lengths <= j < 19 implies hs[576 + #[trigger] HUFFMAN_LENGTH_ORDER@[j]] == 0 by {
            }
            if num_lit_codes > 257 {
                assert(hs.subrange(0, num_lit_codes as int)[num_lit_codes - 1] == sizes01.subrange(
                    0,
                    num_lit_codes as int,
                )[num_lit_codes - 1]);
            }
            if num_dist_codes > 1 {
                assert(hs.subrange(288, 288 + num_dist_codes)[num_dist_codes - 1] == sizes01.subrange(
                    288,
                    288 + num_dist_codes,
                )[num_dist_codes - 1]);
            }
            assert forall|j: int| 0 <= j < 19 implies #[trigger] hs[576 + j] <= 7 by {
                assert(hs[tix(2, j)] <= 7);
            }
            assert(dyn_header_with(
                hdr,
                hc,
                hs,
                num_lit_codes as int,
                num_dist_codes as int,
                num_bit_lengths as int,
                packed@,
            ));
            assert(dynamic_header(hdr, self.codes@, self.code_sizes@));
            lemma_canonical_table_ext(h1.codes@, h1.code_sizes@, self.codes@, self.code_sizes@, 0, 288);
            lemma_canonical_table_ext(h1.codes@, h1.code_sizes@, self.codes@, self.code_sizes@, 1, 32);
            lemma_lengths_fit_ext(h1.code_sizes@, self.code_sizes@, 0, 288);
            lemma_lengths_fit_ext(h1.code_sizes@, self.code_sizes@, 1, 32);
            assert forall|i: int, j: int|
                0 <= i < 288 && 0 <= j < 288 && self.count@[tix(0, i)] > self.count@[tix(0, j)] > 0 implies
                self.code_sizes@[#[trigger] tix(0, i)] <= self.code_sizes@[#[trigger] tix(0, j)] by {
                assert(h0.code_sizes@[tix(0, i)] <= h0.code_sizes@[tix(0, j)]);
                assert(h1.code_sizes@[tix(0, i)] == h0.code_sizes@[tix(0, i)]);
                assert(h1.code_sizes@[tix(0, j)] == h0.code_sizes@[tix(0, j)]);
            }
            assert forall|i: int, j: int|
                0 <= i < 32 && 0 <= j < 32 && self.count@[tix(1, i)] > self.count@[tix(1, j)] > 0 implies
                self.code_sizes@[#[trigger] tix(1, i)] <= self.code_sizes@[#[trigger] tix(1, j)] by {
                assert(h1.code_sizes@[tix(1, i)] <= h1.code_sizes@[tix(1, j)]);
            }
        }
    }
}

} // verus!
