//! Canonical Huffman codes are prefix codes: as sent, no symbol's code begins another's,
//! as long as the code lengths fit the code space (their Kraft sum is at most one).

use vstd::prelude::*;
use vstd::arithmetic::power2::*;
use vstd::arithmetic::div_mod::*;
use vstd::arithmetic::mul::*;
use crate::bits::bits_of;
use crate::huffman::{len_count, first_code, rev_onto, canonical_code, canonical_table, tix, seg_kraft, lemma_len_count_ext, lemma_len_count_none};
use crate::block::fixed_litlen_size;

verus! {

/// The `l` low bits of `c`, most significant first.
pub open spec fn msb_bits(c: nat, l: nat) -> Seq<bool>
    decreases l,
{
    if l == 0 {
        Seq::empty()
    } else {
        msb_bits(c / 2, (l - 1) as nat).push(c % 2 == 1)
    }
}

/// The Kraft sum of the code lengths 1 to `l` among the `n` of the table at `lo`, in units
/// of `2^-15`.
pub open spec fn kraft_len(sizes: Seq<u8>, lo: int, n: int, l: nat) -> nat
    decreases l,
{
    if l == 0 {
        0
    } else {
        kraft_len(sizes, lo, n, (l - 1) as nat) + len_count(sizes, lo, n, l as int) * pow2((15 - l) as nat)
    }
}

/// The code lengths of the table fit the code space: their Kraft sum is at most one.
pub closed spec fn lengths_fit(sizes: Seq<u8>, lo: int, n: int) -> bool {
    kraft_len(sizes, lo, n, 15) <= pow2(15)
}

proof fn lemma_msb_len(c: nat, l: nat)
    ensures
        msb_bits(c, l).len() == l,
    decreases l,
{
    if l > 0 {
        lemma_msb_len(c / 2, (l - 1) as nat);
    }
}

/// The bits of `r` with the `n` low bits of `c` moved onto it, least significant first:
/// those `n` bits most significant first, then the bits of `r`.
proof fn lemma_rev_bits(r: nat, c: nat, n: nat, k: nat)
    ensures
        bits_of(rev_onto(r, c, n), n + k) == msb_bits(c, n) + bits_of(r, k),
    decreases n,
{
    if n == 0 {
        assert(msb_bits(c, 0) + bits_of(r, k) =~= bits_of(r, k));
    } else {
        let r2 = 2 * r + c % 2;
        lemma_rev_bits(r2, c / 2, (n - 1) as nat, k + 1);
        assert(r2 % 2 == c % 2);
        assert(r2 / 2 == r);
        assert(((n - 1) as nat + (k + 1)) as nat == n + k);
        assert(bits_of(r2, k + 1) == seq![c % 2 == 1] + bits_of(r, k));
        assert(msb_bits(c / 2, (n - 1) as nat) + bits_of(r2, k + 1) =~= msb_bits(c, n) + bits_of(r, k));
    }
}

/// The first `l1` of the `l2` bits of `c` are the bits of `c` without its low `l2 - l1`.
proof fn lemma_msb_take(c: nat, l1: nat, l2: nat)
    requires
        l1 <= l2,
    ensures
        msb_bits(c, l2).take(l1 as int) == msb_bits(c / pow2((l2 - l1) as nat), l1),
    decreases l2,
{
    lemma_msb_len(c, l2);
    if l1 == l2 {
        lemma2_to64();
        assert((l2 - l1) as nat == 0);
        assert(c / 1 == c);
        assert(msb_bits(c, l2).take(l1 as int) =~= msb_bits(c, l2));
    } else {
        let m = (l2 - 1 - l1) as nat;
        lemma_msb_take(c / 2, l1, (l2 - 1) as nat);
        lemma_msb_len(c / 2, (l2 - 1) as nat);
        assert(msb_bits(c, l2).take(l1 as int) =~= msb_bits(c / 2, (l2 - 1) as nat).take(l1 as int));
        assert((l2 - l1) as nat == m + 1);
        lemma_pow2_unfold((l2 - l1) as nat);
        lemma_pow2_pos(m);
        assert(pow2((l2 - l1) as nat) == 2 * pow2(m));
        lemma_div_denominator(c as int, 2, pow2(m) as int);
        assert((c / 2) / pow2(m) == c / pow2((l2 - l1) as nat));
        assert(((l2 - 1) as nat - l1) as nat == m);
        assert(msb_bits(c, l2).take(l1 as int) == msb_bits((c / 2) / pow2(m), l1));
    }
}

/// Numbers below `2^l` are told apart by their `l` bits.
proof fn lemma_msb_inj(a: nat, b: nat, l: nat)
    requires
        a < pow2(l),
        b < pow2(l),
        msb_bits(a, l) == msb_bits(b, l),
    ensures
        a == b,
    decreases l,
{
    if l == 0 {
        lemma2_to64();
    } else {
        let sa = msb_bits(a, l);
        let sb = msb_bits(b, l);
        lemma_msb_len(a / 2, (l - 1) as nat);
        lemma_msb_len(b / 2, (l - 1) as nat);
        assert(sa.last() == (a % 2 == 1));
        assert(sb.last() == (b % 2 == 1));
        assert(sa.drop_last() =~= msb_bits(a / 2, (l - 1) as nat));
        assert(sb.drop_last() =~= msb_bits(b / 2, (l - 1) as nat));
        lemma_pow2_unfold(l);
        lemma_multiply_divide_lt(a as int, 2, pow2((l - 1) as nat) as int);
        lemma_multiply_divide_lt(b as int, 2, pow2((l - 1) as nat) as int);
        lemma_msb_inj(a / 2, b / 2, (l - 1) as nat);
        lemma_fundamental_div_mod(a as int, 2);
        lemma_fundamental_div_mod(b as int, 2);
    }
}

proof fn lemma_len_count_mono(sizes: Seq<u8>, lo: int, k1: int, k2: int, l: int)
    requires
        0 <= k1 <= k2,
    ensures
        len_count(sizes, lo, k1, l) <= len_count(sizes, lo, k2, l),
    decreases k2,
{
    if k2 > k1 {
        lemma_len_count_mono(sizes, lo, k1, k2 - 1, l);
    }
}

/// A symbol's rank among those of its length comes before the number of them, and two
/// symbols of one length have different ranks.
proof fn lemma_rank(sizes: Seq<u8>, lo: int, n: int, x: int, y: int)
    requires
        0 <= x < n,
        0 <= y < n,
        x != y,
        sizes[lo + x] == sizes[lo + y],
    ensures
        len_count(sizes, lo, x, sizes[lo + x] as int) < len_count(sizes, lo, n, sizes[lo + x] as int),
        len_count(sizes, lo, x, sizes[lo + x] as int) != len_count(sizes, lo, y, sizes[lo + x] as int),
{
    let l = sizes[lo + x] as int;
    assert(len_count(sizes, lo, x + 1, l) == len_count(sizes, lo, x, l) + 1);
    assert(len_count(sizes, lo, y + 1, l) == len_count(sizes, lo, y, l) + 1);
    lemma_len_count_mono(sizes, lo, x + 1, n, l);
    if x < y {
        lemma_len_count_mono(sizes, lo, x + 1, y, l);
    } else {
        lemma_len_count_mono(sizes, lo, y + 1, x, l);
    }
}

/// The codes of a longer length start after those of a shorter one, shifted up.
proof fn lemma_first_grows(sizes: Seq<u8>, lo: int, n: int, l1: nat, l2: nat)
    requires
        1 <= l1 < l2,
    ensures
        first_code(sizes, lo, n, l2) >= pow2((l2 - l1) as nat) * (first_code(sizes, lo, n, l1) + len_count(
            sizes,
            lo,
            n,
            l1 as int,
        )),
    decreases l2,
{
    let e = first_code(sizes, lo, n, l1) + len_count(sizes, lo, n, l1 as int);
    lemma_pow2_unfold((l2 - l1) as nat);
    if l2 == l1 + 1 {
        lemma2_to64();
    } else {
        lemma_first_grows(sizes, lo, n, l1, (l2 - 1) as nat);
        let f = first_code(sizes, lo, n, (l2 - 1) as nat);
        let p = pow2((l2 - 1 - l1) as nat);
        assert(((l2 - l1) as nat - 1) as nat == (l2 - 1 - l1) as nat);
        assert(first_code(sizes, lo, n, l2) >= 2 * f);
        assert(2 * f >= 2 * (p * e)) by (nonlinear_arith)
            requires
                f >= p * e,
        ;
        assert(2 * (p * e) == (2 * p) * e) by (nonlinear_arith);
    }
}

/// With lengths that fit, the codes of each length fit in that many bits.
proof fn lemma_codes_fit(sizes: Seq<u8>, lo: int, n: int, l: nat)
    requires
        1 <= l <= 15,
        lengths_fit(sizes, lo, n),
    ensures
        first_code(sizes, lo, n, l) + len_count(sizes, lo, n, l as int) <= pow2(l),
{
    lemma_first_scaled(sizes, lo, n, l);
    lemma_kraft_mono(sizes, lo, n, l, 15);
    let e = first_code(sizes, lo, n, l) + len_count(sizes, lo, n, l as int);
    let q = pow2((15 - l) as nat);
    lemma_pow2_adds(l, (15 - l) as nat);
    assert((l + (15 - l) as nat) as nat == 15);
    lemma_pow2_pos((15 - l) as nat);
    assert(e * q == kraft_len(sizes, lo, n, l));
    assert(e * q <= pow2(l) * q);
    lemma_mul_inequality_converse(e as int, pow2(l) as int, q as int);
}

/// Scaled to `2^15`, the first code of a length is the Kraft sum of the shorter lengths.
proof fn lemma_first_scaled(sizes: Seq<u8>, lo: int, n: int, l: nat)
    requires
        1 <= l <= 15,
    ensures
        (first_code(sizes, lo, n, l) + len_count(sizes, lo, n, l as int)) * pow2((15 - l) as nat) == kraft_len(
            sizes,
            lo,
            n,
            l,
        ),
    decreases l,
{
    let c = len_count(sizes, lo, n, l as int);
    let q = pow2((15 - l) as nat);
    if l == 1 {
        assert(kraft_len(sizes, lo, n, 0) == 0);
        assert((0 + c) * q == c * q);
    } else {
        lemma_first_scaled(sizes, lo, n, (l - 1) as nat);
        let f1 = first_code(sizes, lo, n, (l - 1) as nat);
        let c1 = len_count(sizes, lo, n, l - 1);
        let q1 = pow2((15 - (l - 1)) as nat);
        lemma_pow2_unfold((15 - (l - 1)) as nat);
        assert(((15 - (l - 1)) as nat - 1) as nat == (15 - l) as nat);
        assert(q1 == 2 * q);
        let f = first_code(sizes, lo, n, l);
        assert(f == 2 * (f1 + c1));
        assert((f + c) * q == (f1 + c1) * q1 + c * q) by (nonlinear_arith)
            requires
                f == 2 * (f1 + c1),
                q1 == 2 * q,
        ;
    }
}

proof fn lemma_kraft_mono(sizes: Seq<u8>, lo: int, n: int, l1: nat, l2: nat)
    requires
        l1 <= l2,
    ensures
        kraft_len(sizes, lo, n, l1) <= kraft_len(sizes, lo, n, l2),
    decreases l2,
{
    if l2 > l1 {
        lemma_kraft_mono(sizes, lo, n, l1, (l2 - 1) as nat);
    }
}

/// The canonical codes of a table whose code lengths fit the code space form a prefix
/// code: as sent, the code of a symbol never begins the code of another symbol of the
/// same or a greater length.
pub proof fn lemma_canonical_prefix_free(sizes: Seq<u8>, lo: int, n: int, x: int, y: int)
    requires
        0 <= x < n,
        0 <= y < n,
        x != y,
        0 < sizes[lo + x] <= sizes[lo + y] <= 15,
        lengths_fit(sizes, lo, n),
    ensures
        bits_of(canonical_code(sizes, lo, n, y), sizes[lo + y] as nat).take(sizes[lo + x] as int) != bits_of(
            canonical_code(sizes, lo, n, x),
            sizes[lo + x] as nat,
        ),
{
    let l1 = sizes[lo + x] as nat;
    let l2 = sizes[lo + y] as nat;
    let c1 = first_code(sizes, lo, n, l1) + len_count(sizes, lo, x, l1 as int);
    let c2 = first_code(sizes, lo, n, l2) + len_count(sizes, lo, y, l2 as int);
    lemma_rev_bits(0, c1, l1, 0);
    lemma_rev_bits(0, c2, l2, 0);
    assert(msb_bits(c1, l1) + bits_of(0, 0) =~= msb_bits(c1, l1));
    assert(msb_bits(c2, l2) + bits_of(0, 0) =~= msb_bits(c2, l2));
    lemma_msb_take(c2, l1, l2);
    lemma_codes_fit(sizes, lo, n, l1);
    lemma_codes_fit(sizes, lo, n, l2);
    assert(len_count(sizes, lo, x + 1, l1 as int) == len_count(sizes, lo, x, l1 as int) + 1);
    assert(len_count(sizes, lo, y + 1, l2 as int) == len_count(sizes, lo, y, l2 as int) + 1);
    lemma_len_count_mono(sizes, lo, x + 1, n, l1 as int);
    lemma_len_count_mono(sizes, lo, y + 1, n, l2 as int);
    let d = (l2 - l1) as nat;
    let pd = pow2(d);
    let q = c2 / pd;
    lemma_pow2_pos(d);
    lemma_pow2_adds(d, l1);
    assert((d + l1) as nat == l2);
    lemma_multiply_divide_lt(c2 as int, pd as int, pow2(l1) as int);
    if msb_bits(q, l1) == msb_bits(c1, l1) {
        lemma_msb_inj(q, c1, l1);
        if l1 == l2 {
            lemma2_to64();
            assert(d == 0);
            assert(pd == 1);
            assert(c2 / 1 == c2);
            assert(q == c2);
            lemma_rank(sizes, lo, n, x, y);
        } else {
            let e1 = first_code(sizes, lo, n, l1) + len_count(sizes, lo, n, l1 as int);
            lemma_first_grows(sizes, lo, n, l1, l2);
            assert(c2 >= pd * e1);
            lemma_div_multiples_vanish(e1 as int, pd as int);
            lemma_div_is_ordered((pd * e1) as int, c2 as int, pd as int);
            assert(q >= e1);
        }
    }
}

/// The codes of a canonical table whose lengths fit the code space form a prefix code:
/// as sent, the code of a symbol never begins the code of another symbol of the same or a
/// greater length.
pub proof fn lemma_table_prefix_free(codes: Seq<u16>, sizes: Seq<u8>, t: int, n: int, x: int, y: int)
    requires
        canonical_table(codes, sizes, t, n),
        lengths_fit(sizes, t * 288, n),
        0 <= x < n,
        0 <= y < n,
        x != y,
        0 < sizes[tix(t, x)] <= sizes[tix(t, y)] <= 15,
    ensures
        bits_of(codes[tix(t, y)] as nat, sizes[tix(t, y)] as nat).take(sizes[tix(t, x)] as int) != bits_of(
            codes[tix(t, x)] as nat,
            sizes[tix(t, x)] as nat,
        ),
{
    lemma_canonical_prefix_free(sizes, t * 288, n, x, y);
}

/// The Kraft sum sees only the lengths of its table.
pub proof fn lemma_kraft_len_ext(a: Seq<u8>, b: Seq<u8>, lo: int, n: int, l: nat)
    requires
        forall|x: int| 0 <= x < n ==> #[trigger] a[lo + x] == b[lo + x],
    ensures
        kraft_len(a, lo, n, l) == kraft_len(b, lo, n, l),
    decreases l,
{
    if l > 0 {
        lemma_kraft_len_ext(a, b, lo, n, (l - 1) as nat);
        lemma_len_count_ext(a, b, lo, n, l as int);
    }
}

/// Lengths at most `lim` counted by `num`, whose Kraft sum below `lim` is at most one,
/// fit the code space.
pub proof fn lemma_fit_from_counts(sizes: Seq<u8>, lo: int, n: int, num: Seq<i32>, lim: int)
    requires
        1 <= lim <= 15,
        num.len() > lim,
        forall|d: int| 1 <= d <= lim ==> #[trigger] num[d] == len_count(sizes, lo, n, d),
        forall|x: int| 0 <= x < n ==> #[trigger] sizes[lo + x] <= lim,
        seg_kraft(num, 1, lim + 1, lim) <= pow2(lim as nat),
    ensures
        lengths_fit(sizes, lo, n),
{
    lemma_kraft_scaled(sizes, lo, n, num, lim, lim);
    lemma_kraft_flat(sizes, lo, n, lim, 15);
    lemma_pow2_adds((15 - lim) as nat, lim as nat);
    assert(((15 - lim) as nat + lim as nat) as nat == 15);
    lemma_pow2_pos((15 - lim) as nat);
    lemma_mul_inequality(seg_kraft(num, 1, lim + 1, lim), pow2(lim as nat) as int, pow2((15 - lim) as nat) as int);
    lemma_mul_is_commutative(seg_kraft(num, 1, lim + 1, lim), pow2((15 - lim) as nat) as int);
    lemma_mul_is_commutative(pow2(lim as nat) as int, pow2((15 - lim) as nat) as int);
}

/// Below `lim`, the Kraft sum in units of `2^-15` is that of the counts in units of
/// `2^-lim`, scaled.
proof fn lemma_kraft_scaled(sizes: Seq<u8>, lo: int, n: int, num: Seq<i32>, lim: int, l: int)
    requires
        1 <= lim <= 15,
        0 <= l <= lim,
        num.len() > lim,
        forall|d: int| 1 <= d <= lim ==> #[trigger] num[d] == len_count(sizes, lo, n, d),
    ensures
        kraft_len(sizes, lo, n, l as nat) == pow2((15 - lim) as nat) * seg_kraft(num, 1, l + 1, lim),
    decreases l,
{
    if l == 0 {
        assert(seg_kraft(num, 1, 1, lim) == 0);
    } else {
        lemma_kraft_scaled(sizes, lo, n, num, lim, l - 1);
        let a = pow2((15 - lim) as nat);
        let b = pow2((lim - l) as nat);
        lemma_pow2_adds((15 - lim) as nat, (lim - l) as nat);
        assert(((15 - lim) as nat + (lim - l) as nat) as nat == (15 - l) as nat);
        let c = len_count(sizes, lo, n, l);
        let k0 = seg_kraft(num, 1, l, lim);
        assert(seg_kraft(num, 1, l + 1, lim) == k0 + num[l] * b);
        assert(a * (k0 + c * b) == a * k0 + c * (a * b)) by (nonlinear_arith);
    }
}

/// Lengths above `lim` add nothing where no length exceeds `lim`.
proof fn lemma_kraft_flat(sizes: Seq<u8>, lo: int, n: int, lim: int, l: int)
    requires
        1 <= lim <= l <= 15,
        forall|x: int| 0 <= x < n ==> #[trigger] sizes[lo + x] <= lim,
    ensures
        kraft_len(sizes, lo, n, l as nat) == kraft_len(sizes, lo, n, lim as nat),
    decreases l,
{
    if l > lim {
        lemma_kraft_flat(sizes, lo, n, lim, l - 1);
        assert forall|x: int| 0 <= x < n implies #[trigger] sizes[lo + x] != l by {
            assert(sizes[lo + x] <= lim);
        }
        lemma_len_count_none(sizes, lo, n, l);
    }
}

/// Counting a length over a run of equal lengths.
proof fn lemma_len_count_run(sizes: Seq<u8>, lo: int, a: int, b: int, v: u8, l: int)
    requires
        0 <= a <= b,
        forall|x: int| a <= x < b ==> #[trigger] sizes[lo + x] == v,
    ensures
        len_count(sizes, lo, b, l) == len_count(sizes, lo, a, l) + (if v == l { b - a } else { 0 }),
    decreases b - a,
{
    if b > a {
        lemma_len_count_run(sizes, lo, a, b - 1, v, l);
        assert(sizes[lo + (b - 1)] == v);
    }
}

/// The fixed code lengths fill the code space exactly.
pub proof fn lemma_fixed_fit(sizes: Seq<u8>)
    requires
        forall|i: int| 0 <= i < 288 ==> #[trigger] sizes[tix(0, i)] == fixed_litlen_size(i),
        forall|i: int| 0 <= i < 32 ==> #[trigger] sizes[tix(1, i)] == 5,
    ensures
        lengths_fit(sizes, 0, 288),
        lengths_fit(sizes, 288, 32),
{
    assert forall|x: int| 0 <= x < 144 implies #[trigger] sizes[0 + x] == 8u8 by {
        assert(sizes[tix(0, x)] == fixed_litlen_size(x));
    }
    assert forall|x: int| 144 <= x < 256 implies #[trigger] sizes[0 + x] == 9u8 by {
        assert(sizes[tix(0, x)] == fixed_litlen_size(x));
    }
    assert forall|x: int| 256 <= x < 280 implies #[trigger] sizes[0 + x] == 7u8 by {
        assert(sizes[tix(0, x)] == fixed_litlen_size(x));
    }
    assert forall|x: int| 280 <= x < 288 implies #[trigger] sizes[0 + x] == 8u8 by {
        assert(sizes[tix(0, x)] == fixed_litlen_size(x));
    }
    assert forall|x: int| 0 <= x < 32 implies #[trigger] sizes[288 + x] == 5u8 by {
        assert(sizes[tix(1, x)] == 5);
    }
    assert forall|l: int| 1 <= l <= 15 implies len_count(sizes, 0, 288, l) == (if l == 7 {
        24int
    } else if l == 8 {
        152int
    } else if l == 9 {
        112int
    } else {
        0int
    }) && len_count(sizes, 288, 32, l) == (if l == 5 { 32int } else { 0int }) by {
        lemma_len_count_run(sizes, 0, 0, 144, 8, l);
        lemma_len_count_run(sizes, 0, 144, 256, 9, l);
        lemma_len_count_run(sizes, 0, 256, 280, 7, l);
        lemma_len_count_run(sizes, 0, 280, 288, 8, l);
        lemma_len_count_run(sizes, 288, 0, 32, 5, l);
    }
    lemma2_to64();
    reveal_with_fuel(kraft_len, 16);
    assert(kraft_len(sizes, 0, 288, 15) == 24 * pow2(8) + 152 * pow2(7) + 112 * pow2(6));
    assert(kraft_len(sizes, 288, 32, 15) == 32 * pow2(10));
}

/// A table's lengths keep fitting while they are kept.
pub proof fn lemma_lengths_fit_ext(a: Seq<u8>, b: Seq<u8>, t: int, n: int)
    requires
        lengths_fit(a, t * 288, n),
        0 <= n <= 288,
        forall|y: int| 0 <= y < 288 ==> #[trigger] b[tix(t, y)] == a[tix(t, y)],
    ensures
        lengths_fit(b, t * 288, n),
{
    assert forall|x: int| 0 <= x < n implies #[trigger] a[t * 288 + x] == b[t * 288 + x] by {
        assert(b[tix(t, x)] == a[tix(t, x)]);
    }
    lemma_kraft_len_ext(a, b, t * 288, n, 15);
}

} // verus!
