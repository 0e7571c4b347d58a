//! The model of sorting symbols by key, one byte of the key at a time.
//!
//! A pass distributes the symbols into 256 buckets by one byte of their key, keeping
//! their order within each bucket, and lists the buckets in order.

use vstd::prelude::*;
use vstd::multiset::Multiset;
use crate::huffman::SymFreq;

verus! {

/// The byte of the key that pass `pass` sorts by.
pub open spec fn digit(x: SymFreq, pass: int) -> int {
    if pass == 0 {
        (x.key % 256) as int
    } else {
        (x.key / 256) as int
    }
}

/// The symbols of `s` whose byte `pass` is `d`, in their order in `s`.
pub open spec fn bucket(s: Seq<SymFreq>, pass: int, d: int) -> Seq<SymFreq>
    decreases s.len(),
{
    if s.len() == 0 {
        Seq::empty()
    } else {
        let b = bucket(s.drop_last(), pass, d);
        if digit(s.last(), pass) == d {
            b.push(s.last())
        } else {
            b
        }
    }
}

/// The buckets `0..d` one after the other.
pub open spec fn buckets_below(s: Seq<SymFreq>, pass: int, d: int) -> Seq<SymFreq>
    decreases d,
{
    if d <= 0 {
        Seq::empty()
    } else {
        buckets_below(s, pass, d - 1) + bucket(s, pass, d - 1)
    }
}

/// The result of one pass.
pub open spec fn radix_pass_spec(s: Seq<SymFreq>, pass: int) -> Seq<SymFreq> {
    buckets_below(s, pass, 256)
}

pub open spec fn sorted_by_digit(s: Seq<SymFreq>, pass: int) -> bool {
    forall|i: int, j: int| 0 <= i < j < s.len() ==> digit(#[trigger] s[i], pass) <= digit(#[trigger] s[j], pass)
}

/// Sorting by key in one pass by the low byte when every key fits in a byte, else in two
/// passes, low byte first: each pass keeps the order of equal bytes.
pub closed spec fn radix_sorted(s: Seq<SymFreq>) -> Seq<SymFreq> {
    if count_low(s) == s.len() {
        radix_pass_spec(s, 0)
    } else {
        radix_pass_spec(radix_pass_spec(s, 0), 1)
    }
}

/// The passes of `radix_sorted`.
pub proof fn lemma_radix_sorted(s: Seq<SymFreq>)
    ensures
        count_low(s) == s.len() ==> radix_sorted(s) == radix_pass_spec(s, 0),
        count_low(s) != s.len() ==> radix_sorted(s) == radix_pass_spec(radix_pass_spec(s, 0), 1),
{
}

/// The keys do not decrease.
pub open spec fn sorted_by_key(s: Seq<SymFreq>) -> bool {
    forall|i: int, j: int| 0 <= i < j < s.len() ==> (#[trigger] s[i]).key <= (#[trigger] s[j]).key
}

pub proof fn lemma_bucket_push(s: Seq<SymFreq>, e: SymFreq, pass: int, d: int)
    ensures
        bucket(s.push(e), pass, d) == if digit(e, pass) == d {
            bucket(s, pass, d).push(e)
        } else {
            bucket(s, pass, d)
        },
{
    assert(s.push(e).drop_last() =~= s);
}

/// Every symbol of a bucket has the bucket's byte and comes from `s`.
pub proof fn lemma_bucket_elems(s: Seq<SymFreq>, pass: int, d: int)
    ensures
        forall|m: int| 0 <= m < bucket(s, pass, d).len() ==> digit(#[trigger] bucket(s, pass, d)[m], pass) == d,
        forall|m: int| 0 <= m < bucket(s, pass, d).len() ==> s.contains(#[trigger] bucket(s, pass, d)[m]),
        bucket(s, pass, d).len() <= s.len(),
    decreases s.len(),
{
    if s.len() > 0 {
        lemma_bucket_elems(s.drop_last(), pass, d);
        let b = bucket(s.drop_last(), pass, d);
        assert forall|m: int| 0 <= m < bucket(s, pass, d).len() implies s.contains(
            #[trigger] bucket(s, pass, d)[m],
        ) by {
            if m < b.len() {
                let x = b[m];
                assert(s.drop_last().contains(x));
                let i = choose|i: int| 0 <= i < s.drop_last().len() && s.drop_last()[i] == x;
                assert(s[i] == x);
            } else {
                assert(s[s.len() - 1] == s.last());
            }
        }
    }
}

/// The bucket of a prefix is a prefix of the bucket.
pub proof fn lemma_bucket_take(s: Seq<SymFreq>, k: int, pass: int, d: int)
    requires
        0 <= k <= s.len(),
    ensures
        bucket(s.take(k), pass, d).len() <= bucket(s, pass, d).len(),
        forall|m: int| 0 <= m < bucket(s.take(k), pass, d).len() ==> #[trigger] bucket(s.take(k), pass, d)[m] == bucket(s, pass, d)[m],
    decreases s.len() - k,
{
    if k < s.len() {
        lemma_bucket_take(s, k + 1, pass, d);
        assert(s.take(k + 1) =~= s.take(k).push(s[k]));
        lemma_bucket_push(s.take(k), s[k], pass, d);
        let b0 = bucket(s.take(k), pass, d);
        let b1 = bucket(s.take(k + 1), pass, d);
        assert forall|m: int| 0 <= m < b0.len() implies #[trigger] b0[m] == bucket(s, pass, d)[m] by {
            assert(b1[m] == b0[m]);
            assert(b1[m] == bucket(s, pass, d)[m]);
        }
    } else {
        assert(s.take(k) =~= s);
    }
}

/// Each symbol lands in exactly one of the buckets below 256.
pub proof fn lemma_buckets_below_push(s: Seq<SymFreq>, e: SymFreq, pass: int, d: int)
    requires
        0 <= d,
    ensures
        buckets_below(s.push(e), pass, d).len() == buckets_below(s, pass, d).len() + (if digit(e, pass) < d {
            1int
        } else {
            0int
        }),
        buckets_below(s.push(e), pass, d).to_multiset() == if digit(e, pass) < d {
            buckets_below(s, pass, d).to_multiset().insert(e)
        } else {
            buckets_below(s, pass, d).to_multiset()
        },
    decreases d,
{
    broadcast use vstd::seq_lib::lemma_multiset_commutative;
    broadcast use vstd::multiset::group_multiset_axioms;
    broadcast use vstd::seq_lib::group_to_multiset_ensures;

    if d > 0 {
        lemma_buckets_below_push(s, e, pass, d - 1);
        lemma_bucket_push(s, e, pass, d - 1);
        if digit(e, pass) == d - 1 {
            assert(buckets_below(s.push(e), pass, d).to_multiset() =~= buckets_below(s, pass, d).to_multiset().insert(e));
        } else if digit(e, pass) < d - 1 {
            assert(buckets_below(s.push(e), pass, d).to_multiset() =~= buckets_below(s, pass, d).to_multiset().insert(e));
        } else {
            assert(buckets_below(s.push(e), pass, d).to_multiset() =~= buckets_below(s, pass, d).to_multiset());
        }
    } else {
        assert(buckets_below(s.push(e), pass, d) =~= buckets_below(s, pass, d));
    }
}

pub proof fn lemma_digit_bound(x: SymFreq, pass: int)
    ensures
        0 <= digit(x, pass) < 256,
{
}

/// A pass keeps the symbols: same length, same multiset.
pub proof fn lemma_pass_permutes(s: Seq<SymFreq>, pass: int)
    ensures
        radix_pass_spec(s, pass).len() == s.len(),
        radix_pass_spec(s, pass).to_multiset() == s.to_multiset(),
    decreases s.len(),
{
    broadcast use vstd::multiset::group_multiset_axioms;
    broadcast use vstd::seq_lib::group_to_multiset_ensures;

    if s.len() == 0 {
        assert forall|d: int| 0 <= d <= 256 implies buckets_below(s, pass, d) =~= Seq::<SymFreq>::empty() by {
            lemma_empty_buckets(s, pass, d);
        }
        assert(s.to_multiset() =~= Multiset::empty());
        assert(radix_pass_spec(s, pass).to_multiset() =~= Multiset::empty());
    } else {
        let t = s.drop_last();
        lemma_pass_permutes(t, pass);
        lemma_buckets_below_push(t, s.last(), pass, 256);
        lemma_digit_bound(s.last(), pass);
        assert(t.push(s.last()) =~= s);
        assert(s.to_multiset() =~= t.to_multiset().insert(s.last()));
    }
}

proof fn lemma_empty_buckets(s: Seq<SymFreq>, pass: int, d: int)
    requires
        s.len() == 0,
    ensures
        buckets_below(s, pass, d) =~= Seq::<SymFreq>::empty(),
    decreases d,
{
    if d > 0 {
        lemma_empty_buckets(s, pass, d - 1);
    }
}

/// Buckets further along start later.
pub proof fn lemma_buckets_below_prefix(s: Seq<SymFreq>, pass: int, d1: int, d2: int)
    requires
        0 <= d1 <= d2,
    ensures
        buckets_below(s, pass, d1).len() <= buckets_below(s, pass, d2).len(),
        forall|p: int| 0 <= p < buckets_below(s, pass, d1).len() ==> #[trigger] buckets_below(s, pass, d2)[p] == buckets_below(s, pass, d1)[p],
    decreases d2 - d1,
{
    if d1 < d2 {
        lemma_buckets_below_prefix(s, pass, d1, d2 - 1);
    }
}

/// Every place below the end of bucket `dd - 1` lies in one of the buckets `0..dd`.
pub proof fn lemma_locate(s: Seq<SymFreq>, pass: int, dd: int, p: int) -> (d: int)
    requires
        0 <= dd,
        0 <= p < buckets_below(s, pass, dd).len(),
    ensures
        0 <= d < dd,
        buckets_below(s, pass, d).len() <= p < buckets_below(s, pass, d + 1).len(),
    decreases dd,
{
    if p >= buckets_below(s, pass, dd - 1).len() {
        dd - 1
    } else {
        lemma_locate(s, pass, dd - 1, p)
    }
}

/// The buckets `0..d` hold symbols of bytes below `d`, in byte order.
pub proof fn lemma_buckets_sorted(s: Seq<SymFreq>, pass: int, d: int)
    requires
        0 <= d,
    ensures
        sorted_by_digit(buckets_below(s, pass, d), pass),
        forall|p: int| 0 <= p < buckets_below(s, pass, d).len() ==> digit(#[trigger] buckets_below(s, pass, d)[p], pass) < d,
        forall|p: int| 0 <= p < buckets_below(s, pass, d).len() ==> s.contains(#[trigger] buckets_below(s, pass, d)[p]),
    decreases d,
{
    if d > 0 {
        lemma_buckets_sorted(s, pass, d - 1);
        lemma_bucket_elems(s, pass, d - 1);
        let a = buckets_below(s, pass, d - 1);
        let b = bucket(s, pass, d - 1);
        assert forall|p: int| 0 <= p < buckets_below(s, pass, d).len() implies digit(#[trigger] buckets_below(s, pass, d)[p], pass) < d && s.contains(buckets_below(s, pass, d)[p]) by {
            if p >= a.len() {
                assert(buckets_below(s, pass, d)[p] == b[p - a.len()]);
            }
        }
        assert forall|i: int, j: int| 0 <= i < j < buckets_below(s, pass, d).len() implies digit(#[trigger] buckets_below(s, pass, d)[i], pass) <= digit(#[trigger] buckets_below(s, pass, d)[j], pass) by {
            if j >= a.len() {
                assert(buckets_below(s, pass, d)[j] == b[j - a.len()]);
                if i >= a.len() {
                    assert(buckets_below(s, pass, d)[i] == b[i - a.len()]);
                }
            }
        }
    }
}

/// A bucket taken from a sequence ordered by the low byte is ordered by the low byte.
pub proof fn lemma_bucket_keeps_order(s: Seq<SymFreq>, d: int)
    requires
        sorted_by_digit(s, 0),
    ensures
        sorted_by_digit(bucket(s, 1, d), 0),
    decreases s.len(),
{
    if s.len() > 0 {
        let t = s.drop_last();
        assert(sorted_by_digit(t, 0));
        lemma_bucket_keeps_order(t, d);
        lemma_bucket_elems(t, 1, d);
        let b = bucket(t, 1, d);
        if digit(s.last(), 1) == d {
            assert forall|i: int, j: int| 0 <= i < j < b.push(s.last()).len() implies digit(#[trigger] b.push(s.last())[i], 0) <= digit(#[trigger] b.push(s.last())[j], 0) by {
                if j == b.len() {
                    let x = b[i];
                    assert(t.contains(x));
                    let k = choose|k: int| 0 <= k < t.len() && t[k] == x;
                    assert(s[k] == x);
                    assert(s[s.len() - 1] == s.last());
                }
            }
        }
    }
}

/// Sorting by the high byte, keeping the order of a sequence sorted by the low byte,
/// sorts by the key.
pub proof fn lemma_two_passes_sorted(r0: Seq<SymFreq>, d: int)
    requires
        0 <= d,
        sorted_by_digit(r0, 0),
    ensures
        sorted_by_key(buckets_below(r0, 1, d)),
    decreases d,
{
    if d > 0 {
        lemma_two_passes_sorted(r0, d - 1);
        lemma_buckets_sorted(r0, 1, d - 1);
        lemma_bucket_elems(r0, 1, d - 1);
        lemma_bucket_keeps_order(r0, d - 1);
        let a = buckets_below(r0, 1, d - 1);
        let b = bucket(r0, 1, d - 1);
        let c = buckets_below(r0, 1, d);
        assert forall|i: int, j: int| 0 <= i < j < c.len() implies (#[trigger] c[i]).key <= (#[trigger] c[j]).key by {
            if j >= a.len() {
                assert(c[j] == b[j - a.len()]);
                if i >= a.len() {
                    assert(c[i] == b[i - a.len()]);
                    assert(digit(c[i], 0) <= digit(c[j], 0));
                } else {
                    assert(c[i] == a[i]);
                    assert(digit(c[i], 1) < d - 1);
                }
            }
        }
    }
}

/// When every high byte is zero, sorting by the low byte sorts by the key.
pub proof fn lemma_one_pass_sorted(s: Seq<SymFreq>)
    requires
        forall|i: int| 0 <= i < s.len() ==> (#[trigger] s[i]).key < 256,
    ensures
        sorted_by_key(radix_pass_spec(s, 0)),
{
    let r = radix_pass_spec(s, 0);
    lemma_buckets_sorted(s, 0, 256);
    assert forall|i: int, j: int| 0 <= i < j < r.len() implies (#[trigger] r[i]).key <= (#[trigger] r[j]).key by {
        let ki = choose|k: int| 0 <= k < s.len() && s[k] == r[i];
        let kj = choose|k: int| 0 <= k < s.len() && s[k] == r[j];
        assert(s[ki].key < 256);
        assert(s[kj].key < 256);
    }
}

/// The number of symbols of `s` whose high byte is zero.
pub open spec fn count_low(s: Seq<SymFreq>) -> nat
    decreases s.len(),
{
    if s.len() == 0 {
        0
    } else {
        count_low(s.drop_last()) + (if s.last().key < 256 {
            1nat
        } else {
            0nat
        })
    }
}

pub proof fn lemma_count_low_all(s: Seq<SymFreq>)
    requires
        count_low(s) == s.len(),
    ensures
        forall|i: int| 0 <= i < s.len() ==> (#[trigger] s[i]).key < 256,
    decreases s.len(),
{
    if s.len() > 0 {
        lemma_count_low_le(s.drop_last());
        lemma_count_low_all(s.drop_last());
        assert forall|i: int| 0 <= i < s.len() implies (#[trigger] s[i]).key < 256 by {
            if i < s.len() - 1 {
                assert(s[i] == s.drop_last()[i]);
            }
        }
    }
}

pub proof fn lemma_count_low_le(s: Seq<SymFreq>)
    ensures
        count_low(s) <= s.len(),
    decreases s.len(),
{
    if s.len() > 0 {
        lemma_count_low_le(s.drop_last());
    }
}

/// The symbols whose key is `k`.
pub open spec fn key_is(k: int) -> spec_fn(SymFreq) -> bool {
    |x: SymFreq| x.key as int == k
}

/// The byte of key `k` that pass `pass` sorts by.
pub open spec fn key_digit(k: int, pass: int) -> int {
    if pass == 0 {
        k % 256
    } else {
        k / 256
    }
}

proof fn lemma_filter_push(s: Seq<SymFreq>, e: SymFreq, p: spec_fn(SymFreq) -> bool)
    ensures
        s.push(e).filter(p) == (if p(e) { s.filter(p).push(e) } else { s.filter(p) }),
{
    reveal(Seq::filter);
    assert(s.push(e).drop_last() =~= s);
}

/// A bucket holds all the symbols with key `k` if their byte is the bucket's, else none.
proof fn lemma_bucket_filter(s: Seq<SymFreq>, pass: int, d: int, k: int)
    ensures
        bucket(s, pass, d).filter(key_is(k)) == (if d == key_digit(k, pass) {
            s.filter(key_is(k))
        } else {
            Seq::<SymFreq>::empty()
        }),
    decreases s.len(),
{
    if s.len() == 0 {
        reveal(Seq::filter);
    } else {
        let t = s.drop_last();
        let e = s.last();
        lemma_bucket_filter(t, pass, d, k);
        assert(t.push(e) =~= s);
        lemma_filter_push(t, e, key_is(k));
        if digit(e, pass) == d {
            lemma_filter_push(bucket(t, pass, d), e, key_is(k));
        }
    }
}

proof fn lemma_buckets_below_filter(s: Seq<SymFreq>, pass: int, dd: int, k: int)
    requires
        0 <= dd,
        0 <= key_digit(k, pass),
    ensures
        buckets_below(s, pass, dd).filter(key_is(k)) == (if key_digit(k, pass) < dd {
            s.filter(key_is(k))
        } else {
            Seq::<SymFreq>::empty()
        }),
    decreases dd,
{
    if dd == 0 {
        reveal(Seq::filter);
    } else {
        lemma_buckets_below_filter(s, pass, dd - 1, k);
        Seq::filter_distributes_over_add(buckets_below(s, pass, dd - 1), bucket(s, pass, dd - 1), key_is(k));
        lemma_bucket_filter(s, pass, dd - 1, k);
        let e = Seq::<SymFreq>::empty();
        assert(e + s.filter(key_is(k)) =~= s.filter(key_is(k)));
        assert(s.filter(key_is(k)) + e =~= s.filter(key_is(k)));
        assert(e + e =~= e);
    }
}

/// A pass keeps the order of the symbols with any one key.
proof fn lemma_pass_stable(s: Seq<SymFreq>, pass: int, k: int)
    requires
        0 <= k < 65536,
        pass == 0 || pass == 1,
    ensures
        radix_pass_spec(s, pass).filter(key_is(k)) == s.filter(key_is(k)),
{
    lemma_buckets_below_filter(s, pass, 256, k);
}

/// Sorting keeps the order of the symbols with any one key: the sort is stable.
pub proof fn lemma_radix_stable(s: Seq<SymFreq>)
    ensures
        forall|k: int| 0 <= k < 65536 ==> #[trigger] radix_sorted(s).filter(key_is(k)) == s.filter(key_is(k)),
{
    assert forall|k: int| 0 <= k < 65536 implies #[trigger] radix_sorted(s).filter(key_is(k)) == s.filter(key_is(k)) by {
        lemma_pass_stable(s, 0, k);
        lemma_pass_stable(radix_pass_spec(s, 0), 1, k);
    }
}

} // verus!
