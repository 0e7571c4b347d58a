//! Huffman code construction: sorting symbols by frequency, computing
//! minimum-redundancy code lengths, limiting their length and assigning
//! canonical codes.

use vstd::prelude::*;
use vstd::arithmetic::power2::*;
use vstd::arithmetic::mul::*;
use vstd::bits::*;
use crate::bytes::memset_range;
use crate::prefix::{lengths_fit, lemma_fit_from_counts};
use crate::radix::{radix_sorted, lemma_radix_sorted, key_is, lemma_radix_stable, digit, bucket, buckets_below, radix_pass_spec, sorted_by_key, count_low, lemma_bucket_push, lemma_bucket_elems, lemma_bucket_take, lemma_pass_permutes, lemma_buckets_below_prefix, lemma_locate, lemma_buckets_sorted, lemma_two_passes_sorted, lemma_one_pass_sorted, lemma_count_low_all};

verus! {

/// A symbol with a key: its frequency before code lengths are computed, its code length after.
#[derive(Copy, Clone)]
pub struct SymFreq {
    pub key: u16,
    pub sym_index: u16,
}

/// The symbols of `b` are those of `a`, in the same places.
pub open spec fn same_symbols(a: Seq<SymFreq>, b: Seq<SymFreq>) -> bool {
    &&& a.len() == b.len()
    &&& forall|i: int| 0 <= i < a.len() ==> (#[trigger] b[i]).sym_index == a[i].sym_index
}

/// Sum of `2^(d - key)` over the positions `lo..` of `s`: with all keys at most `d`,
/// the Kraft sum of the code lengths scaled by `2^d`.
pub open spec fn kraft_from(s: Seq<SymFreq>, lo: int, d: nat) -> nat
    decreases s.len() - lo,
{
    if lo < 0 || lo >= s.len() {
        0
    } else {
        pow2((d - s[lo].key) as nat) + kraft_from(s, lo + 1, d)
    }
}

proof fn lemma_kraft_from_ext(a: Seq<SymFreq>, b: Seq<SymFreq>, lo: int, d: nat)
    requires
        0 <= lo,
        a.len() == b.len(),
        forall|i: int| lo <= i < a.len() ==> (#[trigger] a[i]).key == b[i].key,
    ensures
        kraft_from(a, lo, d) == kraft_from(b, lo, d),
    decreases a.len() - lo,
{
    if lo < a.len() {
        lemma_kraft_from_ext(a, b, lo + 1, d);
    }
}

/// Code lengths computed from a tree: all in `1..=n-1`, longest first, and filling the
/// code space exactly (Kraft sum one).
pub open spec fn complete_code_lengths(s: Seq<SymFreq>) -> bool {
    let n = s.len();
    &&& n >= 2
    &&& forall|i: int| 0 <= i < n ==> 1 <= (#[trigger] s[i]).key <= n - 1
    &&& forall|i: int, j: int| 0 <= i < j < n ==> (#[trigger] s[i]).key >= (#[trigger] s[j]).key
    &&& kraft_from(s, 0, (n - 1) as nat) == pow2((n - 1) as nat)
}

fn set_key(symbols: &mut [SymFreq], i: usize, key: u16)
    requires
        i < old(symbols)@.len(),
    ensures
        final(symbols)@ == old(symbols)@.update(
            i as int,
            SymFreq { key, sym_index: old(symbols)@[i as int].sym_index },
        ),
{
    let s = symbols[i];
    symbols[i] = SymFreq { key, sym_index: s.sym_index };
}

/// Parent links of the internal nodes `0..root` built so far, all below `next`:
/// increasing along the nodes, and no node is the parent of three of them.
spec fn parent_links(s: Seq<SymFreq>, root: int, next: int) -> bool {
    &&& forall|j: int| 0 <= j < root ==> j < (#[trigger] s[j]).key < next
    &&& forall|i: int, j: int| 0 <= i < j < root ==> (#[trigger] s[i]).key <= (#[trigger] s[j]).key
    &&& forall|j: int| 0 <= j && j + 2 < root ==> (#[trigger] s[j]).key < s[j + 2].key
}

/// Depths of the internal nodes `lo..=n-2` (node `n-2` is the root of the tree),
/// given the parent links `p`.
spec fn node_depths(s: Seq<SymFreq>, p: Seq<SymFreq>, lo: int, n: int) -> bool {
    &&& s[n - 2].key == 0
    &&& forall|j: int| lo <= j < n - 2 ==> (#[trigger] s[j]).key == s[p[j].key as int].key + 1
    &&& forall|j: int| lo <= j <= n - 2 ==> (#[trigger] s[j]).key <= n - 2 - j
    &&& forall|i: int, j: int| lo <= i < j <= n - 2 ==> (#[trigger] s[i]).key >= (#[trigger] s[j]).key
}

/// Along links where no parent has three children, the parent of `a + 2t` is at least
/// `t` beyond the parent of `a`.
proof fn lemma_links_spread(p: Seq<SymFreq>, a: int, t: int, last: int)
    requires
        0 <= a,
        0 <= t,
        a + 2 * t <= last,
        last < p.len(),
        forall|j: int| 0 <= j && j + 2 <= last ==> (#[trigger] p[j]).key < p[j + 2].key,
    ensures
        p[a + 2 * t].key >= p[a].key + t,
    decreases t,
{
    if t > 0 {
        lemma_links_spread(p, a, t - 1, last);
        assert(p[a + 2 * (t - 1)].key < p[a + 2 * (t - 1) + 2].key);
        assert(a + 2 * (t - 1) + 2 == a + 2 * t);
    }
}

/// The internal nodes `lo..=hi` whose parents all lie in `plo..=phi` number at most twice
/// as many as the parents.
proof fn lemma_children_count(p: Seq<SymFreq>, lo: int, hi: int, plo: int, phi: int, last: int)
    requires
        0 <= lo <= hi <= last,
        last < p.len(),
        forall|j: int| 0 <= j && j + 2 <= last ==> (#[trigger] p[j]).key < p[j + 2].key,
        forall|i: int, j: int| 0 <= i < j <= last ==> (#[trigger] p[i]).key <= (#[trigger] p[j]).key,
        forall|j: int| lo <= j <= hi ==> plo <= (#[trigger] p[j]).key <= phi,
    ensures
        hi - lo + 1 <= 2 * (phi - plo + 1),
{
    let m = hi - lo + 1;
    let t = (m - 1) / 2;
    assert(lo + 2 * t <= hi);
    lemma_links_spread(p, lo, t, last);
    assert(p[lo + 2 * t].key <= phi);
    assert(p[lo].key >= plo);
}

/// Builds the tree of the in-place algorithm. Node `next` takes the two lightest of the
/// unused internal nodes (from `root`) and leaves (from `leaf`); an internal node that
/// has been used keeps the index of its parent.
fn build_tree(symbols: &mut [SymFreq])
    requires
        2 <= old(symbols)@.len() < 65535,
    ensures
        same_symbols(old(symbols)@, final(symbols)@),
        parent_links(final(symbols)@, final(symbols)@.len() - 2, final(symbols)@.len() - 1),
{
    let n = symbols.len();
    let ghost orig = symbols@;
    let k0 = symbols[0].key.wrapping_add(symbols[1].key);
    set_key(symbols, 0, k0);
    let mut root: usize = 0;
    let mut leaf: usize = 2;
    let mut next: usize = 1;
    while next < n - 1
        invariant
            2 <= n < 65535,
            n == symbols@.len(),
            1 <= next <= n - 1,
            root < next,
            leaf <= n,
            leaf + root == 2 * next,
            parent_links(symbols@, root as int, next as int),
            same_symbols(orig, symbols@),
        decreases n - next,
    {
        if leaf >= n || symbols[root].key < symbols[leaf].key {
            let w = symbols[root].key;
            set_key(symbols, next, w);
            set_key(symbols, root, next as u16);
            root += 1;
        } else {
            let w = symbols[leaf].key;
            set_key(symbols, next, w);
            leaf += 1;
        }
        if leaf >= n || (root < next && symbols[root].key < symbols[leaf].key) {
            let w = symbols[next].key.wrapping_add(symbols[root].key);
            set_key(symbols, next, w);
            set_key(symbols, root, next as u16);
            root += 1;
        } else {
            let w = symbols[next].key.wrapping_add(symbols[leaf].key);
            set_key(symbols, next, w);
            leaf += 1;
        }
        next += 1;
    }
}

/// Replaces the parent links of the internal nodes by their depths, from the root down.
fn link_depths(symbols: &mut [SymFreq])
    requires
        2 <= old(symbols)@.len() < 65535,
        parent_links(old(symbols)@, old(symbols)@.len() - 2, old(symbols)@.len() - 1),
    ensures
        same_symbols(old(symbols)@, final(symbols)@),
        node_depths(final(symbols)@, old(symbols)@, 0, final(symbols)@.len() as int),
{
    let n = symbols.len();
    let ghost links = symbols@;
    set_key(symbols, n - 2, 0);
    let mut k: usize = n - 2;
    while k > 0
        invariant
            2 <= n < 65535,
            n == symbols@.len(),
            links.len() == n,
            0 <= k <= n - 2,
            parent_links(links, (n - 2) as int, (n - 1) as int),
            node_depths(symbols@, links, k as int, n as int),
            forall|j: int| 0 <= j < k ==> (#[trigger] symbols@[j]).key == links[j].key,
            same_symbols(links, symbols@),
        decreases k,
    {
        let cur = k - 1;
        let parent = symbols[cur].key as usize;
        let d = symbols[parent].key + 1;
        set_key(symbols, cur, d);
        proof {
            assert forall|i: int, j: int| cur <= i < j <= n - 2 implies (#[trigger] symbols@[i]).key
                >= (#[trigger] symbols@[j]).key by {
                if i == cur && j < n - 2 {
                    assert(links[cur as int].key <= links[j].key);
                    if links[cur as int].key < links[j].key {
                        assert(symbols@[links[cur as int].key as int].key >= symbols@[links[
                            j
                        ].key as int].key);
                    }
                }
            }
        }
        k = cur;
    }
}

/// Gives each slot, from the last one down, the depth of a leaf: at each depth the places
/// not taken by internal nodes go to leaves.
fn leaf_depths(symbols: &mut [SymFreq], Ghost(links): Ghost<Seq<SymFreq>>)
    requires
        2 <= old(symbols)@.len() < 65535,
        links.len() == old(symbols)@.len(),
        parent_links(links, old(symbols)@.len() - 2, old(symbols)@.len() - 1),
        node_depths(old(symbols)@, links, 0, old(symbols)@.len() as int),
    ensures
        same_symbols(old(symbols)@, final(symbols)@),
        complete_code_lengths(final(symbols)@),
{
    let n = symbols.len();
    let ghost depths = symbols@;
    let mut avbl: i32 = 1;
    let mut used: i32 = 0;
    let mut dpth: u16 = 0;
    let mut root: i32 = (n - 2) as i32;
    let mut next: i32 = (n - 1) as i32;
    let ghost mut prev_root: int = n - 2;
    let ghost dd: nat = (n - 1) as nat;
    proof {
        lemma_pow2_pos(dd);
        assert(kraft_from(symbols@, n as int, dd) == 0);
    }
    while avbl > 0
        invariant
            2 <= n < 65535,
            n == symbols@.len(),
            links.len() == n,
            depths.len() == n,
            dd == n - 1,
            parent_links(links, (n - 2) as int, (n - 1) as int),
            node_depths(depths, links, 0, n as int),
            same_symbols(depths, symbols@),
            -1 <= root <= n - 2,
            next <= n - 1,
            next - root == avbl,
            used == 0,
            avbl >= 0,
            dpth <= n,
            avbl > 0 ==> dpth <= n - 1,
            avbl == 0 ==> root == -1,
            root >= 0 ==> depths[root as int].key <= dpth,
            forall|j: int| 0 <= j <= root ==> (#[trigger] symbols@[j]).key == depths[j].key,
            forall|j: int| root < j <= n - 2 ==> (#[trigger] depths[j]).key < dpth,
            forall|j: int| 0 <= j <= root ==> (#[trigger] depths[j]).key >= dpth,
            dpth == 0 ==> avbl == 1 && root == n - 2,
            dpth > 0 ==> avbl == 2 * (prev_root - root),
            dpth > 0 ==> root <= prev_root <= n - 2,
            dpth > 0 ==> forall|j: int|
                root < j <= prev_root ==> (#[trigger] depths[j]).key == dpth - 1,
            dpth > 0 ==> forall|j: int|
                prev_root < j <= n - 2 ==> (#[trigger] depths[j]).key < dpth - 1,
            forall|j: int| next < j < n ==> 1 <= (#[trigger] symbols@[j]).key < dpth,
            forall|i: int, j: int|
                next < i < j < n ==> (#[trigger] symbols@[i]).key >= (#[trigger] symbols@[j]).key,
            kraft_from(symbols@, next + 1, dd) + avbl * pow2((dd - dpth) as nat) == pow2(dd),
        decreases (if avbl > 0 {
            root + 2
        } else {
            0
        }),
    {
        let ghost root_start = root;
        while root >= 0 && symbols[root as usize].key == dpth
            invariant
                2 <= n < 65535,
                n == symbols@.len(),
                -1 <= root <= root_start,
                root_start <= n - 2,
                depths.len() == n,
                forall|j: int| 0 <= j <= root_start ==> (#[trigger] symbols@[j]).key == depths[j].key,
                forall|j: int| root < j <= root_start ==> (#[trigger] depths[j]).key == dpth,
                used == root_start - root,
            decreases root + 1,
        {
            used += 1;
            root -= 1;
        }
        proof {
            // The nodes of this depth hang below those of the previous depth.
            if dpth == 0 {
                if root_start - root > 1 {
                    assert(depths[n - 3].key == depths[links[n - 3].key as int].key + 1);
                }
            } else if used > 0 {
                assert forall|j: int| root + 1 <= j <= root_start implies root_start + 1 <= (
                #[trigger] links[j]).key <= prev_root by {
                    assert(depths[j].key == depths[links[j].key as int].key + 1);
                }
                lemma_children_count(
                    links,
                    root + 1,
                    root_start as int,
                    root_start + 1,
                    prev_root,
                    n - 3,
                );
            }
            // A node of this depth always exists while nodes remain.
            if root >= 0 {
                if root < n - 2 {
                    assert(depths[root as int].key == depths[links[root as int].key as int].key + 1);
                }
            }
        }
        assert(used <= avbl);
        while avbl > used
            invariant
                2 <= n < 65535,
                n == symbols@.len(),
                dd == n - 1,
                same_symbols(depths, symbols@),
                -1 <= root,
                next <= n - 1,
                next - root == avbl + used,
                0 <= used <= avbl,
                avbl > used ==> 1 <= dpth <= dd,
                forall|j: int| 0 <= j <= root ==> (#[trigger] symbols@[j]).key == depths[j].key,
                forall|j: int| next < j < n ==> 1 <= (#[trigger] symbols@[j]).key <= dpth,
                forall|i: int, j: int|
                    next < i < j < n ==> (#[trigger] symbols@[i]).key >= (#[trigger] symbols@[j]).key,
                kraft_from(symbols@, next + 1, dd) + avbl * pow2((dd - dpth) as nat) == pow2(dd),
            decreases avbl - used,
        {
            let ghost before = symbols@;
            set_key(symbols, next as usize, dpth);
            proof {
                lemma_kraft_from_ext(before, symbols@, next + 1, dd);
                lemma_mul_is_distributive_sub_other_way(
                    pow2((dd - dpth) as nat) as int,
                    avbl as int,
                    1,
                );
            }
            next -= 1;
            avbl -= 1;
        }
        proof {
            if used > 0 {
                let e = (dd - dpth) as nat;
                lemma_pow2_unfold(e);
                let pe = pow2(e) as int;
                let pe1 = pow2((e - 1) as nat) as int;
                let u = used as int;
                assert(u * pe == (2 * u) * pe1) by (nonlinear_arith)
                    requires
                        pe == 2 * pe1,
                ;
                assert((dd - (dpth + 1)) as nat == (e - 1) as nat);
                assert(avbl * pow2((dd - dpth) as nat) == u * pe);
                assert((2 * used) * pow2((dd - (dpth + 1)) as nat) == (2 * u) * pe1);
            } else {
                assert(used == 0);
                assert(2 * used == 0);
                assert(avbl * pow2((dd - dpth) as nat) == 0);
                assert((2 * used) * pow2((dd - (dpth + 1)) as nat) == 0);
            }
            prev_root = root_start as int;
            assert(avbl == used);
            assert(kraft_from(symbols@, next + 1, dd) + (2 * used) * pow2((dd - (dpth + 1)) as nat) == pow2(dd));
        }
        avbl = 2 * used;
        dpth += 1;
        used = 0;
        assert(kraft_from(symbols@, next + 1, dd) + avbl * pow2((dd - dpth) as nat) == pow2(dd));
    }
    proof {
        assert(next == -1);
    }
}


/// Sum of `s[lo..hi]`.
pub open spec fn seg_sum(s: Seq<i32>, lo: int, hi: int) -> int
    decreases hi - lo,
{
    if hi <= lo {
        0
    } else {
        seg_sum(s, lo, hi - 1) + s[hi - 1]
    }
}

/// Sum of `s[i] * 2^(m - i)` over `lo <= i < hi`: with `s[i]` the number of codes of
/// length `i`, the share of the code space they take, scaled by `2^m`.
pub open spec fn seg_kraft(s: Seq<i32>, lo: int, hi: int, m: int) -> int
    decreases hi - lo,
{
    if hi <= lo {
        0
    } else {
        seg_kraft(s, lo, hi - 1, m) + s[hi - 1] * pow2((m - (hi - 1)) as nat)
    }
}

proof fn lemma_seg_sum_update(s: Seq<i32>, lo: int, hi: int, k: int, v: i32)
    requires
        0 <= k < s.len(),
        0 <= lo <= hi <= s.len(),
    ensures
        seg_sum(s.update(k, v), lo, hi) == seg_sum(s, lo, hi) + (if lo <= k < hi {
            v - s[k]
        } else {
            0
        }),
    decreases hi - lo,
{
    if hi > lo {
        lemma_seg_sum_update(s, lo, hi - 1, k, v);
    }
}

proof fn lemma_seg_kraft_update(s: Seq<i32>, lo: int, hi: int, m: int, k: int, v: i32)
    requires
        0 <= k < s.len(),
        0 <= lo <= hi <= s.len(),
    ensures
        seg_kraft(s.update(k, v), lo, hi, m) == seg_kraft(s, lo, hi, m) + (if lo <= k < hi {
            (v - s[k]) * pow2((m - k) as nat)
        } else {
            0
        }),
    decreases hi - lo,
{
    if hi > lo {
        lemma_seg_kraft_update(s, lo, hi - 1, m, k, v);
        if hi - 1 == k {
            lemma_mul_is_distributive_sub_other_way(pow2((m - k) as nat) as int, v as int, s[k] as int);
        }
    }
}

proof fn lemma_seg_sum_split(s: Seq<i32>, lo: int, mid: int, hi: int)
    requires
        lo <= mid <= hi,
    ensures
        seg_sum(s, lo, hi) == seg_sum(s, lo, mid) + seg_sum(s, mid, hi),
    decreases hi - mid,
{
    if hi > mid {
        lemma_seg_sum_split(s, lo, mid, hi - 1);
    }
}

proof fn lemma_seg_nonneg(s: Seq<i32>, lo: int, hi: int, m: int)
    requires
        forall|i: int| lo <= i < hi ==> s[i] >= 0,
    ensures
        seg_sum(s, lo, hi) >= 0,
        seg_kraft(s, lo, hi, m) >= 0,
    decreases hi - lo,
{
    if hi > lo {
        lemma_seg_nonneg(s, lo, hi - 1, m);
        lemma_pow2_pos((m - (hi - 1)) as nat);
        lemma_mul_nonnegative(s[hi - 1] as int, pow2((m - (hi - 1)) as nat) as int);
    }
}

/// With only the last entry nonzero, both sums are that entry (for the last length `m`).
proof fn lemma_seg_only_last(s: Seq<i32>, lo: int, hi: int)
    requires
        0 <= lo < hi <= s.len(),
        forall|i: int| lo <= i < hi - 1 ==> s[i] == 0,
    ensures
        seg_sum(s, lo, hi) == s[hi - 1],
        seg_kraft(s, lo, hi, hi - 1) == s[hi - 1],
{
    lemma_seg_zero(s, lo, hi - 1, hi - 1);
    lemma2_to64();
    assert(((hi - 1) - (hi - 1)) as nat == 0);
}

/// A nonnegative entry is at most the sum of its segment.
proof fn lemma_seg_elem_le(s: Seq<i32>, lo: int, hi: int, k: int)
    requires
        lo <= k < hi,
        forall|i: int| lo <= i < hi ==> s[i] >= 0,
    ensures
        s[k] <= seg_sum(s, lo, hi),
    decreases hi - lo,
{
    if k < hi - 1 {
        lemma_seg_elem_le(s, lo, hi - 1, k);
    } else {
        lemma_seg_nonneg(s, lo, hi - 1, 0);
    }
}

proof fn lemma_seg_zero(s: Seq<i32>, lo: int, k: int, m: int)
    requires
        forall|i: int| lo <= i < k ==> s[i] == 0,
    ensures
        seg_sum(s, lo, k) == 0,
        seg_kraft(s, lo, k, m) == 0,
    decreases k - lo,
{
    if k > lo {
        lemma_seg_zero(s, lo, k - 1, m);
    }
}

/// `i` is the longest code length below `max` that has codes.
pub open spec fn longest_below(c: Seq<i32>, max: int, i: int) -> bool {
    &&& 1 <= i < max
    &&& c[i] > 0
    &&& forall|q: int| i < q < max ==> c[q] == 0
}

/// One step of making the codes fit: a code of length `max` is dropped, and a code of the
/// longest length below `max` that has codes is split into two codes one bit longer.
pub open spec fn split_step(c: Seq<i32>, max: int) -> Seq<i32> {
    let i = choose|i: int| longest_below(c, max, i);
    let m = c.update(max, (c[max] - 1) as i32);
    m.update(i, (m[i] - 1) as i32).update(i + 1, (m[i + 1] + 2) as i32)
}

/// `k` steps of `split_step`.
pub open spec fn split_steps(c: Seq<i32>, max: int, k: nat) -> Seq<i32>
    decreases k,
{
    if k == 0 {
        c
    } else {
        split_step(split_steps(c, max, (k - 1) as nat), max)
    }
}

/// The counts with every code longer than `max` counted as a code of length `max`.
pub open spec fn fold_long(s: Seq<i32>, max: int) -> Seq<i32> {
    s.update(max, (s[max] + seg_sum(s, max + 1, s.len() as int)) as i32)
}

/// Code counts for lengths `1..=max` that use no more than the whole code space, with the
/// counts of longer codes still to be folded in.
pub open spec fn fits_after_folding(s: Seq<i32>, n: int, max: int) -> bool {
    &&& 1 <= max < s.len()
    &&& forall|i: int| 1 <= i < s.len() ==> s[i] >= 0
    &&& seg_sum(s, 1, s.len() as int) == n
    &&& n <= pow2(max as nat)
    &&& seg_kraft(s, 1, max + 1, max) <= pow2(max as nat)
}


proof fn lemma_seg_split_kraft(s: Seq<i32>, lo: int, mid: int, hi: int, m: int)
    requires
        lo <= mid <= hi,
    ensures
        seg_kraft(s, lo, hi, m) == seg_kraft(s, lo, mid, m) + seg_kraft(s, mid, hi, m),
    decreases hi - mid,
{
    if hi > mid {
        lemma_seg_split_kraft(s, lo, mid, hi - 1, m);
    }
}

/// The byte of `key` that pass `pass` sorts by.
fn key_digit(key: u16, pass: usize) -> (r: usize)
    requires
        pass < 2,
    ensures
        r == digit(SymFreq { key, sym_index: 0 }, pass as int),
        r < 256,
{
    let sh: u16 = (pass * 8) as u16;
    let v = (key >> sh) & 0xFF;
    proof {
        if pass == 0 {
            assert(sh == 0);
            assert((key >> 0u16) & 0xFF == key % 256) by (bit_vector);
        } else {
            assert(sh == 8);
            assert((key >> 8u16) & 0xFF == key / 256) by (bit_vector);
        }
    }
    v as usize
}

/// One counting pass: `new` receives the symbols of `cur` grouped by byte `pass` of the
/// key, keeping their order within each group.
fn radix_pass(cur: &Vec<SymFreq>, new: &mut Vec<SymFreq>, pass: usize)
    requires
        old(new)@.len() == cur@.len(),
        pass < 2,
    ensures
        final(new)@ == radix_pass_spec(cur@, pass as int),
{
    let n = cur.len();
    let ghost ps = pass as int;
    let mut hist = [0usize; 256];
    let mut k: usize = 0;
    proof {
        assert forall|d: int| 0 <= d < 256 implies hist@[d] == bucket(cur@.take(0), ps, d).len() by {
            assert(cur@.take(0).len() == 0);
        }
    }
    while k < n
        invariant
            n == cur@.len(),
            k <= n,
            forall|d: int| 0 <= d < 256 ==> hist@[d] == bucket(cur@.take(k as int), ps, d).len(),
            ps == pass as int,
            pass < 2,
        decreases n - k,
    {
        let j = key_digit(cur[k].key, pass);
        proof {
            assert(cur@.take(k + 1) =~= cur@.take(k as int).push(cur@[k as int]));
            assert forall|d: int| 0 <= d < 256 implies bucket(cur@.take(k + 1), ps, d).len() == bucket(cur@.take(k as int), ps, d).len() + (if d == j {
                1int
            } else {
                0int
            }) by {
                lemma_bucket_push(cur@.take(k as int), cur@[k as int], ps, d);
            }
            lemma_bucket_elems(cur@.take(k as int), ps, j as int);
        }
        hist[j] = hist[j] + 1;
        k += 1;
    }
    proof {
        assert(cur@.take(n as int) =~= cur@);
        lemma_pass_permutes(cur@, ps);
    }
    let mut offsets = [0usize; 256];
    let mut offset: usize = 0;
    let mut i: usize = 0;
    while i < 256
        invariant
            i <= 256,
            n == cur@.len(),
            forall|d: int| 0 <= d < 256 ==> hist@[d] == bucket(cur@, ps, d).len(),
            forall|e: int| 0 <= e < i ==> offsets@[e] == buckets_below(cur@, ps, e).len(),
            offset == buckets_below(cur@, ps, i as int).len(),
            radix_pass_spec(cur@, ps).len() == n,
        decreases 256 - i,
    {
        proof {
            lemma_buckets_below_prefix(cur@, ps, (i + 1) as int, 256);
        }
        offsets[i] = offset;
        offset = offset + hist[i];
        i += 1;
    }
    k = 0;
    proof {
        assert(cur@.take(0).len() == 0);
        assert forall|d: int| 0 <= d < 256 implies offsets@[d] == buckets_below(cur@, ps, d).len() + bucket(cur@.take(0), ps, d).len() by {
        }
    }
    while k < n
        invariant
            n == cur@.len(),
            k <= n,
            new@.len() == n,
            radix_pass_spec(cur@, ps).len() == n,
            ps == pass as int,
            pass < 2,
            forall|d: int| 0 <= d < 256 ==> offsets@[d] == buckets_below(cur@, ps, d).len() + bucket(cur@.take(k as int), ps, d).len(),
            forall|d: int, m: int|
                0 <= d < 256 && 0 <= m < bucket(cur@.take(k as int), ps, d).len() ==> new@[buckets_below(cur@, ps, d).len() + m] == #[trigger] bucket(cur@.take(k as int), ps, d)[m],
        decreases n - k,
    {
        let sym = cur[k];
        let j = key_digit(sym.key, pass);
        let ghost tk = cur@.take(k as int);
        let ghost pos = offsets@[j as int];
        let ghost old_new = new@;
        proof {
            assert(cur@.take(k + 1) =~= tk.push(sym));
            lemma_bucket_push(tk, sym, ps, j as int);
            lemma_bucket_take(cur@, k + 1, ps, j as int);
            lemma_buckets_below_prefix(cur@, ps, j + 1, 256);
            assert(pos < n);
        }
        new[offsets[j]] = sym;
        offsets[j] = offsets[j] + 1;
        proof {
            assert forall|d: int| 0 <= d < 256 implies offsets@[d] == buckets_below(cur@, ps, d).len() + bucket(cur@.take(k + 1), ps, d).len() by {
                lemma_bucket_push(tk, sym, ps, d);
            }
            let ghost bj = buckets_below(cur@, ps, j as int).len();
            assert(pos == bj + bucket(tk, ps, j as int).len());
            assert(buckets_below(cur@, ps, j + 1).len() == bj + bucket(cur@, ps, j as int).len());
            assert(pos < buckets_below(cur@, ps, j + 1).len());
            assert forall|d: int, m: int|
                0 <= d < 256 && 0 <= m < bucket(cur@.take(k + 1), ps, d).len() implies new@[buckets_below(cur@, ps, d).len() + m] == #[trigger] bucket(cur@.take(k + 1), ps, d)[m] by {
                lemma_bucket_push(tk, sym, ps, d);
                lemma_bucket_take(cur@, k + 1, ps, d);
                let bd = buckets_below(cur@, ps, d).len();
                assert(buckets_below(cur@, ps, d + 1).len() == bd + bucket(cur@, ps, d).len());
                lemma_buckets_below_prefix(cur@, ps, d + 1, 256);
                assert(bd + m < n);
                if d < j {
                    lemma_buckets_below_prefix(cur@, ps, d + 1, j as int);
                    assert(bd + m < pos);
                    assert(bucket(cur@.take(k + 1), ps, d)[m] == bucket(tk, ps, d)[m]);
                    assert(old_new[bd + m] == bucket(tk, ps, d)[m]);
                } else if d > j {
                    lemma_buckets_below_prefix(cur@, ps, j + 1, d);
                    assert(bd + m > pos);
                    assert(bucket(cur@.take(k + 1), ps, d)[m] == bucket(tk, ps, d)[m]);
                    assert(old_new[bd + m] == bucket(tk, ps, d)[m]);
                } else {
                    if m < bucket(tk, ps, d).len() {
                        assert(bd + m < pos);
                        assert(bucket(cur@.take(k + 1), ps, d)[m] == bucket(tk, ps, d)[m]);
                        assert(old_new[bd + m] == bucket(tk, ps, d)[m]);
                    } else {
                        assert(bd + m == pos);
                    }
                }
            }
        }
        k += 1;
    }
    proof {
        let spec = radix_pass_spec(cur@, ps);
        assert(cur@.take(n as int) =~= cur@);
        assert forall|p: int| 0 <= p < n implies new@[p] == spec[p] by {
            let d = lemma_locate(cur@, ps, 256, p);
            let m = p - buckets_below(cur@, ps, d).len();
            lemma_buckets_below_prefix(cur@, ps, d + 1, 256);
            assert(new@[buckets_below(cur@, ps, d).len() + m] == bucket(cur@.take(n as int), ps, d)[m]);
        }
        assert(new@ =~= spec);
    }
}


/// Sum of `2^(m - key)` over the first `k` symbols whose key is in `1..=m`.
pub open spec fn kraft_upto(s: Seq<SymFreq>, k: int, m: int) -> int
    decreases k,
{
    if k <= 0 {
        0
    } else {
        kraft_upto(s, k - 1, m) + (if 1 <= s[k - 1].key <= m {
            pow2((m - s[k - 1].key) as nat) as int
        } else {
            0int
        })
    }
}

proof fn lemma_kraft_from_upto(s: Seq<SymFreq>, lo: int, d: nat)
    requires
        0 <= lo <= s.len(),
        forall|i: int| 0 <= i < s.len() ==> 1 <= (#[trigger] s[i]).key <= d,
    ensures
        kraft_from(s, lo, d) + kraft_upto(s, lo, d as int) == kraft_upto(s, s.len() as int, d as int),
    decreases s.len() - lo,
{
    if lo < s.len() {
        lemma_kraft_from_upto(s, lo + 1, d);
    }
}

/// Counting only the keys up to `m`, scaled up to `dd`, gives no more than counting all.
proof fn lemma_kraft_upto_scale(s: Seq<SymFreq>, k: int, m: int, dd: int)
    requires
        0 <= k <= s.len(),
        0 <= m <= dd,
        forall|i: int| 0 <= i < s.len() ==> 1 <= (#[trigger] s[i]).key <= dd,
    ensures
        pow2((dd - m) as nat) * kraft_upto(s, k, m) <= kraft_upto(s, k, dd),
        (forall|i: int| 0 <= i < s.len() ==> (#[trigger] s[i]).key <= m) ==> pow2((dd - m) as nat)
            * kraft_upto(s, k, m) == kraft_upto(s, k, dd),
    decreases k,
{
    if k > 0 {
        lemma_kraft_upto_scale(s, k - 1, m, dd);
        let c = s[k - 1].key as int;
        let a = pow2((dd - m) as nat) as int;
        let prev = kraft_upto(s, k - 1, m);
        if c <= m {
            lemma_pow2_adds((dd - m) as nat, (m - c) as nat);
            assert(((dd - m) as nat + (m - c) as nat) as nat == (dd - c) as nat);
            lemma_mul_is_distributive_add(a, prev, pow2((m - c) as nat) as int);
        } else {
            lemma_pow2_pos((dd - c) as nat);
        }
    }
}

/// The entry for symbol `x` of table `t`, keyed by its count.
pub open spec fn sym_of(cnt: Seq<u16>, t: int, x: int) -> SymFreq {
    SymFreq { key: cnt[t * 288 + x], sym_index: x as u16 }
}

/// Index of symbol `i` of table `t` in the flat tables of `HuffmanOxide`.
pub open spec fn tix(t: int, i: int) -> int {
    t * 288 + i
}

/// How many of the first `k` code lengths of the table at `lo` equal `l`.
pub open spec fn len_count(sizes: Seq<u8>, lo: int, k: int, l: int) -> nat
    decreases k,
{
    if k <= 0 {
        0
    } else {
        len_count(sizes, lo, k - 1, l) + (if sizes[lo + k - 1] == l { 1nat } else { 0nat })
    }
}

/// The first canonical code of length `l` for the `n` code lengths of the table at `lo`:
/// each length starts after the codes of the one before, doubled.
pub open spec fn first_code(sizes: Seq<u8>, lo: int, n: int, l: nat) -> nat
    decreases l,
{
    if l <= 1 {
        0
    } else {
        2 * (first_code(sizes, lo, n, (l - 1) as nat) + len_count(sizes, lo, n, l - 1))
    }
}

/// The low `n` bits of `c` moved onto `r` one at a time, lowest first: with `r` zero, the
/// `n`-bit code `c` with its bits reversed.
pub open spec fn rev_onto(r: nat, c: nat, n: nat) -> nat
    decreases n,
{
    if n == 0 {
        r
    } else {
        rev_onto(2 * r + c % 2, c / 2, (n - 1) as nat)
    }
}

/// The canonical code of symbol `x` of the `n` symbols of the table at `lo`: the next code
/// of its length after those of the symbols before it, bit-reversed for sending.
pub open spec fn canonical_code(sizes: Seq<u8>, lo: int, n: int, x: int) -> nat {
    let l = sizes[lo + x];
    rev_onto(0, first_code(sizes, lo, n, l as nat) + len_count(sizes, lo, x, l as int), l as nat)
}

/// The `n` codes of table `t` are the canonical codes of their lengths.
pub open spec fn canonical_table(codes: Seq<u16>, sizes: Seq<u8>, t: int, n: int) -> bool {
    forall|x: int|
        0 <= x < n && #[trigger] sizes[tix(t, x)] != 0 ==> codes[tix(t, x)] as nat == canonical_code(
            sizes,
            t * 288,
            n,
            x,
        )
}

/// The first codes see only the lengths of their table.
proof fn lemma_first_code_ext(a: Seq<u8>, b: Seq<u8>, lo: int, n: int, l: nat)
    requires
        forall|x: int| 0 <= x < n ==> #[trigger] a[lo + x] == b[lo + x],
    ensures
        first_code(a, lo, n, l) == first_code(b, lo, n, l),
    decreases l,
{
    if l > 1 {
        lemma_first_code_ext(a, b, lo, n, (l - 1) as nat);
        lemma_len_count_ext(a, b, lo, n, l - 1);
    }
}

/// A table keeps its canonical codes while its codes and lengths are kept.
pub proof fn lemma_canonical_table_ext(ca: Seq<u16>, sa: Seq<u8>, cb: Seq<u16>, sb: Seq<u8>, t: int, n: int)
    requires
        canonical_table(ca, sa, t, n),
        0 <= n <= 288,
        forall|y: int| 0 <= y < 288 ==> #[trigger] sb[tix(t, y)] == sa[tix(t, y)] && cb[tix(t, y)] == ca[tix(t, y)],
    ensures
        canonical_table(cb, sb, t, n),
{
    assert forall|x: int| 0 <= x < n && #[trigger] sb[tix(t, x)] != 0 implies cb[tix(t, x)] as nat == canonical_code(
        sb,
        t * 288,
        n,
        x,
    ) by {
        assert forall|y: int| 0 <= y < n implies #[trigger] sa[t * 288 + y] == sb[t * 288 + y] by {
            assert(sb[tix(t, y)] == sa[tix(t, y)]);
        }
        assert(sb[tix(t, x)] == sa[tix(t, x)]);
        let l = sa[t * 288 + x];
        lemma_first_code_ext(sa, sb, t * 288, n, l as nat);
        lemma_len_count_ext(sa, sb, t * 288, x, l as int);
    }
}

/// Changing the length at `i` changes the counts only for its old and new value.
proof fn lemma_len_count_update(sizes: Seq<u8>, lo: int, k: int, l: int, i: int, v: u8)
    requires
        0 <= i < sizes.len(),
        0 <= lo,
        lo + k <= sizes.len(),
    ensures
        len_count(sizes.update(i, v), lo, k, l) + (if lo <= i < lo + k && sizes[i] == l { 1int } else { 0int })
            == len_count(sizes, lo, k, l) + (if lo <= i < lo + k && v == l { 1int } else { 0int }),
    decreases k,
{
    if k > 0 {
        lemma_len_count_update(sizes, lo, k - 1, l, i, v);
    }
}

/// Counts see only the lengths they count.
pub proof fn lemma_len_count_ext(a: Seq<u8>, b: Seq<u8>, lo: int, k: int, l: int)
    requires
        forall|x: int| 0 <= x < k ==> #[trigger] a[lo + x] == b[lo + x],
    ensures
        len_count(a, lo, k, l) == len_count(b, lo, k, l),
    decreases k,
{
    if k > 0 {
        assert(a[lo + (k - 1)] == b[lo + (k - 1)]);
        lemma_len_count_ext(a, b, lo, k - 1, l);
    }
}

/// No length is counted where none occurs.
pub proof fn lemma_len_count_none(sizes: Seq<u8>, lo: int, k: int, l: int)
    requires
        forall|x: int| 0 <= x < k ==> #[trigger] sizes[lo + x] != l,
    ensures
        len_count(sizes, lo, k, l) == 0,
    decreases k,
{
    if k > 0 {
        assert(sizes[lo + (k - 1)] != l);
        lemma_len_count_none(sizes, lo, k - 1, l);
    }
}

/// A permutation of symbols in increasing order of index has no index twice.
proof fn lemma_sorted_distinct(s0: Seq<SymFreq>, sorted: Seq<SymFreq>)
    requires
        sorted.to_multiset() == s0.to_multiset(),
        forall|a: int, b: int| 0 <= a < b < s0.len() ==> (#[trigger] s0[a]).sym_index < (#[trigger] s0[b]).sym_index,
    ensures
        forall|p: int, q: int|
            0 <= p < q < sorted.len() ==> (#[trigger] sorted[p]).sym_index != (#[trigger] sorted[q]).sym_index,
{
    assert(s0.no_duplicates()) by {
        assert forall|a: int, b: int| 0 <= a < s0.len() && 0 <= b < s0.len() && a != b implies s0[a] != s0[b] by {
            if a < b {
                assert(s0[a].sym_index < s0[b].sym_index);
            } else {
                assert(s0[b].sym_index < s0[a].sym_index);
            }
        }
    }
    s0.lemma_multiset_has_no_duplicates();
    sorted.lemma_multiset_has_no_duplicates_conv();
    assert forall|p: int, q: int| 0 <= p < q < sorted.len() implies (#[trigger] sorted[p]).sym_index != (
    #[trigger] sorted[q]).sym_index by {
        vstd::seq_lib::to_multiset_contains(sorted, sorted[p]);
        vstd::seq_lib::to_multiset_contains(sorted, sorted[q]);
        assert(sorted.contains(sorted[p]));
        assert(sorted.contains(sorted[q]));
        vstd::seq_lib::to_multiset_contains(s0, sorted[p]);
        vstd::seq_lib::to_multiset_contains(s0, sorted[q]);
        let a = choose|a: int| 0 <= a < s0.len() && s0[a] == sorted[p];
        let b = choose|b: int| 0 <= b < s0.len() && s0[b] == sorted[q];
        if a < b {
            assert(s0[a].sym_index < s0[b].sym_index);
        } else if b < a {
            assert(s0[b].sym_index < s0[a].sym_index);
        } else {
            assert(sorted[p] == sorted[q]);
        }
    }
}

/// One step of moving bits: the lowest bit of `c` goes below `r` shifted up.
proof fn lemma_rev_step(r: u32, c: u32)
    by (bit_vector)
    requires
        r < 0x8000,
    ensures
        ((r << 1u32) | (c & 1u32)) == 2 * r + c % 2,
        c >> 1u32 == c / 2,
{
}

/// Huffman codes and symbol frequencies of the three tables: literal/lengths,
/// distances, and the lengths of the codes of the other two. Each table has room
/// for 288 symbols; table `t` starts at `t * 288`.
pub struct HuffmanOxide {
    /// Number of occurrences of each symbol.
    pub count: Vec<u16>,
    /// The bits of the Huffman code of each symbol, in the order they are sent.
    pub codes: Vec<u16>,
    /// The length of the Huffman code of each symbol.
    pub code_sizes: Vec<u8>,
}

impl HuffmanOxide {
    /// Every code length is at most 15 and every code fits in its length.
    pub open spec fn wf(&self) -> bool {
        &&& self.count@.len() == 864
        &&& self.codes@.len() == 864
        &&& self.code_sizes@.len() == 864
        &&& forall|i: int| 0 <= i < 864 ==> (#[trigger] self.code_sizes@[i]) <= 15
        &&& forall|i: int| 0 <= i < 864 ==> (#[trigger] self.codes@[i]) < pow2(self.code_sizes@[i] as nat)
    }

    /// Computes the lengths of minimum-redundancy (Huffman) codes in place.
    ///
    /// On entry the keys are the symbol frequencies, in ascending order for the result to be
    /// optimal. On return each key is the code length of its symbol. With two or more symbols
    /// the lengths describe a complete binary tree: each is between 1 and `n - 1`, they do not
    /// increase along the slice, and `sum(2^-len) == 1`. The symbol of each slot is kept.
    pub fn calculate_minimum_redundancy(symbols: &mut [SymFreq])
        requires
            old(symbols)@.len() < 65535,
        ensures
            same_symbols(old(symbols)@, final(symbols)@),
            old(symbols)@.len() == 1 ==> final(symbols)@[0].key == 1,
            old(symbols)@.len() >= 2 ==> complete_code_lengths(final(symbols)@),
    {
        let n = symbols.len();
        if n == 0 {
            return;
        }
        if n == 1 {
            set_key(symbols, 0, 1);
            return;
        }
        build_tree(symbols);
        let ghost links = symbols@;
        link_depths(symbols);
        leaf_depths(symbols, Ghost(links));
    }

    /// Limits the code lengths to `max_code_size`, given the number of codes of each length.
    ///
    /// Codes longer than the limit are first counted as codes of the limit length; then, while
    /// the codes take more than the whole code space, a code of the limit length is dropped
    /// and a shorter code is split into two one bit longer. Afterwards the counts for lengths
    /// `1..=max_code_size` are nonnegative, still count every code, and fill the code space
    /// exactly.
    #[verifier::spinoff_prover]
    pub fn enforce_max_code_size(num_codes: &mut [i32], code_list_len: usize, max_code_size: usize)
        requires
            old(num_codes)@.len() <= 289,
            max_code_size <= 30,
            code_list_len >= 2 ==> fits_after_folding(old(num_codes)@, code_list_len as int, max_code_size as int),
        ensures
            final(num_codes)@.len() == old(num_codes)@.len(),
            code_list_len <= 1 ==> final(num_codes)@ == old(num_codes)@,
            final(num_codes)@.len() > 0 ==> final(num_codes)@[0] == old(num_codes)@[0],
            code_list_len >= 2 ==> {
                &&& forall|i: int| 1 <= i <= max_code_size ==> final(num_codes)@[i] >= 0
                &&& seg_sum(final(num_codes)@, 1, max_code_size + 1) == code_list_len
                &&& seg_kraft(final(num_codes)@, 1, max_code_size + 1, max_code_size as int) <= pow2(
                    max_code_size as nat,
                )
                &&& forall|i: int| max_code_size < i < old(num_codes)@.len() ==> final(num_codes)@[i]
                    == old(num_codes)@[i]
                &&& ({
                    let folded = seg_kraft(old(num_codes)@, 1, max_code_size + 1, max_code_size as int) + seg_sum(
                        old(num_codes)@,
                        max_code_size + 1,
                        old(num_codes)@.len() as int,
                    );
                    seg_kraft(final(num_codes)@, 1, max_code_size + 1, max_code_size as int) == if folded >= pow2(
                        max_code_size as nat,
                    ) {
                        pow2(max_code_size as nat) as int
                    } else {
                        folded
                    }
                })
                &&& seg_sum(old(num_codes)@, max_code_size + 1, old(num_codes)@.len() as int) == 0
                    ==> final(num_codes)@ == old(num_codes)@
                &&& ({
                    let folded = seg_kraft(old(num_codes)@, 1, max_code_size + 1, max_code_size as int) + seg_sum(
                        old(num_codes)@,
                        max_code_size + 1,
                        old(num_codes)@.len() as int,
                    );
                    let excess = if folded >= pow2(max_code_size as nat) {
                        folded - pow2(max_code_size as nat)
                    } else {
                        0
                    };
                    final(num_codes)@ == split_steps(
                        fold_long(old(num_codes)@, max_code_size as int),
                        max_code_size as int,
                        excess as nat,
                    )
                })
            },
    {
        if code_list_len <= 1 {
            return;
        }
        let ghost orig = num_codes@;
        let len = num_codes.len();
        let max = max_code_size;
        // Fold the longer codes into the longest allowed length.
        let mut extra: i32 = 0;
        let mut i: usize = max + 1;
        proof {
            lemma_seg_sum_split(orig, 1, max + 1, len as int);
            lemma_seg_nonneg(orig, 1, max + 1, max as int);
            lemma_seg_nonneg(orig, max + 1, len as int, max as int);
            lemma2_to64();
            if max < 30 {
                lemma_pow2_strictly_increases(max as nat, 30);
            }
        }
        while i < len
            invariant
                max + 1 <= i <= len,
                len == num_codes@.len(),
                len <= 289,
                num_codes@ == orig,
                extra == seg_sum(orig, (max + 1) as int, i as int),
                forall|k: int| 1 <= k < len ==> orig[k] >= 0,
                seg_sum(orig, (max + 1) as int, len as int) <= code_list_len,
                code_list_len <= pow2(30),
                pow2(30) == 0x4000_0000,
            decreases len - i,
        {
            proof {
                lemma_seg_sum_split(orig, (max + 1) as int, (i + 1) as int, len as int);
                lemma_seg_nonneg(orig, (i + 1) as int, len as int, 0);
                lemma_seg_nonneg(orig, (max + 1) as int, i as int, 0);
            }
            extra = extra + num_codes[i];
            i += 1;
        }
        proof {
            lemma_seg_elem_le(orig, 1, (max + 1) as int, max as int);
        }
        num_codes[max] = num_codes[max] + extra;
        proof {
            lemma_seg_sum_update(orig, 1, (max + 1) as int, max as int, num_codes@[max as int]);
            lemma_seg_kraft_update(orig, 1, (max + 1) as int, max as int, max as int, num_codes@[max as int]);
            lemma2_to64();
        }
        // The share of the code space taken by lengths 1..=max, scaled by 2^max.
        let mut total: u32 = 0;
        let mut k: usize = 1;
        while k <= max
            invariant
                1 <= k <= max + 1,
                max <= 30,
                len == num_codes@.len(),
                max < len,
                total == seg_kraft(num_codes@, 1, k as int, max as int),
                forall|j: int| 1 <= j <= max ==> num_codes@[j] >= 0,
                seg_kraft(num_codes@, 1, max + 1, max as int) <= pow2(max as nat) + code_list_len,
                code_list_len <= pow2(30),
                pow2(30) == 0x4000_0000,
            decreases max + 1 - k,
        {
            let x = num_codes[k] as u32;
            let sh = (max - k) as u32;
            proof {
                lemma_seg_nonneg(num_codes@, (k + 1) as int, max + 1, max as int);
                lemma_seg_split_kraft(num_codes@, 1, (k + 1) as int, max + 1, max as int);
                if max < 30 {
                    lemma_pow2_strictly_increases(max as nat, 30);
                }
                lemma_u32_pow2_no_overflow(sh as nat);
                lemma_u32_shl_is_mul(x, sh);
            }
            total = total + (x << sh);
            k += 1;
        }
        let mut iter: u32 = 1u32 << (max as u32);
        proof {
            lemma_u32_pow2_no_overflow(max as nat);
            lemma_u32_shl_is_mul(1, max as u32);
            assert(total == seg_kraft(orig, 1, max + 1, max as int) + seg_sum(orig, max + 1, len as int));
            if extra == 0 {
                assert(num_codes@ =~= orig);
            }
        }
        let ghost nc0 = num_codes@;
        let ghost t0 = total;
        proof {
            assert(nc0 =~= fold_long(orig, max as int));
        }
        while iter < total
            invariant
                1 <= max <= 30,
                len == num_codes@.len(),
                max < len,
                total == seg_kraft(num_codes@, 1, max + 1, max as int) + (iter - pow2(max as nat)),
                iter >= pow2(max as nat),
                forall|j: int| 1 <= j <= max ==> num_codes@[j] >= 0,
                num_codes@[max as int] >= seg_kraft(num_codes@, 1, max + 1, max as int) - pow2(max as nat),
                seg_sum(num_codes@, 1, max + 1) == code_list_len,
                code_list_len <= pow2(max as nat),
                pow2(max as nat) <= pow2(30),
                pow2(30) == 0x4000_0000,
                orig.len() == len,
                forall|j: int| max < j < len ==> num_codes@[j] == orig[j],
                iter <= total || iter == pow2(max as nat),
                iter == pow2(max as nat) ==> num_codes@ == nc0,
                num_codes@[0] == orig[0],
                num_codes@ == split_steps(nc0, max as int, (iter - pow2(max as nat)) as nat),
            decreases total - iter,
        {
            let ghost before = num_codes@;
            proof {
                lemma_seg_nonneg(before, 1, (max + 1) as int, max as int);
                assert forall|q: int| 1 <= q <= max implies before[q] <= code_list_len by {
                    lemma_seg_elem_le(before, 1, (max + 1) as int, q);
                }
            }
            num_codes[max] = num_codes[max] - 1;
            proof {
                lemma_seg_sum_update(before, 1, (max + 1) as int, max as int, num_codes@[max as int]);
                lemma_seg_kraft_update(before, 1, (max + 1) as int, max as int, max as int, num_codes@[max as int]);
                lemma2_to64();
                assert(pow2(0) == 1);
            }
            let ghost mid = num_codes@;
            let mut j: usize = max - 1;
            let mut found = false;
            let ghost mut fq: int = 0;
            while j >= 1 && !found
                invariant
                    0 <= j <= max - 1,
                    len == num_codes@.len(),
                    max < len,
                    !found ==> num_codes@ == mid,
                    !found ==> forall|q: int| j < q < max ==> mid[q] == 0,
                    found ==> forall|q: int| fq < q < max ==> mid[q] == 0,
                    found ==> 1 <= fq < max && mid[fq] > 0 && num_codes@ == mid.update(
                        fq,
                        (mid[fq] - 1) as i32,
                    ).update(fq + 1, (mid[fq + 1] + 2) as i32),
                    forall|q: int| 1 <= q <= max ==> mid[q] >= 0,
                    forall|q: int| 1 <= q <= max ==> mid[q] <= 0x4000_0000,
                    before.len() == len,
                    mid[max as int] <= before[max as int],
                decreases j + (if found { 0int } else { 1int }),
            {
                if num_codes[j] != 0 {
                    num_codes[j] = num_codes[j] - 1;
                    num_codes[j + 1] = num_codes[j + 1] + 2;
                    found = true;
                    proof {
                        fq = j as int;
                    }
                    assert(num_codes@ == mid.update(j as int, (mid[j as int] - 1) as i32).update(
                        j + 1,
                        (mid[j + 1] + 2) as i32,
                    ));
                } else {
                    j -= 1;
                }
            }
            proof {
                if !found {
                    lemma_seg_only_last(mid, 1, (max + 1) as int);
                    assert(seg_kraft(mid, 1, max + 1, max as int) == seg_kraft(before, 1, max + 1, max as int) - 1);
                    assert(false);
                }
                let q = fq;
                assert(seg_kraft(mid, 1, max + 1, max as int) == seg_kraft(before, 1, max + 1, max as int) - 1);
                assert(seg_sum(mid, 1, max + 1) == code_list_len - 1);
                let m1 = mid.update(q, (mid[q] - 1) as i32);
                assert((mid[q] - 1) as i32 == mid[q] - 1);
                assert((mid[q + 1] + 2) as i32 == mid[q + 1] + 2);
                assert(m1[q + 1] == mid[q + 1]);
                let pq = pow2((max - q) as nat) as int;
                let pq1 = pow2((max - (q + 1)) as nat) as int;
                let d1 = ((mid[q] - 1) as i32 - mid[q]) as int;
                let d2 = ((mid[q + 1] + 2) as i32 - m1[q + 1]) as int;
                assert(d1 == -1);
                assert(d2 == 2);
                assert(d1 * pq == -pq) by (nonlinear_arith)
                    requires
                        d1 == -1,
                ;
                assert(d2 * pq1 == 2 * pq1) by (nonlinear_arith)
                    requires
                        d2 == 2,
                ;
                lemma_seg_sum_update(mid, 1, (max + 1) as int, q, (mid[q] - 1) as i32);
                lemma_seg_kraft_update(mid, 1, (max + 1) as int, max as int, q, (mid[q] - 1) as i32);
                lemma_seg_sum_update(m1, 1, (max + 1) as int, q + 1, (mid[q + 1] + 2) as i32);
                lemma_seg_kraft_update(m1, 1, (max + 1) as int, max as int, q + 1, (mid[q + 1] + 2) as i32);
                lemma_pow2_unfold((max - q) as nat);
                assert((max - q - 1) as nat == (max - (q + 1)) as nat);
                assert(seg_kraft(m1, 1, max + 1, max as int) == seg_kraft(mid, 1, max + 1, max as int) - pow2((max - q) as nat));
                assert(seg_kraft(num_codes@, 1, max + 1, max as int) == seg_kraft(before, 1, max + 1, max as int) - 1);
                assert(before[q] == mid[q]);
                assert forall|r: int| q < r < max implies before[r] == 0 by {
                    assert(before[r] == mid[r]);
                }
                assert(longest_below(before, max as int, q));
                let i = choose|i: int| longest_below(before, max as int, i);
                if i < q {
                    assert(before[q] == 0);
                }
                if q < i {
                    assert(before[i] == 0);
                }
                assert(i == q);
                assert(num_codes@ =~= split_step(before, max as int));
            }
            iter += 1;
        }
    }

    /// Sorts symbols by key with a radix sort on the two bytes of the key, using `symbols1`
    /// as scratch space; the second pass is skipped when no key has a high byte.
    ///
    /// Returns the symbols of `symbols0` ordered by key.
    pub fn radix_sort_symbols(symbols0: Vec<SymFreq>, symbols1: Vec<SymFreq>) -> (r: Vec<SymFreq>)
        requires
            symbols0@.len() == symbols1@.len(),
        ensures
            r@.len() == symbols0@.len(),
            r@.to_multiset() == symbols0@.to_multiset(),
            sorted_by_key(r@),
            forall|k: int| 0 <= k < 65536 ==> #[trigger] r@.filter(key_is(k)) == symbols0@.filter(key_is(k)),
    {
        let n = symbols0.len();
        let mut low: usize = 0;
        let mut k: usize = 0;
        while k < n
            invariant
                n == symbols0@.len(),
                k <= n,
                low == count_low(symbols0@.take(k as int)),
                low <= k,
            decreases n - k,
        {
            proof {
                assert(symbols0@.take(k + 1).drop_last() =~= symbols0@.take(k as int));
            }
            if symbols0[k].key < 256 {
                low += 1;
            }
            k += 1;
        }
        proof {
            assert(symbols0@.take(n as int) =~= symbols0@);
        }
        let n_passes: usize = if n == low {
            1
        } else {
            2
        };
        let ghost s0 = symbols0@;
        proof {
            lemma_radix_sorted(s0);
            lemma_radix_stable(s0);
        }
        let mut current = symbols0;
        let mut new_symbols = symbols1;
        radix_pass(&current, &mut new_symbols, 0);
        proof {
            lemma_pass_permutes(s0, 0);
            lemma_buckets_sorted(s0, 0, 256);
        }
        let tmp = current;
        current = new_symbols;
        new_symbols = tmp;
        if n_passes > 1 {
            let ghost r0 = current@;
            radix_pass(&current, &mut new_symbols, 1);
            proof {
                lemma_pass_permutes(r0, 1);
                lemma_two_passes_sorted(r0, 256);
            }
            let tmp = current;
            current = new_symbols;
            new_symbols = tmp;
        } else {
            proof {
                lemma_count_low_all(s0);
                lemma_one_pass_sorted(s0);
            }
        }
        current
    }


    /// Builds the codes of table `table_num`, of `table_len` symbols, with codes of at most
    /// `code_size_limit` bits.
    ///
    /// A static table keeps its code lengths. Otherwise the lengths are computed from the
    /// symbol counts: a symbol gets a code exactly when it occurs, no code is longer than
    /// the limit, and the lengths fit in the code space. Then each symbol with a length
    /// gets the next canonical code of that length, bit-reversed for sending. The counts
    /// and the other tables are kept.
    pub fn optimize_table(
        &mut self,
        table_num: usize,
        table_len: usize,
        code_size_limit: usize,
        static_table: bool,
    )
        requires
            old(self).wf(),
            table_num < 3,
            table_len <= 288,
            1 <= code_size_limit <= 15,
            table_len <= pow2(code_size_limit as nat),
        ensures
            final(self).wf(),
            final(self).count@ == old(self).count@,
            forall|i: int|
                0 <= i < 864 && !(table_num * 288 <= i < table_num * 288 + 288) ==> final(self).code_sizes@[i] == old(self).code_sizes@[i] && final(self).codes@[i] == old(self).codes@[i],
            static_table ==> final(self).code_sizes@ == old(self).code_sizes@,
            !static_table ==> forall|i: int|
                0 <= i < 288 ==> (#[trigger] final(self).code_sizes@[tix(table_num as int, i)])
                    <= code_size_limit,
            !static_table ==> forall|i: int|
                0 <= i < 288 ==> ((#[trigger] final(self).code_sizes@[tix(table_num as int, i)])
                    != 0 <==> (i < table_len && old(self).count@[tix(table_num as int, i)] != 0)),
            !static_table ==> lengths_fit(final(self).code_sizes@, table_num * 288, table_len as int),
            !static_table ==> forall|i: int, j: int|
                0 <= i < table_len && 0 <= j < table_len && old(self).count@[tix(table_num as int, i)] > old(
                    self,
                ).count@[tix(table_num as int, j)] > 0 ==> final(self).code_sizes@[#[trigger] tix(
                    table_num as int,
                    i,
                )] <= final(self).code_sizes@[#[trigger] tix(table_num as int, j)],
            forall|x: int|
                0 <= x < table_len && 0 < #[trigger] final(self).code_sizes@[tix(table_num as int, x)]
                    <= code_size_limit ==> final(self).codes@[tix(table_num as int, x)] as nat == canonical_code(
                    final(self).code_sizes@,
                    table_num * 288,
                    table_len as int,
                    x,
                ),
    {
        let t = table_num;
        let base = t * 288;
        let ghost old_self = *self;
        let mut num_codes = [0i32; 289];
        let mut next_code = [0u32; 33];
        proof {
            lemma2_to64();
            lemma_pow2_strictly_increases(code_size_limit as nat, 30);
        }
        if static_table {
            let mut k: usize = 0;
            while k < table_len
                invariant
                    k <= table_len <= 288,
                    base == t * 288,
                    t < 3,
                    *self == old_self,
                    self.wf(),
                    forall|d: int| 0 <= d < 289 ==> 0 <= (#[trigger] num_codes@[d]) <= k,
                    forall|d: int|
                        0 <= d < 289 ==> (#[trigger] num_codes@[d]) == len_count(
                            self.code_sizes@,
                            base as int,
                            k as int,
                            d,
                        ),
                decreases table_len - k,
            {
                let c = self.code_sizes[base + k] as usize;
                num_codes[c] = num_codes[c] + 1;
                k += 1;
            }
        } else {
            self.dynamic_code_sizes(t, table_len, code_size_limit, &mut num_codes);
            proof {
                assert forall|x: int| 0 <= x < table_len implies #[trigger] self.code_sizes@[base + x] <= code_size_limit by {
                    assert(self.code_sizes@[tix(t as int, x)] <= code_size_limit);
                }
                lemma_fit_from_counts(self.code_sizes@, base as int, table_len as int, num_codes@, code_size_limit as int);
            }
        }
        let ghost sizes = self.code_sizes@;
        assert(forall|d: int|
            1 <= d <= code_size_limit ==> (#[trigger] num_codes@[d]) == len_count(sizes, base as int, table_len as int, d));
        // The first code of each length.
        let mut j: i32 = 0;
        let mut i: usize = 2;
        next_code[1] = 0;
        proof {
            lemma2_to64();
        }
        while i <= code_size_limit
            invariant
                2 <= i <= code_size_limit + 1,
                code_size_limit <= 15,
                forall|d: int| 1 <= d <= code_size_limit ==> 0 <= (#[trigger] num_codes@[d]) <= 288,
                0 <= j,
                j + 576 <= 576 * pow2((i - 2) as nat),
                pow2(13) == 0x2000,
                forall|c: int| 0 <= c < 33 ==> (#[trigger] next_code@[c]) <= 9437184,
                forall|d: int|
                    1 <= d <= code_size_limit ==> (#[trigger] num_codes@[d]) == len_count(
                        sizes,
                        base as int,
                        table_len as int,
                        d,
                    ),
                j == first_code(sizes, base as int, table_len as int, (i - 1) as nat),
                forall|c: int|
                    1 <= c < i ==> (#[trigger] next_code@[c]) == first_code(
                        sizes,
                        base as int,
                        table_len as int,
                        c as nat,
                    ),
            decreases code_size_limit + 1 - i,
        {
            proof {
                lemma_pow2_unfold((i - 1) as nat);
                if i - 2 < 13 {
                    lemma_pow2_strictly_increases((i - 2) as nat, 13);
                }
                let x: i32 = (j + num_codes@[i - 1]) as i32;
                assert(0 <= x < 0x4000_0000);
                assert(0 <= x < 0x4000_0000 ==> x << 1 == 2 * x) by (bit_vector);
            }
            j = (j + num_codes[i - 1]) << 1;
            next_code[i] = j as u32;
            i += 1;
        }
        self.assign_codes(t, table_len, &mut next_code);
        proof {
            assert forall|x: int|
                0 <= x < table_len && 0 < #[trigger] self.code_sizes@[tix(t as int, x)]
                    <= code_size_limit implies self.codes@[tix(t as int, x)] as nat == canonical_code(
                self.code_sizes@,
                t * 288,
                table_len as int,
                x,
            ) by {
                assert(self.code_sizes@[t * 288 + x] != 0);
            }
        }
    }


    /// Code lengths of table `t` computed from its counts; `num_codes` receives the number
    /// of codes of each length.
    #[verifier::spinoff_prover]
    fn dynamic_code_sizes(
        &mut self,
        t: usize,
        table_len: usize,
        code_size_limit: usize,
        num_codes: &mut [i32; 289],
    )
        requires
            old(self).wf(),
            t < 3,
            table_len <= 288,
            1 <= code_size_limit <= 15,
            table_len <= pow2(code_size_limit as nat),
            forall|d: int| 0 <= d < 289 ==> old(num_codes)@[d] == 0,
        ensures
            final(self).wf(),
            final(self).count@ == old(self).count@,
            forall|i: int|
                0 <= i < 864 && !(t * 288 <= i < t * 288 + 288) ==> final(self).code_sizes@[i]
                    == old(self).code_sizes@[i] && final(self).codes@[i] == old(self).codes@[i],
            forall|i: int|
                0 <= i < 288 ==> (#[trigger] final(self).code_sizes@[tix(t as int, i)])
                    <= code_size_limit,
            forall|i: int|
                0 <= i < 288 ==> ((#[trigger] final(self).code_sizes@[tix(t as int, i)]) != 0 <==> (
                i < table_len && old(self).count@[tix(t as int, i)] != 0)),
            forall|d: int| 1 <= d <= code_size_limit ==> 0 <= (#[trigger] final(num_codes)@[d]) <= 288,
            forall|d: int|
                1 <= d <= code_size_limit ==> (#[trigger] final(num_codes)@[d]) == len_count(
                    final(self).code_sizes@,
                    t * 288,
                    table_len as int,
                    d,
                ),
            seg_kraft(final(num_codes)@, 1, code_size_limit + 1, code_size_limit as int) <= pow2(
                code_size_limit as nat,
            ),
            forall|i: int, j: int|
                0 <= i < table_len && 0 <= j < table_len && old(self).count@[tix(t as int, i)] > old(
                    self,
                ).count@[tix(t as int, j)] > 0 ==> final(self).code_sizes@[#[trigger] tix(t as int, i)]
                    <= final(self).code_sizes@[#[trigger] tix(t as int, j)],
            final(num_codes)@.len() == 289,
    {
        let base = t * 288;
        assert(base + 288 <= 864) by (nonlinear_arith)
            requires
                t < 3,
                base == t * 288,
        ;
        let ghost cnt = self.count@;
        let mut symbols0: Vec<SymFreq> = Vec::new();
        let mut i: usize = 0;
        while i < table_len
            invariant
                i <= table_len <= 288,
                base == t * 288,
                t < 3,
                self.wf(),
                self.count@ == cnt,
                symbols0@.len() <= i,
                forall|p: int|
                    0 <= p < symbols0@.len() ==> (#[trigger] symbols0@[p]).sym_index < table_len
                        && cnt[base + symbols0@[p].sym_index] != 0,
                forall|x: int|
                    0 <= x < i && cnt[base + x] != 0 ==> symbols0@.contains(#[trigger] sym_of(cnt, t as int, x)),
                forall|a: int, b: int|
                    0 <= a < b < symbols0@.len() ==> (#[trigger] symbols0@[a]).sym_index < (
                    #[trigger] symbols0@[b]).sym_index,
                forall|a: int| 0 <= a < symbols0@.len() ==> (#[trigger] symbols0@[a]).sym_index < i,
            decreases table_len - i,
        {
            let c = self.count[base + i];
            if c != 0 {
                let ghost before = symbols0@;
                symbols0.push(SymFreq { key: c, sym_index: i as u16 });
                proof {
                    assert forall|x: int|
                        0 <= x < i + 1 && cnt[base + x] != 0 implies symbols0@.contains(#[trigger] sym_of(cnt, t as int, x)) by {
                        if x < i {
                            let q = choose|q: int|
                                0 <= q < before.len() && before[q] == sym_of(cnt, t as int, x);
                            assert(symbols0@[q] == before[q]);
                        } else {
                            assert(symbols0@[before.len() as int] == sym_of(cnt, t as int, x));
                        }
                    }
                }
            }
            i += 1;
        }
        let num_used = symbols0.len();
        let ghost s0 = symbols0@;
        let symbols1: Vec<SymFreq> = vec![SymFreq { key: 0, sym_index: 0 }; num_used];
        let mut symbols = Self::radix_sort_symbols(symbols0, symbols1);
        let ghost sorted = symbols@;
        proof {
            assert forall|p: int| 0 <= p < num_used implies s0.contains(#[trigger] sorted[p]) by {
                assert(sorted.contains(sorted[p]));
                vstd::seq_lib::to_multiset_contains(sorted, sorted[p]);
                vstd::seq_lib::to_multiset_contains(s0, sorted[p]);
            }
            assert forall|x: int|
                0 <= x < table_len && cnt[base + x] != 0 implies sorted.contains(
                sym_of(cnt, t as int, x),
            ) by {
                assert(s0.contains(sym_of(cnt, t as int, x)));
                vstd::seq_lib::to_multiset_contains(sorted, sym_of(cnt, t as int, x));
                vstd::seq_lib::to_multiset_contains(s0, sym_of(cnt, t as int, x));
            }
        }
        proof {
            lemma_sorted_distinct(s0, sorted);
        }
        Self::calculate_minimum_redundancy(symbols.as_mut_slice());
        let ghost lens = symbols@;
        proof {
            assert forall|p: int| 0 <= p < num_used implies (#[trigger] lens[p]).sym_index < table_len
                && cnt[base + lens[p].sym_index] != 0 by {
                assert(s0.contains(sorted[p]));
                let q = choose|q: int| 0 <= q < s0.len() && s0[q] == sorted[p];
            }
        }
        // Number of codes of each length.
        let mut k: usize = 0;
        let ghost lim = code_size_limit as int;
        proof {
            lemma_seg_zero(num_codes@, 1, 289, lim);
            lemma_seg_zero(num_codes@, 1, lim + 1, lim);
            if num_used >= 2 {
                lemma_pow2_pos((num_used - 1) as nat);
            }
        }
        while k < num_used
            invariant
                k <= num_used <= 288,
                symbols@ == lens,
                lens.len() == num_used,
                lim == code_size_limit,
                1 <= lim <= 15,
                num_used == 1 ==> lens[0].key == 1,
                num_used >= 2 ==> complete_code_lengths(lens),
                num_codes@[0] == 0,
                forall|d: int| 0 <= d < 289 ==> 0 <= #[trigger] num_codes@[d] <= k,
                seg_sum(num_codes@, 1, 289) == k,
                seg_kraft(num_codes@, 1, lim + 1, lim) == kraft_upto(lens, k as int, lim),
                num_used <= 1 ==> forall|d: int| lim < d < 289 ==> #[trigger] num_codes@[d] == 0,
            decreases num_used - k,
        {
            let c = symbols[k].key as usize;
            let ghost before = num_codes@;
            num_codes[c] = num_codes[c] + 1;
            proof {
                lemma_seg_sum_update(before, 1, 289, c as int, num_codes@[c as int]);
                lemma_seg_kraft_update(before, 1, lim + 1, lim, c as int, num_codes@[c as int]);
                lemma2_to64();
            }
            k += 1;
        }
        proof {
            // The lengths of a complete code take at most the whole code space below the limit.
            if num_used >= 2 {
                let dd = (num_used - 1) as nat;
                lemma_kraft_from_upto(lens, 0, dd);
                if lim <= dd {
                    lemma_kraft_upto_scale(lens, num_used as int, lim, dd as int);
                    lemma_pow2_adds((dd - lim) as nat, lim as nat);
                    let a = pow2((dd - lim) as nat) as int;
                    let x = kraft_upto(lens, num_used as int, lim);
                    let b = pow2(lim as nat) as int;
                    lemma_pow2_pos((dd - lim) as nat);
                    assert(x <= b) by (nonlinear_arith)
                        requires
                            a > 0,
                            a * x <= a * b,
                    {
                    }
                } else {
                    lemma_kraft_upto_scale(lens, num_used as int, dd as int, lim);
                    lemma_pow2_adds((lim - dd) as nat, dd);
                }
            }
        }
        let ghost kr = seg_kraft(num_codes@, 1, lim + 1, lim);
        proof {
            if num_used == 1 {
                assert(kraft_upto(lens, 0, lim) == 0);
                lemma_pow2_strictly_increases((lim - 1) as nat, lim as nat);
            }
        }
        Self::enforce_max_code_size(num_codes, num_used, code_size_limit);
        proof {
            lemma_seg_sum_split(num_codes@, 1, lim + 1, 289);
            if num_used <= 1 {
                lemma_seg_zero(num_codes@, lim + 1, 289, lim);
            }
            lemma_seg_nonneg(num_codes@, 1, lim + 1, lim);
            assert forall|d: int| 1 <= d <= lim implies 0 <= (#[trigger] num_codes@[d]) <= 288 by {
                lemma_seg_elem_le(num_codes@, 1, lim + 1, d);
            }
        }
        memset_range(&mut self.code_sizes, base, base + 288, 0u8);
        memset_range(&mut self.codes, base, base + 288, 0u16);
        proof {
            lemma2_to64();
        }
        let mut last: usize = num_used;
        let mut len: usize = 1;
        while len <= code_size_limit
            invariant
                1 <= len <= code_size_limit + 1,
                table_len <= 288,
                lim == code_size_limit,
                1 <= lim <= 15,
                base == t * 288,
                base + 288 <= 864,
                t < 3,
                symbols@ == lens,
                lens.len() == num_used,
                num_used <= 288,
                forall|d: int| 1 <= d <= lim ==> 0 <= (#[trigger] num_codes@[d]) <= 288,
                seg_sum(num_codes@, 1, lim + 1) == num_used,
                last + seg_sum(num_codes@, 1, len as int) == num_used,
                self.count@ == cnt,
                self.codes@.len() == 864,
                self.code_sizes@.len() == 864,
                forall|i: int| 0 <= i < 864 ==> (#[trigger] self.code_sizes@[i]) <= 15,
                forall|i: int| 0 <= i < 864 ==> (#[trigger] self.codes@[i]) < pow2(self.code_sizes@[i] as nat),
                forall|i: int|
                    0 <= i < 864 && !(t * 288 <= i < t * 288 + 288) ==> self.code_sizes@[i]
                        == old(self).code_sizes@[i] && self.codes@[i] == old(self).codes@[i],
                forall|i: int| 0 <= i < 288 ==> #[trigger] self.codes@[tix(t as int, i)] == 0,
                forall|i: int| 0 <= i < 288 ==> (#[trigger] self.code_sizes@[tix(t as int, i)]) < len,
                forall|p: int| 0 <= p < num_used ==> (#[trigger] lens[p]).sym_index < table_len
                    && cnt[base + lens[p].sym_index] != 0,
                forall|i: int|
                    0 <= i < 288 && (#[trigger] self.code_sizes@[tix(t as int, i)]) != 0 ==> i < table_len
                        && cnt[base + i] != 0,
                forall|p: int| last <= p < num_used ==> self.code_sizes@[base + (#[trigger] lens[p]).sym_index] != 0,
                forall|p: int, q: int|
                    0 <= p < q < num_used ==> (#[trigger] lens[p]).sym_index != (#[trigger] lens[q]).sym_index,
                forall|q: int| 0 <= q < last ==> self.code_sizes@[base + (#[trigger] lens[q]).sym_index] == 0,
                forall|d: int|
                    1 <= d < len ==> (#[trigger] num_codes@[d]) == len_count(
                        self.code_sizes@,
                        base as int,
                        table_len as int,
                        d,
                    ),
                forall|a: int, b: int|
                    last <= a < b < num_used ==> self.code_sizes@[base + (#[trigger] lens[a]).sym_index]
                        >= self.code_sizes@[base + (#[trigger] lens[b]).sym_index],
            decreases code_size_limit + 1 - len,
        {
            proof {
                lemma_seg_sum_split(num_codes@, 1, (len + 1) as int, lim + 1);
                lemma_seg_nonneg(num_codes@, (len + 1) as int, lim + 1, lim);
                lemma_seg_nonneg(num_codes@, 1, len as int, lim);
                lemma2_to64();
            }
            let first = last - num_codes[len] as usize;
            let mut p: usize = first;
            proof {
                assert forall|x: int| 0 <= x < table_len implies #[trigger] self.code_sizes@[base + x] != len as int by {
                    assert(self.code_sizes@[tix(t as int, x)] < len);
                }
                lemma_len_count_none(self.code_sizes@, base as int, table_len as int, len as int);
                assert forall|b: int| last <= b < num_used implies self.code_sizes@[base + (#[trigger] lens[b]).sym_index] < len by {
                    assert(self.code_sizes@[tix(t as int, lens[b].sym_index as int)] < len);
                }
            }
            while p < last
                invariant
                    first <= p <= last <= num_used <= 288,
                    table_len <= 288,
                    1 <= len <= 15,
                    base == t * 288,
                    base + 288 <= 864,
                    t < 3,
                    symbols@ == lens,
                    lens.len() == num_used,
                    self.count@ == cnt,
                    self.codes@.len() == 864,
                    self.code_sizes@.len() == 864,
                    forall|i: int| 0 <= i < 864 ==> (#[trigger] self.code_sizes@[i]) <= 15,
                    forall|i: int| 0 <= i < 864 ==> (#[trigger] self.codes@[i]) < pow2(self.code_sizes@[i] as nat),
                    forall|i: int|
                        0 <= i < 864 && !(t * 288 <= i < t * 288 + 288) ==> self.code_sizes@[i]
                            == old(self).code_sizes@[i] && self.codes@[i] == old(self).codes@[i],
                    forall|i: int| 0 <= i < 288 ==> #[trigger] self.codes@[tix(t as int, i)] == 0,
                    forall|i: int| 0 <= i < 288 ==> (#[trigger] self.code_sizes@[tix(t as int, i)]) < len + 1,
                    forall|p: int| 0 <= p < num_used ==> (#[trigger] lens[p]).sym_index < table_len
                        && cnt[base + lens[p].sym_index] != 0,
                    forall|i: int|
                        0 <= i < 288 && (#[trigger] self.code_sizes@[tix(t as int, i)]) != 0 ==> i < table_len
                            && cnt[base + i] != 0,
                    forall|q: int| (last <= q < num_used || first <= q < p) ==> self.code_sizes@[base + (#[trigger] lens[q]).sym_index] != 0,
                    pow2(0) == 1,
                    forall|p: int, q: int|
                        0 <= p < q < num_used ==> (#[trigger] lens[p]).sym_index != (#[trigger] lens[q]).sym_index,
                    forall|q: int|
                        (0 <= q < first || p <= q < last) ==> self.code_sizes@[base + (#[trigger] lens[q]).sym_index]
                            == 0,
                    forall|d: int|
                        1 <= d < len ==> (#[trigger] num_codes@[d]) == len_count(
                            self.code_sizes@,
                            base as int,
                            table_len as int,
                            d,
                        ),
                    len_count(self.code_sizes@, base as int, table_len as int, len as int) == p - first,
                    forall|a: int| first <= a < p ==> self.code_sizes@[base + (#[trigger] lens[a]).sym_index] == len,
                    forall|b: int| last <= b < num_used ==> self.code_sizes@[base + (#[trigger] lens[b]).sym_index] < len,
                    forall|a: int, b: int|
                        last <= a < b < num_used ==> self.code_sizes@[base + (#[trigger] lens[a]).sym_index]
                            >= self.code_sizes@[base + (#[trigger] lens[b]).sym_index],
                decreases last - p,
            {
                let sym = symbols[p].sym_index as usize;
                assert(lens[p as int].sym_index < table_len);
                assert(self.codes@[tix(t as int, sym as int)] == 0);
                let ghost before = self.code_sizes@;
                self.code_sizes[base + sym] = len as u8;
                proof {
                    assert forall|d: int| 1 <= d <= len implies len_count(
                        self.code_sizes@,
                        base as int,
                        table_len as int,
                        d,
                    ) + (if d == len { 0int } else { 0int }) == len_count(before, base as int, table_len as int, d) + (
                    if d == len { 1int } else { 0int }) by {
                        lemma_len_count_update(before, base as int, table_len as int, d, base + sym, len as u8);
                    }
                    assert forall|q: int|
                        (0 <= q < first || p + 1 <= q < last) implies self.code_sizes@[base + (
                        #[trigger] lens[q]).sym_index] == 0 by {
                        assert(lens[q].sym_index != lens[p as int].sym_index);
                    }
                    lemma_pow2_pos(len as nat);
                    assert forall|i: int| 0 <= i < 864 implies (#[trigger] self.codes@[i]) < pow2(
                        self.code_sizes@[i] as nat,
                    ) by {
                        if i != base + sym {
                            assert(self.code_sizes@[i] == before[i]);
                        }
                    }
                }
                p += 1;
            }
            proof {
                assert forall|a: int, b: int|
                    first <= a < b < num_used implies self.code_sizes@[base + (#[trigger] lens[a]).sym_index]
                        >= self.code_sizes@[base + (#[trigger] lens[b]).sym_index] by {
                    if a < last && b >= last {
                        assert(self.code_sizes@[base + lens[b].sym_index] < len);
                    }
                }
            }
            last = first;
            len += 1;
        }
        proof {
            assert(last == 0);
            assert forall|i: int, j: int|
                0 <= i < table_len && 0 <= j < table_len && cnt[base + i] > cnt[base + j] > 0 implies
                self.code_sizes@[#[trigger] tix(t as int, i)] <= self.code_sizes@[#[trigger] tix(t as int, j)] by {
                assert(sorted.contains(sym_of(cnt, t as int, i)));
                assert(sorted.contains(sym_of(cnt, t as int, j)));
                let p = choose|p: int| 0 <= p < sorted.len() && sorted[p] == sym_of(cnt, t as int, i);
                let q = choose|q: int| 0 <= q < sorted.len() && sorted[q] == sym_of(cnt, t as int, j);
                assert(lens[p].sym_index == i);
                assert(lens[q].sym_index == j);
                if p < q {
                    assert(sorted[p].key <= sorted[q].key);
                }
                assert(q < p);
            }
            assert forall|x: int| 0 <= x < 288 implies ((#[trigger] self.code_sizes@[tix(t as int, x)])
                != 0 <==> (x < table_len && old(self).count@[tix(t as int, x)] != 0)) by {
                if x < table_len && cnt[base + x] != 0 {
                    assert(sorted.contains(sym_of(cnt, t as int, x)));
                    let q = choose|q: int| 0 <= q < sorted.len() && sorted[q] == sym_of(cnt, t as int, x);
                    assert(lens[q].sym_index == x);
                }
            }
        }
    }

    /// Gives each symbol of table `t` with a code length the next code of that length,
    /// with its bits reversed so that the first bit to send is the lowest.
    fn assign_codes(&mut self, t: usize, table_len: usize, next_code: &mut [u32; 33])
        requires
            old(self).wf(),
            t < 3,
            table_len <= 288,
            forall|c: int| 0 <= c < 33 ==> (#[trigger] old(next_code)@[c]) <= 9437184,
        ensures
            final(self).wf(),
            final(self).count@ == old(self).count@,
            final(self).code_sizes@ == old(self).code_sizes@,
            forall|i: int|
                0 <= i < 864 && !(t * 288 <= i < t * 288 + table_len) ==> final(self).codes@[i]
                    == old(self).codes@[i],
            forall|x: int|
                0 <= x < table_len && #[trigger] final(self).code_sizes@[t * 288 + x] != 0 ==> final(self).codes@[t
                    * 288 + x] as nat == rev_onto(
                    0,
                    (old(next_code)@[final(self).code_sizes@[t * 288 + x] as int] + len_count(
                        final(self).code_sizes@,
                        t * 288,
                        x,
                        final(self).code_sizes@[t * 288 + x] as int,
                    )) as nat,
                    final(self).code_sizes@[t * 288 + x] as nat,
                ),
    {
        let base = t * 288;
        let ghost nc0 = next_code@;
        let ghost sizes = self.code_sizes@;
        let mut k: usize = 0;
        while k < table_len
            invariant
                k <= table_len <= 288,
                base == t * 288,
                t < 3,
                self.wf(),
                self.count@ == old(self).count@,
                self.code_sizes@ == old(self).code_sizes@,
                sizes == old(self).code_sizes@,
                nc0 == old(next_code)@,
                forall|i: int|
                    0 <= i < 864 && !(t * 288 <= i < t * 288 + table_len) ==> self.codes@[i]
                        == old(self).codes@[i],
                forall|c: int| 0 <= c < 33 ==> (#[trigger] next_code@[c]) <= 9437184 + k,
                forall|c: int| 1 <= c <= 15 ==> #[trigger] next_code@[c] == nc0[c] + len_count(sizes, base as int, k as int, c),
                forall|x: int|
                    0 <= x < k && #[trigger] sizes[base + x] != 0 ==> self.codes@[base + x] as nat == rev_onto(
                        0,
                        (nc0[sizes[base + x] as int] + len_count(sizes, base as int, x, sizes[base + x] as int)) as nat,
                        sizes[base + x] as nat,
                    ),
            decreases table_len - k,
        {
            let code_size = self.code_sizes[base + k];
            proof {
                assert forall|c: int| 1 <= c <= 15 implies len_count(sizes, base as int, k + 1, c) == len_count(
                    sizes,
                    base as int,
                    k as int,
                    c,
                ) + (if code_size == c { 1nat } else { 0nat }) by {}
            }
            if code_size != 0 {
                let mut code = next_code[code_size as usize];
                let ghost code0 = code;
                next_code[code_size as usize] = next_code[code_size as usize] + 1;
                let mut rev_code: u32 = 0;
                let mut b: u8 = 0;
                proof {
                    lemma2_to64();
                }
                while b < code_size
                    invariant
                        b <= code_size <= 15,
                        rev_code < pow2(b as nat),
                        pow2(15) == 0x8000,
                        rev_onto(rev_code as nat, code as nat, (code_size - b) as nat) == rev_onto(
                            0,
                            code0 as nat,
                            code_size as nat,
                        ),
                    decreases code_size - b,
                {
                    proof {
                        lemma_pow2_unfold((b + 1) as nat);
                        if b < 15 {
                            lemma_pow2_strictly_increases(b as nat, 15);
                        }
                        lemma_rev_step(rev_code, code);
                    }
                    rev_code = (rev_code << 1) | (code & 1);
                    code = code >> 1;
                    b += 1;
                }
                proof {
                    lemma_pow2_strictly_increases(code_size as nat, 16);
                    lemma2_to64();
                }
                self.codes[base + k] = rev_code as u16;
            }
            k += 1;
        }
    }

}

impl Default for HuffmanOxide {
    fn default() -> (r: Self)
        ensures
            r.wf(),
            forall|i: int| 0 <= i < 864 ==> r.count@[i] == 0 && r.codes@[i] == 0 && r.code_sizes@[i] == 0,
    {
        let r = HuffmanOxide { count: vec![0u16; 864], codes: vec![0u16; 864], code_sizes: vec![0u8; 864] };
        proof {
            lemma2_to64();
        }
        r
    }
}

} // verus!
