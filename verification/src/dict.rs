//! The LZ dictionary: a ring buffer of recent input, mirrored past its end so that a
//! match can be read without wrapping, and hash chains of earlier positions.

use vstd::prelude::*;
use crate::bits::{lemma_mask15, lemma_mask15_usize, lemma_wrap_mask15};

verus! {

/// The buffers of the dictionary: the data (32768 bytes, then a mirror of the first 257
/// and one byte of padding), the chain of earlier positions with the same hash, and the
/// latest position of each hash.
pub struct HashBuffers {
    pub dict: Vec<u8>,
    pub next: Vec<u16>,
    pub hash: Vec<u16>,
}

impl HashBuffers {
    pub open spec fn wf(&self) -> bool {
        &&& self.dict@.len() == 33026
        &&& self.next@.len() == 32768
        &&& self.hash@.len() == 32768
    }
}

impl Default for HashBuffers {
    fn default() -> (r: Self)
        ensures
            r.wf(),
            forall|i: int| 0 <= i < 33026 ==> r.dict@[i] == 0,
            forall|i: int| 0 <= i < 32768 ==> r.next@[i] == 0 && r.hash@[i] == 0,
    {
        HashBuffers { dict: vec![0u8; 33026], next: vec![0u16; 32768], hash: vec![0u16; 32768] }
    }
}

/// The first 257 bytes of the ring buffer are repeated past its end.
pub open spec fn mirrored(d: Seq<u8>) -> bool {
    forall|i: int| 0 <= i < 257 ==> #[trigger] d[32768 + i] == d[i]
}

/// `new` is `old` with `data` stored into the ring buffer from slot `dst0` on, wrapping at
/// its end, and the mirror kept.
pub open spec fn ring_stores(old: Seq<u8>, new: Seq<u8>, dst0: int, data: Seq<u8>) -> bool {
    &&& new.len() == old.len()
    &&& forall|k: int| 0 <= k < data.len() ==> #[trigger] new[(dst0 + k) % 32768] == data[k]
    &&& forall|i: int| 0 <= i < 32768 && (i - dst0) % 32768 >= data.len() ==> #[trigger] new[i] == old[i]
    &&& mirrored(old) ==> mirrored(new)
}

proof fn lemma_ring_stores_empty(d: Seq<u8>, dst0: int)
    ensures
        ring_stores(d, d, dst0, Seq::empty()),
{
}

/// Storing one more byte at the next slot.
proof fn lemma_ring_store_step(old: Seq<u8>, cur: Seq<u8>, new: Seq<u8>, dst0: int, data: Seq<u8>, c: u8)
    requires
        old.len() == 33026,
        0 <= dst0 < 32768,
        data.len() < 32768,
        ring_stores(old, cur, dst0, data),
        new == (if (dst0 + data.len()) % 32768 < 257 {
            cur.update((dst0 + data.len()) % 32768, c).update(32768 + (dst0 + data.len()) % 32768, c)
        } else {
            cur.update((dst0 + data.len()) % 32768, c)
        }),
    ensures
        ring_stores(old, new, dst0, data.push(c)),
{
    let n = data.len() as int;
    let s = (dst0 + n) % 32768;
    let d2 = data.push(c);
    assert forall|k: int| 0 <= k < d2.len() implies #[trigger] new[(dst0 + k) % 32768] == d2[k] by {
        if k < n {
            assert((dst0 + k) % 32768 != s);
        }
    }
    assert forall|i: int| 0 <= i < 32768 && (i - dst0) % 32768 >= d2.len() implies #[trigger] new[i] == old[i] by {
        assert(i != s);
    }
    if mirrored(old) {
        assert forall|i: int| 0 <= i < 257 implies #[trigger] new[32768 + i] == new[i] by {
            assert(cur[32768 + i] == cur[i]);
        }
    }
}

/// The ring buffer `d` holds the stream `hist` in the window before `end`: the `span`
/// bytes before `end` are in their slots, and the first 257 slots are mirrored.
pub open spec fn window_holds(d: Seq<u8>, hist: Seq<u8>, span: int) -> bool {
    &&& d.len() == 33026
    &&& 0 <= span <= 32768
    &&& span <= hist.len()
    &&& forall|q: int| hist.len() - span <= q < hist.len() ==> #[trigger] d[q % 32768] == hist[q]
    &&& mirrored(d)
}

/// The byte read at slot `(q % 32768) + t` (reading on into the mirror) is the stream's
/// byte at `q + t`.
pub proof fn lemma_window_read(d: Seq<u8>, hist: Seq<u8>, span: int, q: int, t: int)
    requires
        window_holds(d, hist, span),
        0 <= t <= 257,
        hist.len() - span <= q + t < hist.len(),
        0 <= q,
    ensures
        d[q % 32768 + t] == hist[q + t],
{
    let j = q % 32768 + t;
    assert(d[(q + t) % 32768] == hist[q + t]);
    if j < 32768 {
        assert((q + t) % 32768 == j);
    } else {
        assert((q + t) % 32768 == j - 32768);
        assert(d[32768 + (j - 32768)] == d[j - 32768]);
    }
}

/// The position `dist` back from the lookahead position, in the ring.
#[verifier::spinoff_prover]
#[verifier::rlimit(40)]
pub proof fn lemma_probe_slot(lookahead_pos: u32, pos: int, dist: u32)
    requires
        0 <= pos,
        lookahead_pos as int == pos % 0x1_0000_0000,
        1 <= dist <= 32768,
        dist <= pos,
    ensures
        (lookahead_pos & 32767u32) as int == pos % 32768,
        (lookahead_pos.wrapping_sub(dist) & 32767u32) as int == (pos - dist) % 32768,
{
    lemma_mask15(lookahead_pos);
    lemma_mask15(dist);
    lemma_wrap_mask15(lookahead_pos, dist);
    let a = (lookahead_pos & 32767u32) as int;
    let b = (dist & 32767u32) as int;
    lemma_mask15((((lookahead_pos & 32767u32) + 32768u32) - (dist & 32767u32)) as u32);
    vstd::arithmetic::div_mod::lemma_mod_mod(pos, 32768, 131072);
    assert(a == pos % 32768);
    assert(b == dist % 32768);
    assert((a + 32768 - b) % 32768 == (pos - dist) % 32768) by {
        vstd::arithmetic::div_mod::lemma_mod_sub_multiples_vanish(pos - dist, 32768);
    }
}

/// A match the dictionary shows, within the window, is a match in the stream.
pub proof fn lemma_match_in_stream(d: Seq<u8>, hist: Seq<u8>, span: int, lookahead_pos: u32, pos: int, la: int, dist: u32, len: int)
    requires
        window_holds(d, hist, span),
        0 <= pos,
        pos + la == hist.len(),
        la <= span,
        lookahead_pos as int == pos % 0x1_0000_0000,
        1 <= dist <= 32768,
        dist <= span - la,
        0 <= len <= la,
        len <= 258,
        match_at(d, lookahead_pos, dist, len),
    ensures
        forall|t: int| 0 <= t < len ==> #[trigger] hist[pos + t] == hist[pos - dist + t],
        dist <= pos,
{
    lemma_probe_slot(lookahead_pos, pos, dist);
    assert forall|t: int| 0 <= t < len implies #[trigger] hist[pos + t] == hist[pos - dist + t] by {
        assert(d[pos % 32768 + t] == d[(pos - dist) % 32768 + t]);
        lemma_window_read(d, hist, span, pos, t);
        lemma_window_read(d, hist, span, pos - dist, t);
    }
}

/// The LZ dictionary and where the compressor stands in it.
pub struct DictOxide {
    /// The number of hash chain probes for a first match, and for a match after one.
    pub max_probes: [u32; 2],
    pub b: HashBuffers,
    pub code_buf_dict_pos: u32,
    pub lookahead_size: u32,
    pub lookahead_pos: u32,
    pub size: u32,
}

/// The probe limits given by the low 12 bits of the flags.
pub open spec fn probes_of(flags: u32) -> (u32, u32) {
    let p = flags & 0xFFF;
    ((1 + (p + 2) / 3) as u32, (1 + ((p >> 2u32) + 2) / 3) as u32)
}

/// The `len` bytes at `pos` equal those at the position `dist` back from `lookahead_pos`,
/// in the ring buffer.
pub open spec fn match_at(dict: Seq<u8>, lookahead_pos: u32, dist: u32, len: int) -> bool {
    let pos = (lookahead_pos & 32767u32) as int;
    let probe = (lookahead_pos.wrapping_sub(dist) & 32767u32) as int;
    forall|t: int| 0 <= t < len ==> #[trigger] dict[pos + t] == dict[probe + t]
}

/// The position that entry `k` of the hash chain of `lookahead_pos` holds: the chain starts
/// at the slot of `lookahead_pos` and goes on from the slot of each position it holds.
pub open spec fn chain_entry(next: Seq<u16>, lookahead_pos: u32, k: nat) -> u32
    decreases k,
{
    if k == 0 {
        next[(lookahead_pos & 32767u32) as int] as u32
    } else {
        next[(chain_entry(next, lookahead_pos, (k - 1) as nat) & 32767u32) as int] as u32
    }
}

/// The distance back from `lookahead_pos` of entry `k` of its hash chain.
pub open spec fn chain_dist(next: Seq<u16>, lookahead_pos: u32, k: nat) -> u32 {
    lookahead_pos.wrapping_sub(chain_entry(next, lookahead_pos, k)) & 0xFFFFu32
}

/// The entries `0..=k` of the hash chain are all set and lie within `max_dist`.
pub open spec fn chain_ok(next: Seq<u16>, lookahead_pos: u32, max_dist: u32, k: nat) -> bool {
    forall|j: nat|
        j <= k ==> #[trigger] chain_entry(next, lookahead_pos, j) != 0 && 1 <= chain_dist(next, lookahead_pos, j)
            <= max_dist
}

/// `len` capped at `mx`.
pub open spec fn capped(len: int, mx: int) -> int {
    if len < mx {
        len
    } else {
        mx
    }
}

/// A length of `ml` is at least as long as every match at the first `steps` entries of the
/// hash chain, capped at `mx`.
pub open spec fn covers(dict: Seq<u8>, next: Seq<u16>, lookahead_pos: u32, steps: int, ml: int, mx: int) -> bool {
    forall|j: nat, len: int|
        #![trigger match_at(dict, lookahead_pos, chain_dist(next, lookahead_pos, j), len)]
        j < steps && match_at(dict, lookahead_pos, chain_dist(next, lookahead_pos, j), len) ==> ml >= capped(
            len,
            mx,
        )
}

/// The match search law: a result length `r1` is at least as long as every match, capped at
/// `mx`, at each of the first `np - 1` entries of the hash chain, as far as the entries up
/// to it are set and lie within `max_dist`.
pub open spec fn chain_law(
    dict: Seq<u8>,
    next: Seq<u16>,
    lookahead_pos: u32,
    max_dist: u32,
    np: int,
    mx: int,
    r1: int,
) -> bool {
    forall|k: nat, len: int|
        #![trigger match_at(dict, lookahead_pos, chain_dist(next, lookahead_pos, k), len)]
        k + 1 < np && chain_ok(next, lookahead_pos, max_dist, k) && match_at(
            dict,
            lookahead_pos,
            chain_dist(next, lookahead_pos, k),
            len,
        ) ==> r1 >= capped(len, mx)
}

/// No match at the first `k` entries of the hash chain is `ml` bytes long.
pub open spec fn all_shorter(dict: Seq<u8>, next: Seq<u16>, lookahead_pos: u32, k: int, ml: int) -> bool {
    forall|j: nat, len: int|
        #![trigger match_at(dict, lookahead_pos, chain_dist(next, lookahead_pos, j), len)]
        j < k && match_at(dict, lookahead_pos, chain_dist(next, lookahead_pos, j), len) ==> len < ml
}

/// `dist` is the distance of the earliest entry of the hash chain with a match of `ml`
/// bytes: the entries up to it are set and lie within `max_dist`, and no earlier entry has
/// a match that long.
pub open spec fn earliest_match(
    dict: Seq<u8>,
    next: Seq<u16>,
    lookahead_pos: u32,
    max_dist: u32,
    dist: u32,
    ml: int,
) -> bool {
    exists|k: nat|
        #![trigger chain_dist(next, lookahead_pos, k)]
        dist == chain_dist(next, lookahead_pos, k) && chain_ok(next, lookahead_pos, max_dist, k) && all_shorter(
            dict,
            next,
            lookahead_pos,
            k as int,
            ml,
        )
}

/// A longer match found at entry `steps`, after entries that all matched at most `ml` bytes
/// (capped at `mx`), is longer than every match at those entries.
proof fn lemma_all_shorter(dict: Seq<u8>, next: Seq<u16>, lp: u32, steps: int, ml: int, ml2: int, mx: int)
    requires
        covers(dict, next, lp, steps, ml, mx),
        ml < ml2 <= mx,
    ensures
        all_shorter(dict, next, lp, steps, ml2),
{
    assert forall|j: nat, len: int|
        j < steps && match_at(dict, lp, chain_dist(next, lp, j), len) implies len < ml2 by {
        assert(match_at(dict, lp, chain_dist(next, lp, j), len));
    }
}

/// The chain stays valid one entry further.
proof fn lemma_chain_ok_push(next: Seq<u16>, lp: u32, max_dist: u32, steps: int)
    requires
        0 <= steps,
        steps > 0 ==> chain_ok(next, lp, max_dist, (steps - 1) as nat),
        chain_entry(next, lp, steps as nat) != 0,
        1 <= chain_dist(next, lp, steps as nat) <= max_dist,
    ensures
        chain_ok(next, lp, max_dist, steps as nat),
{
    assert forall|j: nat| j <= steps implies #[trigger] chain_entry(next, lp, j) != 0 && 1 <= chain_dist(next, lp, j)
        <= max_dist by {
        if j < steps {
            assert(chain_entry(next, lp, j) != 0);
        }
    }
}

proof fn lemma_covers_mono(dict: Seq<u8>, next: Seq<u16>, lp: u32, steps: int, ml: int, ml2: int, mx: int)
    requires
        covers(dict, next, lp, steps, ml, mx),
        ml <= ml2,
    ensures
        covers(dict, next, lp, steps, ml2, mx),
{
}

proof fn lemma_covers_push(dict: Seq<u8>, next: Seq<u16>, lp: u32, steps: int, ml: int, mx: int)
    requires
        0 <= steps,
        covers(dict, next, lp, steps, ml, mx),
        forall|len: int| match_at(dict, lp, chain_dist(next, lp, steps as nat), len) ==> ml >= capped(len, mx),
    ensures
        covers(dict, next, lp, steps + 1, ml, mx),
{
    assert forall|j: nat, len: int|
        j < steps + 1 && match_at(dict, lp, chain_dist(next, lp, j), len) implies ml >= capped(len, mx) by {
        if j == steps {
            assert(match_at(dict, lp, chain_dist(next, lp, steps as nat), len));
        }
    }
}

/// The search stopped at entry `steps`, which is not set or lies outside `max_dist`.
proof fn lemma_law_at_end(dict: Seq<u8>, next: Seq<u16>, lp: u32, max_dist: u32, np: int, mx: int, steps: int, r1: int)
    requires
        0 <= steps,
        covers(dict, next, lp, steps, r1, mx),
        !(chain_entry(next, lp, steps as nat) != 0 && 1 <= chain_dist(next, lp, steps as nat) <= max_dist),
    ensures
        chain_law(dict, next, lp, max_dist, np, mx, r1),
{
    assert forall|k: nat, len: int|
        k + 1 < np && chain_ok(next, lp, max_dist, k) && match_at(dict, lp, chain_dist(next, lp, k), len) implies r1
        >= capped(len, mx) by {
        if k >= steps {
            assert(chain_entry(next, lp, steps as nat) != 0);
        }
    }
}

/// The search used up its probes after examining `steps` entries.
proof fn lemma_law_by_budget(dict: Seq<u8>, next: Seq<u16>, lp: u32, max_dist: u32, np: int, mx: int, steps: int, r1: int)
    requires
        covers(dict, next, lp, steps, r1, mx),
        steps + 1 >= np,
    ensures
        chain_law(dict, next, lp, max_dist, np, mx, r1),
{
}

/// The search found a match of the greatest length allowed.
proof fn lemma_law_full(dict: Seq<u8>, next: Seq<u16>, lp: u32, max_dist: u32, np: int, mx: int, r1: int)
    requires
        r1 >= mx,
    ensures
        chain_law(dict, next, lp, max_dist, np, mx, r1),
{
}

/// The number of equal bytes at `p` and at `q`, up to `max`.
pub fn equal_run(dict: &Vec<u8>, p: usize, q: usize, max: usize) -> (n: usize)
    requires
        p + max <= dict@.len(),
        q + max <= dict@.len(),
        dict@.len() <= 33026,
    ensures
        n <= max,
        forall|t: int| 0 <= t < n ==> #[trigger] dict@[p + t] == dict@[q + t],
        n < max ==> dict@[p + n] != dict@[q + n],
{
    let mut n: usize = 0;
    while n < max && dict[p + n] == dict[q + n]
        invariant
            n <= max,
            p + max <= dict@.len(),
            q + max <= dict@.len(),
            dict@.len() <= 33026,
            forall|t: int| 0 <= t < n ==> #[trigger] dict@[p + t] == dict@[q + t],
        decreases max - n,
    {
        n += 1;
    }
    n
}

impl DictOxide {
    pub open spec fn wf(&self) -> bool {
        &&& self.b.wf()
        &&& self.max_probes[0] >= 1
        &&& self.max_probes[1] >= 1
        &&& self.size <= 32768
    }

    /// An empty dictionary with the probe limits of `flags`.
    pub fn new(flags: u32) -> (r: Self)
        ensures
            r.wf(),
            r.max_probes[0] == probes_of(flags).0,
            r.max_probes[1] == probes_of(flags).1,
            r.max_probes[0] == 1 + ((flags & 0xFFF) + 2) / 3,
            r.max_probes[1] == 1 + ((flags & 0xFFF) / 4 + 2) / 3,
            r.max_probes[1] <= r.max_probes[0],
            (flags & 0xFFF) >= 4 ==> r.max_probes[1] < r.max_probes[0],
            r.code_buf_dict_pos == 0,
            r.lookahead_size == 0,
            r.lookahead_pos == 0,
            r.size == 0,
            forall|i: int| 0 <= i < 32768 ==> r.b.next@[i] == 0 && r.b.hash@[i] == 0,
            forall|i: int| 0 <= i < 33026 ==> r.b.dict@[i] == 0,
    {
        let p = flags & 0xFFF;
        proof {
            assert(p <= 0xFFF) by (bit_vector)
                requires
                    p == flags & 0xFFF,
            ;
            assert((p >> 2u32) <= p && (p >> 2u32) == p / 4) by (bit_vector);
        }
        DictOxide {
            max_probes: [1 + (p + 2) / 3, 1 + ((p >> 2) + 2) / 3],
            b: HashBuffers::default(),
            code_buf_dict_pos: 0,
            lookahead_size: 0,
            lookahead_pos: 0,
            size: 0,
        }
    }

    /// Takes in `num` input bytes at `src_pos` after the lookahead, keeping the rolling
    /// hash of three bytes from two bytes before the end of the lookahead, and links each
    /// position into its hash chain.
    pub(crate) fn insert_rolling(&mut self, in_buf: &[u8], src_pos: usize, num: usize, lookahead_pos: u32, lookahead_size: u32)
        requires
            old(self).wf(),
            src_pos + num <= in_buf@.len(),
            num <= 32768,
            lookahead_size <= 4096,
        ensures
            final(self).wf(),
            final(self).max_probes == old(self).max_probes,
            final(self).code_buf_dict_pos == old(self).code_buf_dict_pos,
            final(self).lookahead_size == old(self).lookahead_size,
            final(self).lookahead_pos == old(self).lookahead_pos,
            final(self).size == old(self).size,
            ring_stores(
                old(self).b.dict@,
                final(self).b.dict@,
                ((lookahead_pos & 32767u32) + lookahead_size) % 32768,
                in_buf@.subrange(src_pos as int, src_pos + num),
            ),
    {
        let end = lookahead_pos.wrapping_add(lookahead_size);
        let mut dst_pos = end & 32767;
        let mut ins_pos = end.wrapping_sub(2);
        let ghost dst0 = ((lookahead_pos & 32767u32) + lookahead_size) % 32768;
        proof {
            lemma_mask15(end);
            lemma_wrap_mask15(lookahead_pos, lookahead_size);
            lemma_mask15(lookahead_size);
            lemma_mask15(((lookahead_pos & 32767u32) + (lookahead_size & 32767u32)) as u32);
            lemma_mask15(lookahead_pos);
            assert(dst_pos as int == dst0);
            let ip = ins_pos;
            lemma_mask15(ip);
            lemma_mask15(ip.wrapping_add(1));
            lemma_ring_stores_empty(self.b.dict@, dst0);
            assert(in_buf@.subrange(src_pos as int, src_pos as int) =~= Seq::<u8>::empty());
        }
        let mut hash = ((self.b.dict[(ins_pos & 32767) as usize] as u32) << 5) ^ (self.b.dict[(ins_pos.wrapping_add(1)
            & 32767) as usize] as u32);
        let blen = in_buf.len();
        let mut k: usize = 0;
        while k < num
            invariant
                k <= num <= 32768,
                src_pos + num <= in_buf@.len(),
                in_buf@.len() == blen,
                self.wf(),
                0 <= dst0 < 32768,
                dst_pos as int == (dst0 + k) % 32768,
                ring_stores(old(self).b.dict@, self.b.dict@, dst0, in_buf@.subrange(src_pos as int, src_pos + k)),
                self.max_probes == old(self).max_probes,
                self.code_buf_dict_pos == old(self).code_buf_dict_pos,
                self.lookahead_size == old(self).lookahead_size,
                self.lookahead_pos == old(self).lookahead_pos,
                self.size == old(self).size,
            decreases num - k,
        {
            let c = in_buf[src_pos + k];
            let ghost cur = self.b.dict@;
            self.b.dict[dst_pos as usize] = c;
            if (dst_pos as usize) < 257 {
                self.b.dict[32768 + dst_pos as usize] = c;
            }
            proof {
                lemma_ring_store_step(old(self).b.dict@, cur, self.b.dict@, dst0, in_buf@.subrange(src_pos as int, src_pos + k), c);
                assert(in_buf@.subrange(src_pos as int, src_pos + k).push(c) =~= in_buf@.subrange(src_pos as int, src_pos + k + 1));
            }
            let h2 = (hash << 5) ^ (c as u32);
            hash = h2 & 32767;
            let ip = ins_pos & 32767;
            proof {
                lemma_mask15(h2);
                lemma_mask15(ins_pos);
            }
            self.b.next[ip as usize] = self.b.hash[hash as usize];
            self.b.hash[hash as usize] = ins_pos as u16;
            let t = dst_pos + 1;
            dst_pos = t & 32767;
            proof {
                lemma_mask15(t);
            }
            ins_pos = ins_pos.wrapping_add(1);
            k += 1;
        }
    }

    /// Takes in `num` input bytes at `src_pos` one at a time after the lookahead, hashing
    /// each new position once three bytes are known there.
    #[verifier::rlimit(30)]
    pub(crate) fn insert_each(&mut self, in_buf: &[u8], src_pos: usize, num: usize, lookahead_pos: u32, lookahead_size: u32)
        -> (new_size: u32)
        requires
            old(self).wf(),
            src_pos + num <= in_buf@.len(),
            lookahead_size + num <= 258,
        ensures
            new_size == lookahead_size + num,
            final(self).wf(),
            final(self).max_probes == old(self).max_probes,
            final(self).code_buf_dict_pos == old(self).code_buf_dict_pos,
            final(self).lookahead_size == old(self).lookahead_size,
            final(self).lookahead_pos == old(self).lookahead_pos,
            final(self).size == old(self).size,
            ring_stores(
                old(self).b.dict@,
                final(self).b.dict@,
                ((lookahead_pos & 32767u32) + lookahead_size) % 32768,
                in_buf@.subrange(src_pos as int, src_pos + num),
            ),
    {
        let ghost dst0 = ((lookahead_pos & 32767u32) + lookahead_size) % 32768;
        let mut la = lookahead_size;
        let blen = in_buf.len();
        let mut k: usize = 0;
        proof {
            lemma_mask15(lookahead_pos);
            lemma_ring_stores_empty(self.b.dict@, dst0);
            assert(in_buf@.subrange(src_pos as int, src_pos as int) =~= Seq::<u8>::empty());
        }
        while k < num
            invariant
                k <= num,
                src_pos + num <= in_buf@.len(),
                in_buf@.len() == blen,
                lookahead_size + num <= 258,
                la == lookahead_size + k,
                0 <= dst0 < 32768,
                dst0 == ((lookahead_pos & 32767u32) + lookahead_size) % 32768,
                ring_stores(old(self).b.dict@, self.b.dict@, dst0, in_buf@.subrange(src_pos as int, src_pos + k)),
                self.wf(),
                self.max_probes == old(self).max_probes,
                self.code_buf_dict_pos == old(self).code_buf_dict_pos,
                self.lookahead_size == old(self).lookahead_size,
                self.lookahead_pos == old(self).lookahead_pos,
                self.size == old(self).size,
            decreases num - k,
        {
            let c = in_buf[src_pos + k];
            let x = lookahead_pos.wrapping_add(la);
            let dst_pos = x & 32767;
            proof {
                lemma_mask15(x);
                lemma_wrap_mask15(lookahead_pos, la);
                lemma_mask15(la);
                lemma_mask15(lookahead_pos);
                lemma_mask15(((lookahead_pos & 32767u32) + (la & 32767u32)) as u32);
                assert(dst_pos as int == (dst0 + k) % 32768);
            }
            let ghost cur = self.b.dict@;
            self.b.dict[dst_pos as usize] = c;
            if (dst_pos as usize) < 257 {
                self.b.dict[32768 + dst_pos as usize] = c;
            }
            proof {
                lemma_ring_store_step(old(self).b.dict@, cur, self.b.dict@, dst0, in_buf@.subrange(src_pos as int, src_pos + k), c);
                assert(in_buf@.subrange(src_pos as int, src_pos + k).push(c) =~= in_buf@.subrange(src_pos as int, src_pos + k + 1));
            }
            la += 1;
            if la + self.size >= 3 {
                let ins_pos = lookahead_pos.wrapping_add(la).wrapping_sub(3);
                let i0 = ins_pos & 32767;
                let i1 = ins_pos.wrapping_add(1) & 32767;
                proof {
                    lemma_mask15(ins_pos);
                    lemma_mask15(ins_pos.wrapping_add(1));
                }
                let hash = (((self.b.dict[i0 as usize] as u32) << 10) ^ (((self.b.dict[i1 as usize] as u32) << 5)
                    ^ (c as u32))) & 32767;
                proof {
                    let h = (((self.b.dict@[i0 as int] as u32) << 10u32) ^ (((self.b.dict@[i1 as int] as u32) << 5u32)
                        ^ (c as u32)));
                    lemma_mask15(h);
                }
                self.b.next[i0 as usize] = self.b.hash[hash as usize];
                self.b.hash[hash as usize] = ins_pos as u16;
            }
            k += 1;
        }
        la
    }

    /// The length of the run of the byte before `cur_pos` at `cur_pos`, up to `lookahead_size`.
    pub fn run_length(&self, cur_pos: u32, lookahead_size: u32) -> (n: u32)
        requires
            self.wf(),
            cur_pos <= 32767,
            lookahead_size <= 258,
        ensures
            n <= lookahead_size,
            forall|t: int| 0 <= t < n ==> #[trigger] self.b.dict@[cur_pos + t] == self.b.dict@[(cur_pos.wrapping_sub(1)
                & 32767u32) as int],
            n < lookahead_size ==> self.b.dict@[cur_pos + n] != self.b.dict@[(cur_pos.wrapping_sub(1) & 32767u32) as int],
    {
        let x = cur_pos.wrapping_sub(1);
        proof {
            lemma_mask15(x);
        }
        let c = self.b.dict[(x & 32767) as usize];
        let mut n: u32 = 0;
        while n < lookahead_size && self.b.dict[(cur_pos + n) as usize] == c
            invariant
                n <= lookahead_size,
                self.wf(),
                cur_pos <= 32767,
                lookahead_size <= 258,
                c == self.b.dict@[(cur_pos.wrapping_sub(1) & 32767u32) as int],
                forall|t: int| 0 <= t < n ==> #[trigger] self.b.dict@[cur_pos + t] == c,
            decreases lookahead_size - n,
        {
            n += 1;
        }
        n
    }

    /// Copies `num` input bytes at `src_pos` into the ring buffer from `dst_pos` on,
    /// wrapping at its end and mirroring its start past the end.
    pub(crate) fn copy_in(&mut self, in_buf: &[u8], src_pos: usize, num: usize, dst_pos: usize)
        requires
            old(self).wf(),
            src_pos + num <= in_buf@.len(),
            dst_pos <= 32767,
            num <= 32768,
        ensures
            final(self).wf(),
            final(self).max_probes == old(self).max_probes,
            final(self).code_buf_dict_pos == old(self).code_buf_dict_pos,
            final(self).lookahead_size == old(self).lookahead_size,
            final(self).lookahead_pos == old(self).lookahead_pos,
            final(self).size == old(self).size,
            final(self).b.next == old(self).b.next,
            final(self).b.hash == old(self).b.hash,
            ring_stores(old(self).b.dict@, final(self).b.dict@, dst_pos as int, in_buf@.subrange(src_pos as int, src_pos + num)),
    {
        let blen = in_buf.len();
        let mut dst = dst_pos;
        let mut k: usize = 0;
        proof {
            lemma_ring_stores_empty(self.b.dict@, dst_pos as int);
            assert(in_buf@.subrange(src_pos as int, src_pos as int) =~= Seq::<u8>::empty());
        }
        while k < num
            invariant
                k <= num <= 32768,
                src_pos + num <= in_buf@.len(),
                in_buf@.len() == blen,
                dst_pos <= 32767,
                dst as int == (dst_pos + k) % 32768,
                ring_stores(old(self).b.dict@, self.b.dict@, dst_pos as int, in_buf@.subrange(src_pos as int, src_pos + k)),
                self.wf(),
                self.max_probes == old(self).max_probes,
                self.code_buf_dict_pos == old(self).code_buf_dict_pos,
                self.lookahead_size == old(self).lookahead_size,
                self.lookahead_pos == old(self).lookahead_pos,
                self.size == old(self).size,
                self.b.next == old(self).b.next,
                self.b.hash == old(self).b.hash,
            decreases num - k,
        {
            let c = in_buf[src_pos + k];
            let ghost cur = self.b.dict@;
            self.b.dict[dst] = c;
            if dst < 257 {
                self.b.dict[32768 + dst] = c;
            }
            proof {
                lemma_ring_store_step(old(self).b.dict@, cur, self.b.dict@, dst_pos as int, in_buf@.subrange(src_pos as int, src_pos + k), c);
                assert(in_buf@.subrange(src_pos as int, src_pos + k).push(c) =~= in_buf@.subrange(src_pos as int, src_pos + k + 1));
            }
            let t = dst + 1;
            dst = t & 32767;
            proof {
                lemma_mask15_usize(t);
            }
            k += 1;
        }
    }

    /// Whether the first entry of the hash chain of `lookahead_pos` lies within `max_dist`
    /// and starts a match of more than `len` bytes.
    pub open spec fn first_chain_match(&self, lookahead_pos: u32, max_dist: u32, len: int) -> bool {
        let np = self.b.next@[(lookahead_pos & 32767u32) as int] as u32;
        let d = lookahead_pos.wrapping_sub(np) & 0xFFFFu32;
        &&& np != 0
        &&& 1 <= d <= max_dist
        &&& match_at(self.b.dict@, lookahead_pos, d, len + 1)
    }

    /// Looks along the hash chain of `lookahead_pos` for a match longer than `match_len`,
    /// at most `max_dist` back and at most `max_match_len` (and 258) long, within the
    /// probe limit. Returns the best match found, or the given values where none is
    /// better.
    pub fn find_match(
        &self,
        lookahead_pos: u32,
        max_dist: u32,
        max_match_len: u32,
        match_dist: u32,
        match_len: u32,
    ) -> (r: (u32, u32))
        requires
            self.wf(),
        ensures
            ({
                let ml = if match_len < 1 { 1 } else { match_len };
                let mx = if max_match_len < 258 { max_match_len } else { 258 };
                ||| r == (match_dist, match_len)
                ||| {
                    &&& ml < r.1 <= mx
                    &&& 1 <= r.0 <= max_dist
                    &&& r.0 <= 65535
                    &&& match_at(self.b.dict@, lookahead_pos, r.0, r.1 as int)
                }
            }),
            ({
                let ml = if match_len < 1 { 1 } else { match_len };
                let mx = if max_match_len < 258 { max_match_len } else { 258 };
                self.max_probes[if ml >= 32 { 1int } else { 0int }] >= 2 && ml < mx
                    && self.first_chain_match(lookahead_pos, max_dist, ml as int) ==> r.1 > ml
            }),
            ({
                let ml = if match_len < 1 { 1 } else { match_len };
                self.max_probes[if ml >= 32 { 1int } else { 0int }] <= 1 ==> r == (match_dist, match_len)
            }),
            ({
                let ml = if match_len < 1 { 1 } else { match_len };
                let mx = if max_match_len < 258 { max_match_len } else { 258 };
                forall|k: nat, len: int|
                    #![trigger match_at(self.b.dict@, lookahead_pos, chain_dist(self.b.next@, lookahead_pos, k), len)]
                    k + 1 < self.max_probes[if ml >= 32 { 1int } else { 0int }] && chain_ok(
                        self.b.next@,
                        lookahead_pos,
                        max_dist,
                        k,
                    ) && ml < mx && len > ml && match_at(
                        self.b.dict@,
                        lookahead_pos,
                        chain_dist(self.b.next@, lookahead_pos, k),
                        len,
                    ) ==> r.1 >= capped(len, mx as int)
            }),
            r.1 > match_len ==> earliest_match(self.b.dict@, self.b.next@, lookahead_pos, max_dist, r.0, r.1 as int),
    {
        let ml: u32 = if match_len < 1 { 1 } else { match_len };
        let (d, l) = self.search_chain(lookahead_pos, max_dist, max_match_len, match_dist, ml);
        proof {
            let mx = if max_match_len < 258 { max_match_len } else { 258 };
            assert forall|k: nat, len: int|
                k + 1 < self.max_probes[if ml >= 32 { 1int } else { 0int }] && chain_ok(
                    self.b.next@,
                    lookahead_pos,
                    max_dist,
                    k,
                ) && ml < mx && len > ml && match_at(
                    self.b.dict@,
                    lookahead_pos,
                    chain_dist(self.b.next@, lookahead_pos, k),
                    len,
                ) implies l != ml && l >= capped(len, mx as int) by {
                assert(match_at(self.b.dict@, lookahead_pos, chain_dist(self.b.next@, lookahead_pos, k), len));
            }
        }
        if l == ml {
            (match_dist, match_len)
        } else {
            (d, l)
        }
    }

    fn search_chain(
        &self,
        lookahead_pos: u32,
        max_dist: u32,
        max_match_len: u32,
        match_dist: u32,
        match_len: u32,
    ) -> (r: (u32, u32))
        requires
            self.wf(),
            1 <= match_len,
        ensures
            ({
                let ml = match_len;
                let mx = if max_match_len < 258 { max_match_len } else { 258 };
                ||| r == (match_dist, ml)
                ||| {
                    &&& ml < r.1 <= mx
                    &&& 1 <= r.0 <= max_dist
                    &&& r.0 <= 65535
                    &&& match_at(self.b.dict@, lookahead_pos, r.0, r.1 as int)
                }
            }),
            ({
                let ml = match_len;
                let mx = if max_match_len < 258 { max_match_len } else { 258 };
                self.max_probes[if ml >= 32 { 1int } else { 0int }] >= 2 && ml < mx
                    && self.first_chain_match(lookahead_pos, max_dist, ml as int) ==> r.1 > ml
            }),
            ({
                let ml = if match_len < 1 { 1 } else { match_len };
                self.max_probes[if ml >= 32 { 1int } else { 0int }] <= 1 ==> r == (match_dist, match_len)
            }),
            chain_law(
                self.b.dict@,
                self.b.next@,
                lookahead_pos,
                max_dist,
                self.max_probes[if match_len >= 32 { 1int } else { 0int }] as int,
                (if max_match_len < 258 { max_match_len } else { 258 }) as int,
                r.1 as int,
            ),
            r.1 > match_len ==> earliest_match(self.b.dict@, self.b.next@, lookahead_pos, max_dist, r.0, r.1 as int),
    {
        let mml: u32 = if max_match_len < 258 { max_match_len } else { 258 };
        let mut md = match_dist;
        let mut ml: u32 = if match_len < 1 { 1 } else { match_len };
        let ghost ml0 = ml;
        let ghost md0 = md;
        let pos = lookahead_pos & 32767;
        proof {
            lemma_mask15(lookahead_pos);
        }
        let mut probe_pos = pos;
        let mut num_probes_left = if ml >= 32 { self.max_probes[1] } else { self.max_probes[0] };
        if mml <= ml {
            proof {
                lemma_law_full(self.b.dict@, self.b.next@, lookahead_pos, max_dist, num_probes_left as int, mml as int, ml as int);
            }
            return (md, ml);
        }
        let ghost fg = num_probes_left >= 2 && self.first_chain_match(lookahead_pos, max_dist, ml0 as int);
        let ghost np_start = num_probes_left;
        let ghost dist0 = lookahead_pos.wrapping_sub(self.b.next@[pos as int] as u32) & 0xFFFFu32;
        let ghost mut stage: int = 0;
        let ghost mut steps: int = 0;
        let ghost mut best: int = 0;
        let dict = &self.b.dict;
        let mut c0 = dict[(pos + ml - 1) as usize];
        let mut c1 = dict[(pos + ml) as usize];
        let s0 = dict[pos as usize];
        let s1 = dict[(pos + 1) as usize];
        loop
            invariant
                self.wf(),
                dict == &self.b.dict,
                pos == lookahead_pos & 32767,
                pos <= 32767,
                probe_pos <= 32767,
                1 <= num_probes_left,
                1 <= ml < mml <= 258,
                mml == (if max_match_len < 258 { max_match_len } else { 258 }),
                ml0 <= ml,
                ml0 == (if match_len < 1 { 1 } else { match_len }),
                md0 == match_dist,
                (md == md0 && ml == ml0) || (ml0 < ml && 1 <= md <= max_dist && md <= 65535
                    && match_at(self.b.dict@, lookahead_pos, md, ml as int)),
                c0 == dict@[pos + ml - 1],
                c1 == dict@[pos + ml],
                s0 == dict@[pos as int],
                s1 == dict@[pos + 1],
                stage == 0 || stage == 2,
                stage == 0 ==> probe_pos == pos && ml == ml0 && md == md0 && num_probes_left == np_start,
                stage == 2 && fg ==> ml0 < ml,
                stage != 0 ==> np_start >= 2,
                fg == (np_start >= 2 && self.first_chain_match(lookahead_pos, max_dist, ml0 as int)),
                ml0 == match_len,
                np_start == self.max_probes[if ml0 >= 32 { 1int } else { 0int }],
                fg ==> pos == (lookahead_pos & 32767u32),
                dist0 == lookahead_pos.wrapping_sub(self.b.next@[pos as int] as u32) & 0xFFFFu32,
                0 <= steps,
                steps > 0 ==> chain_ok(self.b.next@, lookahead_pos, max_dist, (steps - 1) as nat),
                ml0 < ml ==> 0 <= best < steps && md == chain_dist(self.b.next@, lookahead_pos, best as nat) && chain_ok(self.b.next@, lookahead_pos, max_dist, best as nat) && all_shorter(self.b.dict@, self.b.next@, lookahead_pos, best, ml as int),
                covers(self.b.dict@, self.b.next@, lookahead_pos, steps, ml as int, mml as int),
                (steps == 0 ==> probe_pos == pos) && (steps > 0 ==> probe_pos == (chain_entry(self.b.next@, lookahead_pos, (steps - 1) as nat) & 32767u32)),
                steps >= np_start - num_probes_left,
                np_start >= num_probes_left,
            decreases num_probes_left,
        {
            let mut dist: u32 = 0;
            let mut found = false;
            let ghost np0 = num_probes_left;
            while !found
                invariant
                    self.wf(),
                    dict == &self.b.dict,
                    pos <= 32767,
                    probe_pos <= 32767,
                    1 <= num_probes_left,
                    1 <= ml < mml <= 258,
                    found ==> dist <= 65535 && probe_pos == (lookahead_pos.wrapping_sub(dist) & 32767u32),
                    ml0 <= ml,
                    ml0 == (if match_len < 1 { 1 } else { match_len }),
                    mml == (if max_match_len < 258 { max_match_len } else { 258 }),
                    (md == md0 && ml == ml0) || (ml0 < ml && 1 <= md <= max_dist && md <= 65535
                        && match_at(self.b.dict@, lookahead_pos, md, ml as int)),
                    md0 == match_dist,
                    found ==> 1 <= dist || dist == 0,
                    found ==> dist <= max_dist,
                    num_probes_left <= np0,
                    found ==> num_probes_left < np0,
                    stage == 0 || stage == 1 || stage == 2,
                    stage == 0 ==> probe_pos == pos && ml == ml0 && md == md0 && num_probes_left == np_start && !found,
                    stage == 1 ==> fg && found && dist == dist0 && ml == ml0 && md == md0,
                    stage == 2 && fg ==> ml0 < ml,
                    stage != 0 ==> np_start >= 2,
                    fg == (np_start >= 2 && self.first_chain_match(lookahead_pos, max_dist, ml0 as int)),
                ml0 == match_len,
                np_start == self.max_probes[if ml0 >= 32 { 1int } else { 0int }],
                    pos == (lookahead_pos & 32767u32),
                    dist0 == lookahead_pos.wrapping_sub(self.b.next@[pos as int] as u32) & 0xFFFFu32,
                    c0 == dict@[pos + ml - 1],
                    c1 == dict@[pos + ml],
                    0 <= steps,
                    steps > 0 ==> chain_ok(self.b.next@, lookahead_pos, max_dist, (steps - 1) as nat),
                    ml0 < ml ==> 0 <= best < steps && md == chain_dist(self.b.next@, lookahead_pos, best as nat) && chain_ok(self.b.next@, lookahead_pos, max_dist, best as nat) && all_shorter(self.b.dict@, self.b.next@, lookahead_pos, best, ml as int),
                    covers(self.b.dict@, self.b.next@, lookahead_pos, steps, ml as int, mml as int),
                    !found ==> (steps == 0 ==> probe_pos == pos) && (steps > 0 ==> probe_pos == (chain_entry(self.b.next@, lookahead_pos, (steps - 1) as nat) & 32767u32)),
                    found ==> dist == chain_dist(self.b.next@, lookahead_pos, steps as nat) && probe_pos == (chain_entry(self.b.next@, lookahead_pos, steps as nat) & 32767u32) && chain_entry(self.b.next@, lookahead_pos, steps as nat) != 0,
                    !found ==> steps >= np_start - num_probes_left,
                    found ==> steps + 1 >= np_start - num_probes_left,
                    np_start >= num_probes_left,
                decreases num_probes_left,
            {
                num_probes_left -= 1;
                if num_probes_left == 0 {
                    proof {
                        lemma_law_by_budget(self.b.dict@, self.b.next@, lookahead_pos, max_dist, np_start as int, mml as int, steps, ml as int);
                    }
                    return (md, ml);
                }
                let mut k: u32 = 0;
                while k < 3 && !found
                    invariant
                        self.wf(),
                        dict == &self.b.dict,
                        pos <= 32767,
                        probe_pos <= 32767,
                        1 <= ml < mml <= 258,
                        k <= 3,
                        ml0 <= ml,
                        ml0 == (if match_len < 1 { 1 } else { match_len }),
                        mml == (if max_match_len < 258 { max_match_len } else { 258 }),
                        (md == md0 && ml == ml0) || (ml0 < ml && 1 <= md <= max_dist && md <= 65535
                            && match_at(self.b.dict@, lookahead_pos, md, ml as int)),
                        md0 == match_dist,
                        found ==> 1 <= dist || dist == 0,
                        found ==> dist <= max_dist,

                        found ==> dist <= 65535 && probe_pos == (lookahead_pos.wrapping_sub(dist) & 32767u32),
                        stage == 0 || stage == 1 || stage == 2,
                        stage == 0 ==> k == 0 && probe_pos == pos && ml == ml0 && md == md0 && !found,
                        stage == 1 ==> fg && found && dist == dist0 && ml == ml0 && md == md0,
                        stage == 2 && fg ==> ml0 < ml,
                        np_start >= 2,
                        stage == 0 ==> num_probes_left == np_start - 1,
                        fg == (np_start >= 2 && self.first_chain_match(lookahead_pos, max_dist, ml0 as int)),
                        ml0 == match_len,
                        np_start == self.max_probes[if ml0 >= 32 { 1int } else { 0int }],
                        pos == (lookahead_pos & 32767u32),
                        dist0 == lookahead_pos.wrapping_sub(self.b.next@[pos as int] as u32) & 0xFFFFu32,
                        c0 == dict@[pos + ml - 1],
                        c1 == dict@[pos + ml],
                        0 <= steps,
                        steps > 0 ==> chain_ok(self.b.next@, lookahead_pos, max_dist, (steps - 1) as nat),
                        ml0 < ml ==> 0 <= best < steps && md == chain_dist(self.b.next@, lookahead_pos, best as nat) && chain_ok(self.b.next@, lookahead_pos, max_dist, best as nat) && all_shorter(self.b.dict@, self.b.next@, lookahead_pos, best, ml as int),
                        covers(self.b.dict@, self.b.next@, lookahead_pos, steps, ml as int, mml as int),
                        !found ==> (steps == 0 ==> probe_pos == pos) && (steps > 0 ==> probe_pos == (chain_entry(self.b.next@, lookahead_pos, (steps - 1) as nat) & 32767u32)),
                        found ==> dist == chain_dist(self.b.next@, lookahead_pos, steps as nat) && probe_pos == (chain_entry(self.b.next@, lookahead_pos, steps as nat) & 32767u32) && chain_entry(self.b.next@, lookahead_pos, steps as nat) != 0,
                        k == 0 ==> !found,
                        steps + (if found { 1int } else { 0int }) + 1 >= np_start - num_probes_left + (if k > 0 {
                            1int
                        } else {
                            0int
                        }),
                        np_start >= num_probes_left,
                    decreases 3 - k,
                {
                    let next_probe_pos = self.b.next[probe_pos as usize] as u32;
                    proof {
                        if steps == 0 {
                            assert(chain_entry(self.b.next@, lookahead_pos, 0) == self.b.next@[pos as int] as u32);
                        } else {
                            assert(chain_entry(self.b.next@, lookahead_pos, steps as nat) == self.b.next@[(chain_entry(
                                self.b.next@,
                                lookahead_pos,
                                (steps - 1) as nat,
                            ) & 32767u32) as int] as u32);
                        }
                        assert(next_probe_pos == chain_entry(self.b.next@, lookahead_pos, steps as nat));
                    }
                    dist = lookahead_pos.wrapping_sub(next_probe_pos) & 0xFFFF;
                    if next_probe_pos == 0 || dist > max_dist {
                        proof {
                            lemma_law_at_end(self.b.dict@, self.b.next@, lookahead_pos, max_dist, np_start as int, mml as int, steps, ml as int);
                        }
                        return (md, ml);
                    }
                    probe_pos = next_probe_pos & 32767;
                    proof {
                        let lp = lookahead_pos;
                        let np = next_probe_pos;
                        assert(np <= 65535 ==> (np & 32767u32) == (lp.wrapping_sub(lp.wrapping_sub(np) & 0xFFFFu32)
                            & 32767u32) && (lp.wrapping_sub(np) & 0xFFFFu32) <= 65535 && (np & 32767u32) <= 32767)
                            by (bit_vector);
                    }
                    if dict[(probe_pos + ml - 1) as usize] == c0 && dict[(probe_pos + ml) as usize] == c1 {
                        found = true;
                    }
                    proof {
                        if !found {
                            assert forall|len: int| match_at(self.b.dict@, lookahead_pos, dist, len) implies ml >= capped(
                                len,
                                mml as int,
                            ) by {
                                if len > ml {
                                    assert(dict@[pos + (ml - 1)] == dict@[probe_pos + (ml - 1)]);
                                    assert(dict@[pos + ml] == dict@[probe_pos + ml]);
                                }
                            }
                            lemma_covers_push(self.b.dict@, self.b.next@, lookahead_pos, steps, ml as int, mml as int);
                            lemma_chain_ok_push(self.b.next@, lookahead_pos, max_dist, steps);
                            steps = steps + 1;
                        }
                        if stage == 0 {
                            if fg {
                                assert(dict@[pos + (ml0 - 1)] == dict@[probe_pos + (ml0 - 1)]);
                                assert(dict@[pos + ml0] == dict@[probe_pos + ml0]);
                                stage = 1;
                            } else {
                                stage = 2;
                            }
                        }
                    }
                    k += 1;
                }
            }
            if dist == 0 {
                proof {
                    lemma_law_at_end(self.b.dict@, self.b.next@, lookahead_pos, max_dist, np_start as int, mml as int, steps, ml as int);
                }
                return (md, ml);
            }
            let ghost ml_before = ml;
            proof {
                lemma_chain_ok_push(self.b.next@, lookahead_pos, max_dist, steps);
            }
            proof {
                if stage == 1 {
                    assert(dict@[pos + 0] == dict@[probe_pos + 0]);
                    assert(dict@[pos + 1] == dict@[probe_pos + 1]);
                }
            }
            if dict[probe_pos as usize] == s0 && dict[(probe_pos + 1) as usize] == s1 {
                let n = equal_run(dict, (pos + 2) as usize, (probe_pos + 2) as usize, 256);
                proof {
                    if n < 256 {
                        assert forall|len: int| match_at(self.b.dict@, lookahead_pos, dist, len) implies len <= n + 2 by {
                            if len > n + 2 {
                                assert(dict@[pos + (n + 2)] == dict@[probe_pos + (n + 2)]);
                                assert(dict@[(pos + 2) + n] == dict@[(probe_pos + 2) + n]);
                            }
                        }
                    }
                }
                proof {
                    assert forall|t: int| 0 <= t < n + 2 implies #[trigger] dict@[pos + t] == dict@[probe_pos + t] by {
                        if t >= 2 {
                            assert(dict@[(pos + 2) + (t - 2)] == dict@[(probe_pos + 2) + (t - 2)]);
                        }
                    }
                }
                proof {
                    if stage == 1 && n < 256 && n + 2 <= ml0 {
                        assert(dict@[pos + (n + 2)] == dict@[probe_pos + (n + 2)]);
                        assert(dict@[(pos + 2) + n] == dict@[(probe_pos + 2) + n]);
                    }
                }
                if n < 256 {
                    let probe_len = 2 + n as u32;
                    if probe_len > ml {
                        md = dist;
                        ml = if mml < probe_len { mml } else { probe_len };
                        proof {
                            lemma_all_shorter(self.b.dict@, self.b.next@, lookahead_pos, steps, ml_before as int, ml as int, mml as int);
                            best = steps;
                        }
                        if ml == mml {
                            proof {
                                lemma_law_full(self.b.dict@, self.b.next@, lookahead_pos, max_dist, np_start as int, mml as int, ml as int);
                            }
                            return (md, ml);
                        }
                        c0 = dict[(pos + ml - 1) as usize];
                        c1 = dict[(pos + ml) as usize];
                    }
                    proof {
                        if stage == 1 {
                            stage = 2;
                        }
                    }
                } else {
                    let l = if mml < 258 { mml } else { 258 };
                    proof {
                        lemma_all_shorter(self.b.dict@, self.b.next@, lookahead_pos, steps, ml as int, l as int, mml as int);
                        assert(dist == chain_dist(self.b.next@, lookahead_pos, steps as nat));
                        lemma_law_full(self.b.dict@, self.b.next@, lookahead_pos, max_dist, np_start as int, mml as int, l as int);
                    }
                    return (dist, l);
                }
            } else {
                proof {
                    assert forall|len: int| match_at(self.b.dict@, lookahead_pos, dist, len) implies ml >= capped(
                        len,
                        mml as int,
                    ) by {
                        if len >= 2 {
                            assert(dict@[pos + 0] == dict@[probe_pos + 0]);
                            assert(dict@[pos + 1] == dict@[probe_pos + 1]);
                        }
                    }
                }
            }
            proof {
                lemma_covers_mono(self.b.dict@, self.b.next@, lookahead_pos, steps, ml_before as int, ml as int, mml as int);
                assert forall|len: int| match_at(self.b.dict@, lookahead_pos, chain_dist(self.b.next@, lookahead_pos, steps as nat), len)
                    implies ml >= capped(len, mml as int) by {
                    assert(match_at(self.b.dict@, lookahead_pos, dist, len));
                }
                lemma_covers_push(self.b.dict@, self.b.next@, lookahead_pos, steps, ml as int, mml as int);
                steps = steps + 1;
            }
        }
    }
}

} // verus!
