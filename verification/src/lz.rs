//! The LZ code buffer of a block: literals and matches, with one flag byte before
//! each group of eight codes telling which of them are matches.

use vstd::prelude::*;
use vstd::arithmetic::power2::*;
use vstd::bits::*;

verus! {

/// One LZ code: a literal byte, or a match given by its length less 3 and its distance
/// less 1.
pub enum LzCode {
    Lit(u8),
    Match(u8, u16),
}

/// The bytes of one code in the buffer: the literal, or the length and the distance in
/// little-endian order.
pub open spec fn code_bytes(c: LzCode) -> Seq<u8> {
    match c {
        LzCode::Lit(b) => seq![b],
        LzCode::Match(l, d) => seq![l, (d % 256) as u8, (d / 256) as u8],
    }
}

/// The flag bit of one code: 1 for a match.
pub open spec fn code_bit(c: LzCode) -> nat {
    match c {
        LzCode::Lit(_) => 0,
        LzCode::Match(_, _) => 1,
    }
}

/// The number of input bytes a code stands for.
pub open spec fn code_len(c: LzCode) -> nat {
    match c {
        LzCode::Lit(_) => 1,
        LzCode::Match(l, _) => (l + 3) as nat,
    }
}

/// A code that the encoder can write: match distances below 32768.
pub open spec fn code_ok(c: LzCode) -> bool {
    match c {
        LzCode::Lit(_) => true,
        LzCode::Match(_, d) => d < 32768,
    }
}

/// The flag bits of a group of codes, the first code in the lowest bit.
pub open spec fn flag_value(s: Seq<LzCode>) -> nat
    decreases s.len(),
{
    if s.len() == 0 {
        0
    } else {
        code_bit(s[0]) + 2 * flag_value(s.subrange(1, s.len() as int))
    }
}

/// The bytes of a sequence of codes, without flags.
pub open spec fn group_bytes(s: Seq<LzCode>) -> Seq<u8>
    decreases s.len(),
{
    if s.len() == 0 {
        Seq::empty()
    } else {
        code_bytes(s[0]) + group_bytes(s.subrange(1, s.len() as int))
    }
}

/// The buffer that holds the codes `s`: each group of eight (the last one may be shorter)
/// is its flag byte followed by the bytes of its codes.
pub open spec fn lz_enc(s: Seq<LzCode>) -> Seq<u8>
    decreases s.len(),
{
    if s.len() == 0 {
        Seq::empty()
    } else if s.len() <= 8 {
        seq![flag_value(s) as u8] + group_bytes(s)
    } else {
        seq![flag_value(s.take(8)) as u8] + group_bytes(s.take(8)) + lz_enc(s.skip(8))
    }
}

/// The number of input bytes the codes stand for.
pub open spec fn lz_total(s: Seq<LzCode>) -> nat
    decreases s.len(),
{
    if s.len() == 0 {
        0
    } else {
        lz_total(s.drop_last()) + code_len(s.last())
    }
}

pub proof fn lemma_group_bytes_push(s: Seq<LzCode>, c: LzCode)
    ensures
        group_bytes(s.push(c)) == group_bytes(s) + code_bytes(c),
    decreases s.len(),
{
    if s.len() == 0 {
        let e = s.push(c).subrange(1, 1);
        assert(e =~= Seq::<LzCode>::empty());
        assert(group_bytes(e) =~= Seq::<u8>::empty());
        assert(group_bytes(s) =~= Seq::<u8>::empty());
        assert(group_bytes(s.push(c)) =~= code_bytes(c));
    } else {
        lemma_group_bytes_push(s.subrange(1, s.len() as int), c);
        assert(s.push(c).subrange(1, s.len() + 1int) =~= s.subrange(1, s.len() as int).push(c));
        assert(group_bytes(s.push(c)) =~= group_bytes(s) + code_bytes(c));
    }
}

pub proof fn lemma_flag_value_push(s: Seq<LzCode>, c: LzCode)
    ensures
        flag_value(s.push(c)) == flag_value(s) + code_bit(c) * pow2(s.len()),
    decreases s.len(),
{
    if s.len() == 0 {
        let e = s.push(c).subrange(1, 1);
        assert(e =~= Seq::<LzCode>::empty());
        assert(flag_value(e) == 0);
        assert(flag_value(s) == 0);
        lemma2_to64();
    } else {
        let r = s.subrange(1, s.len() as int);
        lemma_flag_value_push(r, c);
        assert(s.push(c).subrange(1, s.len() + 1int) =~= r.push(c));
        assert(s.push(c)[0] == s[0]);
        lemma_pow2_unfold(s.len());
        let p = pow2((s.len() - 1) as nat) as int;
        let b = code_bit(c) as int;
        assert(2 * (b * p) == b * (2 * p)) by (nonlinear_arith);
    }
}

pub proof fn lemma_flag_value_bound(s: Seq<LzCode>)
    ensures
        flag_value(s) < pow2(s.len()),
    decreases s.len(),
{
    if s.len() == 0 {
        lemma2_to64();
    } else {
        lemma_flag_value_bound(s.subrange(1, s.len() as int));
        lemma_pow2_unfold(s.len());
    }
}

/// Bit `t` of the flag bits is the flag bit of code `t`.
pub proof fn lemma_flag_value_bit(s: Seq<LzCode>, t: int)
    requires
        0 <= t < s.len(),
    ensures
        (flag_value(s) / pow2(t as nat)) % 2 == code_bit(s[t]),
    decreases t,
{
    lemma2_to64();
    let r = s.subrange(1, s.len() as int);
    let a = code_bit(s[0]) as int;
    let f = flag_value(r) as int;
    assert(flag_value(s) == a + 2 * f);
    if t == 0 {
        assert((a + 2 * f) % 2 == a);
    } else {
        lemma_flag_value_bit(r, t - 1);
        assert(r[t - 1] == s[t]);
        lemma_pow2_unfold(t as nat);
        let p = pow2((t - 1) as nat) as int;
        lemma_pow2_pos((t - 1) as nat);
        vstd::arithmetic::div_mod::lemma_div_denominator(a + 2 * f, 2, p);
        assert((a + 2 * f) / 2 == f);
        assert(pow2(t as nat) == 2 * p);
    }
}

pub proof fn lemma_lz_total_push(s: Seq<LzCode>, c: LzCode)
    ensures
        lz_total(s.push(c)) == lz_total(s) + code_len(c),
{
    assert(s.push(c).drop_last() =~= s);
}

pub proof fn lemma_lz_total_bound(s: Seq<LzCode>)
    ensures
        lz_total(s) <= 258 * s.len(),
    decreases s.len(),
{
    if s.len() > 0 {
        lemma_lz_total_bound(s.drop_last());
    }
}

/// The buffer of codes whose first `m` (a multiple of eight) fill whole groups is the
/// buffer of those, then the buffer of the rest.
pub proof fn lemma_lz_enc_split(s: Seq<LzCode>, m: int)
    requires
        0 <= m <= s.len(),
        m % 8 == 0,
    ensures
        lz_enc(s) == lz_enc(s.take(m)) + lz_enc(s.skip(m)),
    decreases m,
{
    if m == 0 {
        assert(s.take(0) =~= Seq::<LzCode>::empty());
        assert(s.skip(0) =~= s);
        assert(lz_enc(s.take(0)) =~= Seq::<u8>::empty());
        assert(lz_enc(s) =~= Seq::<u8>::empty() + lz_enc(s));
    } else if s.len() <= 8 {
        assert(m == 8 && s.len() == 8);
        assert(s.take(m) =~= s);
        assert(s.skip(m) =~= Seq::<LzCode>::empty());
        assert(lz_enc(s) =~= lz_enc(s) + Seq::<u8>::empty());
    } else {
        let t = s.skip(8);
        lemma_lz_enc_split(t, m - 8);
        assert(t.take(m - 8) =~= s.take(m).skip(8));
        assert(t.skip(m - 8) =~= s.skip(m));
        assert(s.take(m).take(8) =~= s.take(8));
        if m == 8 {
            assert(s.take(8).len() == 8);
            assert(t.take(0) =~= Seq::<LzCode>::empty());
            assert(lz_enc(s.take(8)) == seq![flag_value(s.take(8)) as u8] + group_bytes(s.take(8)));
        } else {
            assert(lz_enc(s.take(m)) == seq![flag_value(s.take(8)) as u8] + group_bytes(s.take(8)) + lz_enc(
                s.take(m).skip(8),
            ));
        }
        assert(lz_enc(s) =~= lz_enc(s.take(m)) + lz_enc(s.skip(m)));
    }
}

/// The buffer of at most one group.
pub proof fn lemma_lz_enc_group(s: Seq<LzCode>)
    requires
        1 <= s.len() <= 8,
    ensures
        lz_enc(s) == seq![flag_value(s) as u8] + group_bytes(s),
{
}

/// The buffer of codes that fill `full` whole groups and then a last group `rest`.
pub proof fn lemma_lz_enc_last_group(s: Seq<LzCode>, full: int)
    requires
        0 <= full < s.len(),
        full % 8 == 0,
        s.len() - full <= 8,
    ensures
        lz_enc(s) == lz_enc(s.take(full)) + seq![flag_value(s.skip(full)) as u8] + group_bytes(
            s.skip(full),
        ),
{
    lemma_lz_enc_split(s, full);
    lemma_lz_enc_group(s.skip(full));
    assert(lz_enc(s) =~= lz_enc(s.take(full)) + seq![flag_value(s.skip(full)) as u8] + group_bytes(
        s.skip(full),
    ));
}



pub proof fn lemma_group_bytes_split(s: Seq<LzCode>, t: int)
    requires
        0 <= t <= s.len(),
    ensures
        group_bytes(s) == group_bytes(s.take(t)) + group_bytes(s.skip(t)),
    decreases t,
{
    if t == 0 {
        assert(s.take(0) =~= Seq::<LzCode>::empty());
        assert(s.skip(0) =~= s);
        assert(group_bytes(s.take(0)) =~= Seq::<u8>::empty());
        assert(group_bytes(s) =~= Seq::<u8>::empty() + group_bytes(s));
    } else {
        let r = s.subrange(1, s.len() as int);
        lemma_group_bytes_split(r, t - 1);
        assert(s.take(t).subrange(1, t) =~= r.take(t - 1));
        assert(s.take(t)[0] == s[0]);
        assert(r.skip(t - 1) =~= s.skip(t));
        assert(group_bytes(s) =~= group_bytes(s.take(t)) + group_bytes(s.skip(t)));
    }
}

/// Where the codes of the group starting at `b` lie in the buffer: its flag byte right
/// after the earlier groups, then the bytes of its codes in order.
pub proof fn lemma_enc_locate(items: Seq<LzCode>, b: int, j: int)
    requires
        b % 8 == 0,
        0 <= b <= j < items.len(),
        j < b + 8,
    ensures
        ({
            let e = if b + 8 <= items.len() { b + 8 } else { items.len() as int };
            let base = lz_enc(items.take(b)).len() as int;
            let at = base + 1 + group_bytes(items.subrange(b, j)).len();
            let cb = code_bytes(items[j]);
            &&& lz_enc(items)[base] == flag_value(items.subrange(b, e)) as u8
            &&& at + cb.len() <= lz_enc(items).len()
            &&& forall|t: int| 0 <= t < cb.len() ==> lz_enc(items)[at + t] == #[trigger] cb[t]
            &&& group_bytes(items.subrange(b, j + 1)) == group_bytes(items.subrange(b, j)) + cb
            &&& (j + 1 == items.len() ==> lz_enc(items).len() == at + cb.len())
            &&& (j + 1 == b + 8 ==> lz_enc(items.take(b + 8)).len() == at + cb.len())
        }),
{
    let n = items.len() as int;
    let e = if b + 8 <= n { b + 8 } else { n };
    let g = items.subrange(b, e);
    let rest = items.skip(b);
    lemma_lz_enc_split(items, b);
    assert(rest.take(e - b) =~= g);
    if rest.len() <= 8 {
        assert(g =~= rest);
        lemma_lz_enc_group(rest);
    } else {
        assert(rest.take(8) =~= g);
    }
    assert(lz_enc(rest) == seq![flag_value(g) as u8] + group_bytes(g) + (if rest.len() > 8 {
        lz_enc(rest.skip(8))
    } else {
        Seq::<u8>::empty()
    })) by {
        if rest.len() <= 8 {
            assert(seq![flag_value(g) as u8] + group_bytes(g) =~= seq![flag_value(g) as u8] + group_bytes(g)
                + Seq::<u8>::empty());
        }
    }
    lemma_group_bytes_split(g, j - b);
    assert(g.take(j - b) =~= items.subrange(b, j));
    let tail = g.skip(j - b);
    assert(tail[0] == items[j]);
    assert(group_bytes(tail) == code_bytes(items[j]) + group_bytes(tail.subrange(1, tail.len() as int)));
    assert(items.subrange(b, j + 1) =~= items.subrange(b, j).push(items[j]));
    lemma_group_bytes_push(items.subrange(b, j), items[j]);
    let base = lz_enc(items.take(b)).len() as int;
    let at = base + 1 + group_bytes(items.subrange(b, j)).len();
    let cb = code_bytes(items[j]);
    assert forall|t: int| 0 <= t < cb.len() implies lz_enc(items)[at + t] == #[trigger] cb[t] by {
        assert(lz_enc(items)[at + t] == lz_enc(rest)[at + t - base]);
        assert(lz_enc(rest)[at + t - base] == group_bytes(g)[at + t - base - 1]);
        assert(group_bytes(g)[at + t - base - 1] == group_bytes(tail)[t]);
    }
    if j + 1 == n {
        assert(tail.subrange(1, tail.len() as int) =~= Seq::<LzCode>::empty());
        assert(group_bytes(tail.subrange(1, tail.len() as int)) =~= Seq::<u8>::empty());
    }
    if j + 1 == b + 8 {
        assert(tail.subrange(1, tail.len() as int) =~= Seq::<LzCode>::empty());
        assert(group_bytes(tail.subrange(1, tail.len() as int)) =~= Seq::<u8>::empty());
        let t8 = items.take(b + 8);
        lemma_lz_enc_split(t8, b);
        assert(t8.take(b) =~= items.take(b));
        assert(t8.skip(b) =~= g);
        lemma_lz_enc_group(g);
    }
}

/// The flag byte after one more code: shifted down, with the code's bit on top. Its top
/// `k + 1` bits then hold the flags of the group's codes.
pub proof fn lemma_flag_step(f: u8, rest: Seq<LzCode>, c: LzCode)
    requires
        rest.len() < 8,
        rest.len() > 0 ==> (f >> ((8 - rest.len()) as u8)) as nat == flag_value(rest),
    ensures
        ((if code_bit(c) == 1 { (f >> 1u8) | 0x80u8 } else { f >> 1u8 }) >> ((7 - rest.len()) as u8)) as nat
            == flag_value(rest.push(c)),
{
    let k = rest.len() as u8;
    let b: u8 = code_bit(c) as u8;
    let f2: u8 = if code_bit(c) == 1 { (f >> 1u8) | 0x80u8 } else { f >> 1u8 };
    assert(f2 == ((f >> 1u8) | (b << 7u8))) by (bit_vector)
        requires
            b < 2,
            f2 == if b == 1 { (f >> 1u8) | 0x80u8 } else { f >> 1u8 },
    ;
    lemma_flag_value_push(rest, c);
    lemma2_to64();
    if k == 0 {
        assert(((f >> 1u8) | (b << 7u8)) >> 7u8 == b) by (bit_vector)
            requires
                b < 2,
        ;
        assert(rest =~= Seq::<LzCode>::empty());
        assert(flag_value(rest) == 0);
    } else {
        assert((((f >> 1u8) | (b << 7u8)) >> (7 - k) as u8) == (f >> (8 - k) as u8) + b * (1u8 << k)) by (
        bit_vector)
            requires
                b < 2,
                1 <= k < 8,
        ;
        lemma_u8_shl_is_mul(1, k);
    }
}

/// The buffer after one more code: its bytes written at the code position, its flag bit
/// shifted into the flag byte, and a new group started after eight codes.
pub proof fn lemma_inv_push(lz0: LZOxide, lz1: LZOxide, items: Seq<LzCode>, c: LzCode)
    requires
        lz0.inv(items),
        code_ok(c),
        lz0.code_position + code_bytes(c).len() + 1 <= 65536,
        lz1.codes@.len() == 65536,
        lz1.codes@[lz0.flag_position as int] == (if code_bit(c) == 1 {
            (lz0.codes@[lz0.flag_position as int] >> 1u8) | 0x80u8
        } else {
            lz0.codes@[lz0.flag_position as int] >> 1u8
        }),
        forall|t: int|
            0 <= t < code_bytes(c).len() ==> lz1.codes@[lz0.code_position + t] == (#[trigger] code_bytes(c)[t]),
        forall|i: int|
            0 <= i < 65536 && i != lz0.flag_position && !(lz0.code_position <= i < lz0.code_position
                + code_bytes(c).len()) ==> lz1.codes@[i] == lz0.codes@[i],
        lz0.num_flags_left > 1 ==> lz1.num_flags_left == lz0.num_flags_left - 1 && lz1.flag_position
            == lz0.flag_position && lz1.code_position == lz0.code_position + code_bytes(c).len(),
        lz0.num_flags_left == 1 ==> lz1.num_flags_left == 8 && lz1.flag_position == lz0.code_position
            + code_bytes(c).len() && lz1.code_position == lz0.code_position + code_bytes(c).len() + 1,
        lz1.total_bytes == lz0.total_bytes + code_len(c),
    ensures
        lz1.inv(items.push(c)),
{
    let n = items.len();
    let k = n % 8;
    let full = n - k;
    let rest = items.skip(full);
    let it = items.push(c);
    let m = code_bytes(c).len() as int;
    let fp = lz0.flag_position as int;
    let cp = lz0.code_position as int;
    lemma_flag_step(lz0.codes@[fp], rest, c);
    lemma_group_bytes_push(rest, c);
    lemma_lz_total_push(items, c);
    assert(it.take(full) =~= items.take(full));
    assert(it.skip(full) =~= rest.push(c));
    assert(lz1.codes@.subrange(0, fp) =~= lz0.codes@.subrange(0, fp));
    assert(lz1.codes@.subrange(fp + 1, cp + m) =~= lz0.codes@.subrange(fp + 1, cp) + code_bytes(c));
    assert forall|i: int| 0 <= i < it.len() implies code_ok(#[trigger] it[i]) by {
        if i < n {
            assert(it[i] == items[i]);
        }
    }
    if k + 1 == 8 {
        assert((n + 1) % 8 == 0);
        assert(it.take(n + 1int) =~= it);
        assert(it.skip(n + 1int) =~= Seq::<LzCode>::empty());
        lemma_lz_enc_last_group(it, full);
        lemma_flag_value_bound(rest.push(c));
        let f2 = lz1.codes@[fp];
        assert(f2 >> 0u8 == f2) by (bit_vector);
        assert(rest.len() == 7);
        assert(f2 as nat == flag_value(rest.push(c)));
        assert(flag_value(it.skip(full)) as u8 == f2);
        assert(lz1.codes@.subrange(0, cp + m) =~= lz1.codes@.subrange(0, fp) + seq![lz1.codes@[fp]]
            + lz1.codes@.subrange(fp + 1, cp + m));
        assert(lz1.codes@.subrange(cp + m + 1, cp + m + 1) =~= Seq::<u8>::empty());
        assert(group_bytes(Seq::<LzCode>::empty()) =~= Seq::<u8>::empty());
        let n1 = it.len();
        assert(n1 % 8 == 0);
        assert(lz1.num_flags_left == 8 - n1 % 8);
        assert(lz1.flag_position == lz_enc(it.take(n1 - n1 % 8)).len());
        assert(lz1.code_position == lz1.flag_position + 1 + group_bytes(it.skip(n1 - n1 % 8)).len());
        assert(lz1.codes@.subrange(0, lz1.flag_position as int) == lz_enc(it.take(n1 - n1 % 8)));
        assert(lz1.codes@.subrange(lz1.flag_position + 1, lz1.code_position as int) == group_bytes(it.skip(n1 - n1 % 8)));
        assert(lz1.total_bytes == lz_total(it));
        assert(n1 <= lz1.code_position);
    } else {
        let n1 = it.len();
        assert(n1 % 8 == k + 1);
        assert(lz1.num_flags_left == 8 - n1 % 8);
        assert(lz1.flag_position == lz_enc(it.take(n1 - n1 % 8)).len());
        assert(lz1.code_position == lz1.flag_position + 1 + group_bytes(it.skip(n1 - n1 % 8)).len());
        assert(lz1.codes@.subrange(0, lz1.flag_position as int) == lz_enc(it.take(n1 - n1 % 8)));
        assert(lz1.codes@.subrange(lz1.flag_position + 1, lz1.code_position as int) == group_bytes(it.skip(n1 - n1 % 8)));
        assert((lz1.codes@[lz1.flag_position as int] >> ((8 - n1 % 8) as u8)) as nat == flag_value(it.skip(n1 - n1 % 8)));
        assert(lz1.total_bytes == lz_total(it));
        assert(n1 <= lz1.code_position);
    }
}

/// The code `c` at position `p` of the stream `hist` stands for the bytes there: a literal
/// for its byte, a match for bytes equal to those its distance back.
pub open spec fn code_valid(hist: Seq<u8>, p: int, c: LzCode) -> bool {
    match c {
        LzCode::Lit(b) => 0 <= p < hist.len() && hist[p] == b,
        LzCode::Match(l, d) => {
            &&& d + 1 <= p
            &&& p + l + 3 <= hist.len()
            &&& forall|t: int| 0 <= t < l + 3 ==> #[trigger] hist[p + t] == hist[p - (d + 1) + t]
        },
    }
}

/// The codes `items` stand for the bytes of `hist` from `start` on, one after another.
pub open spec fn codes_valid(hist: Seq<u8>, start: int, items: Seq<LzCode>) -> bool
    decreases items.len(),
{
    items.len() == 0 || (codes_valid(hist, start, items.drop_last()) && code_valid(
        hist,
        start + lz_total(items.drop_last()),
        items.last(),
    ))
}

/// `n` bytes copied one at a time from `dist` bytes back, so that a copy may overlap
/// what it writes.
pub open spec fn copy_back(out: Seq<u8>, dist: int, n: nat) -> Seq<u8>
    decreases n,
{
    if n == 0 {
        out
    } else {
        let o = copy_back(out, dist, (n - 1) as nat);
        o.push(o[o.len() - dist])
    }
}

/// The output after decoding one more code.
pub open spec fn apply_code(out: Seq<u8>, c: LzCode) -> Seq<u8> {
    match c {
        LzCode::Lit(b) => out.push(b),
        LzCode::Match(l, d) => copy_back(out, d + 1, (l + 3) as nat),
    }
}

/// The output after decoding the codes `items` after `out`.
pub open spec fn lz_decode(out: Seq<u8>, items: Seq<LzCode>) -> Seq<u8>
    decreases items.len(),
{
    if items.len() == 0 {
        out
    } else {
        apply_code(lz_decode(out, items.drop_last()), items.last())
    }
}

proof fn lemma_copy_back(hist: Seq<u8>, p: int, dist: int, n: nat)
    requires
        1 <= dist <= p,
        p + n <= hist.len(),
        forall|t: int| 0 <= t < n ==> #[trigger] hist[p + t] == hist[p - dist + t],
    ensures
        copy_back(hist.take(p), dist, n) == hist.take(p + n),
    decreases n,
{
    if n > 0 {
        lemma_copy_back(hist, p, dist, (n - 1) as nat);
        let o = hist.take(p + n - 1);
        assert(o[o.len() - dist] == hist[p + (n - 1) - dist]);
        assert(hist[p + (n - 1)] == hist[p - dist + (n - 1)]);
        assert(o.push(hist[p + n - 1]) =~= hist.take(p + n));
    }
}

/// Decoding the codes recorded for a part of the stream, after the bytes before it, gives
/// back that part of the stream.
pub proof fn lemma_lz_decode(hist: Seq<u8>, start: int, items: Seq<LzCode>)
    requires
        0 <= start,
        codes_valid(hist, start, items),
        start + lz_total(items) <= hist.len(),
    ensures
        lz_decode(hist.take(start), items) == hist.take(start + lz_total(items)),
    decreases items.len(),
{
    if items.len() == 0 {
        assert(lz_total(items) == 0);
    } else {
        let init = items.drop_last();
        let c = items.last();
        let p = start + lz_total(init);
        assert(lz_total(items) == lz_total(init) + code_len(c));
        lemma_lz_decode(hist, start, init);
        match c {
            LzCode::Lit(b) => {
                assert(hist.take(p).push(b) =~= hist.take(p + 1));
            },
            LzCode::Match(l, d) => {
                lemma_copy_back(hist, p, d + 1, (l + 3) as nat);
            },
        }
    }
}

pub proof fn lemma_codes_valid_push(hist: Seq<u8>, start: int, items: Seq<LzCode>, c: LzCode)
    requires
        codes_valid(hist, start, items),
        code_valid(hist, start + lz_total(items), c),
    ensures
        codes_valid(hist, start, items.push(c)),
{
    assert(items.push(c).drop_last() =~= items);
}

/// Codes stay valid as the stream grows.
pub proof fn lemma_codes_valid_extend(hist: Seq<u8>, more: Seq<u8>, start: int, items: Seq<LzCode>)
    requires
        codes_valid(hist, start, items),
    ensures
        codes_valid(hist + more, start, items),
    decreases items.len(),
{
    if items.len() > 0 {
        lemma_codes_valid_extend(hist, more, start, items.drop_last());
        let p = start + lz_total(items.drop_last());
        match items.last() {
            LzCode::Lit(b) => {},
            LzCode::Match(l, d) => {
                assert forall|t: int| 0 <= t < l + 3 implies #[trigger] (hist + more)[p + t] == (hist + more)[p - (d + 1) + t] by {
                    assert(hist[p + t] == hist[p - (d + 1) + t]);
                }
            },
        }
    }
}

/// The LZ code buffer of the block being built. Codes are written one after another; the
/// flag byte of the current group is reserved when the group starts and gets one bit per
/// code, shifted in from the top, so that after eight codes the first code's bit is the
/// lowest.
pub struct LZOxide {
    pub codes: Vec<u8>,
    pub code_position: usize,
    pub flag_position: usize,
    pub total_bytes: u32,
    pub num_flags_left: u32,
}

impl LZOxide {
    /// The buffer holds the codes `items`: the groups before the current one are final,
    /// the codes of the current group follow its flag byte, whose top bits hold their flags.
    pub open spec fn inv(&self, items: Seq<LzCode>) -> bool {
        let n = items.len();
        let k = n % 8;
        let full = n - k;
        let fp = self.flag_position as int;
        let cp = self.code_position as int;
        &&& self.codes@.len() == 65536
        &&& self.num_flags_left == 8 - k
        &&& fp == lz_enc(items.take(full)).len()
        &&& cp == fp + 1 + group_bytes(items.skip(full)).len()
        &&& cp <= 65536
        &&& self.codes@.subrange(0, fp) == lz_enc(items.take(full))
        &&& self.codes@.subrange(fp + 1, cp) == group_bytes(items.skip(full))
        &&& k > 0 ==> (self.codes@[fp] >> ((8 - k) as u8)) as nat == flag_value(items.skip(full))
        &&& self.total_bytes == lz_total(items)
        &&& n <= cp
        &&& forall|i: int| 0 <= i < n ==> code_ok(#[trigger] items[i])
    }

    /// An empty buffer, with the flag byte of the first group reserved.
    pub fn new() -> (r: Self)
        ensures
            r.inv(Seq::empty()),
            r.code_position == 1,
    {
        let r = LZOxide {
            codes: vec![0u8; 65536],
            code_position: 1,
            flag_position: 0,
            total_bytes: 0,
            num_flags_left: 8,
        };
        proof {
            let e = Seq::<LzCode>::empty();
            assert(e.take(0) =~= e);
            assert(e.skip(0) =~= e);
            assert(r.codes@.subrange(0, 0) =~= lz_enc(e.take(0)));
            assert(r.codes@.subrange(1, 1) =~= group_bytes(e.skip(0)));
        }
        r
    }

    /// Appends one byte.
    pub fn write_code(&mut self, val: u8)
        requires
            old(self).code_position < old(self).codes@.len(),
            old(self).codes@.len() == 65536,
        ensures
            final(self).codes@ == old(self).codes@.update(old(self).code_position as int, val),
            final(self).code_position == old(self).code_position + 1,
            final(self).flag_position == old(self).flag_position,
            final(self).total_bytes == old(self).total_bytes,
            final(self).num_flags_left == old(self).num_flags_left,
    {
        self.codes[self.code_position] = val;
        self.code_position += 1;
    }

    /// Reserves the flag byte of a new group.
    pub fn plant_flag(&mut self)
        requires
            old(self).code_position < usize::MAX,
        ensures
            final(self).flag_position == old(self).code_position,
            final(self).code_position == old(self).code_position + 1,
            final(self).codes == old(self).codes,
            final(self).total_bytes == old(self).total_bytes,
            final(self).num_flags_left == old(self).num_flags_left,
    {
        self.flag_position = self.code_position;
        self.code_position += 1;
    }

    /// Counts one code in the current group; after eight, starts a new group.
    pub fn consume_flag(&mut self)
        requires
            1 <= old(self).num_flags_left <= 8,
            old(self).code_position < usize::MAX,
        ensures
            old(self).num_flags_left > 1 ==> final(self).num_flags_left == old(self).num_flags_left - 1
                && final(self).code_position == old(self).code_position
                && final(self).flag_position == old(self).flag_position,
            old(self).num_flags_left == 1 ==> final(self).num_flags_left == 8
                && final(self).flag_position == old(self).code_position
                && final(self).code_position == old(self).code_position + 1,
            final(self).codes == old(self).codes,
            final(self).total_bytes == old(self).total_bytes,
    {
        self.num_flags_left -= 1;
        if self.num_flags_left == 0 {
            self.num_flags_left = 8;
            self.plant_flag();
        }
    }

    /// Ends the buffer: an empty last group loses its reserved flag byte, and the flag
    /// bits of a partial group are moved down to the lowest bits. The buffer up to the
    /// code position is then exactly the codes' buffer.
    pub fn init_flag(&mut self, Ghost(items): Ghost<Seq<LzCode>>)
        requires
            old(self).inv(items),
        ensures
            final(self).code_position == lz_enc(items).len(),
            final(self).code_position <= 65536,
            final(self).codes@.len() == 65536,
            final(self).codes@.subrange(0, final(self).code_position as int) == lz_enc(items),
            final(self).total_bytes == old(self).total_bytes,
            final(self).flag_position == old(self).flag_position,
            final(self).num_flags_left == old(self).num_flags_left,
    {
        let ghost n = items.len();
        let ghost k = n % 8;
        let ghost full = n - k;
        let fp = self.flag_position;
        if self.num_flags_left == 8 {
            self.codes[fp] = 0;
            self.code_position -= 1;
            proof {
                assert(items.take(full) =~= items);
                assert(items.skip(full) =~= Seq::<LzCode>::empty());
                assert(self.codes@.subrange(0, fp as int) =~= old(self).codes@.subrange(0, fp as int));
            }
        } else {
            let f = self.codes[fp];
            let sh = self.num_flags_left;
            proof {
                assert(sh < 8);
                assert((f >> (sh as u8)) == (f >> sh)) by (bit_vector)
                    requires
                        sh < 8,
                ;
            }
            self.codes[fp] = f >> sh;
            proof {
                let rest = items.skip(full);
                lemma_flag_value_bound(rest);
                lemma_lz_enc_last_group(items, full);
                assert(self.codes@.subrange(0, self.code_position as int) =~= old(self).codes@.subrange(
                    0,
                    fp as int,
                ) + seq![flag_value(rest) as u8] + old(self).codes@.subrange(
                    fp + 1,
                    self.code_position as int,
                ));
            }
        }
    }
}


} // verus!
