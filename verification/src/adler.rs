//! The Adler-32 checksum of the zlib format.

use vstd::prelude::*;

verus! {

/// The modulus of Adler-32.
pub const ADLER_MOD: u32 = 65521;

/// The two running sums after `data`, starting from `a` and `b`.
pub open spec fn adler_sums(a: nat, b: nat, data: Seq<u8>) -> (nat, nat)
    decreases data.len(),
{
    if data.len() == 0 {
        (a, b)
    } else {
        let prev = adler_sums(a, b, data.drop_last());
        let a2 = ((prev.0 + data.last()) % 65521) as nat;
        (a2, ((prev.1 + a2) % 65521) as nat)
    }
}

/// The checksum `adler` updated with `data`: the low half holds the sum of the bytes and
/// the high half the sum of those sums, both modulo 65521.
pub open spec fn adler32_spec(adler: u32, data: Seq<u8>) -> u32 {
    let sums = adler_sums((adler % 65536) as nat, (adler / 65536) as nat, data);
    (sums.1 * 65536 + sums.0) as u32
}

/// Updates a running Adler-32 checksum with `data`.
pub fn update_adler32(adler: u32, data: &[u8]) -> (r: u32)
    ensures
        r == adler32_spec(adler, data@),
        data@.len() == 0 ==> r == adler,
        data@.len() > 0 ==> r % 65536 == ((adler % 65536) + byte_sum(data@)) % (ADLER_MOD as int),
        data@.len() > 0 ==> r / 65536 == ((adler / 65536) + data@.len() * (adler % 65536) + prefix_sum_total(
            data@,
        )) % (ADLER_MOD as int),
        data@.len() > 0 ==> r % 65536 < ADLER_MOD && r / 65536 < ADLER_MOD,
{
    proof {
        lemma_adler32_closed_form(adler, data@);
    }
    let mut a: u32 = adler & 0xFFFF;
    let mut b: u32 = adler >> 16;
    proof {
        assert(adler & 0xFFFF == adler % 65536) by (bit_vector);
        assert(adler >> 16 == adler / 65536) by (bit_vector);
    }
    let n = data.len();
    let mut i: usize = 0;
    while i < n
        invariant
            n == data@.len(),
            i <= n,
            a < 65536,
            b < 65536,
            i > 0 ==> a < 65521 && b < 65521,
            (a as nat, b as nat) == adler_sums((adler % 65536) as nat, (adler / 65536) as nat, data@.subrange(0, i as int)),
        decreases n - i,
    {
        proof {
            assert(data@.subrange(0, i + 1).drop_last() =~= data@.subrange(0, i as int));
        }
        a = (a + data[i] as u32) % ADLER_MOD;
        b = (b + a) % ADLER_MOD;
        i += 1;
    }
    proof {
        assert(data@.subrange(0, n as int) =~= data@);
    }
    b * 65536 + a
}


proof fn lemma_adler_sums_concat(a: nat, b: nat, x: Seq<u8>, y: Seq<u8>)
    ensures
        adler_sums(a, b, x + y) == adler_sums(adler_sums(a, b, x).0, adler_sums(a, b, x).1, y),
    decreases y.len(),
{
    if y.len() == 0 {
        assert(x + y =~= x);
    } else {
        lemma_adler_sums_concat(a, b, x, y.drop_last());
        assert((x + y).drop_last() =~= x + y.drop_last());
        assert((x + y).last() == y.last());
    }
}

/// The checksum of a longer input is the checksum of its start, updated with the rest:
/// updating in pieces gives the checksum of the whole.
pub proof fn lemma_adler32_concat(adler: u32, x: Seq<u8>, y: Seq<u8>)
    ensures
        adler32_spec(adler32_spec(adler, x), y) == adler32_spec(adler, x + y),
{
    let a0 = (adler % 65536) as nat;
    let b0 = (adler / 65536) as nat;
    let sx = adler_sums(a0, b0, x);
    lemma_adler_sums_concat(a0, b0, x, y);
    let m = adler32_spec(adler, x);
    if x.len() == 0 {
        assert(sx == (a0, b0));
        assert(b0 * 65536 + a0 == adler);
        assert(m == adler);
        assert(x + y =~= y);
    } else {
        assert(sx.0 < 65521 && sx.1 < 65521);
        assert(sx.1 * 65536 + sx.0 < 0x1_0000_0000) by (nonlinear_arith)
            requires
                sx.0 < 65521,
                sx.1 < 65521,
        ;
        assert(m == sx.1 * 65536 + sx.0);
        vstd::arithmetic::div_mod::lemma_fundamental_div_mod_converse(m as int, 65536, sx.1 as int, sx.0 as int);
    }
}

/// The sum of the bytes of `data`.
pub open spec fn byte_sum(data: Seq<u8>) -> int
    decreases data.len(),
{
    if data.len() == 0 {
        0
    } else {
        byte_sum(data.drop_last()) + data.last()
    }
}

/// The sum, over the non-empty prefixes of `data`, of the sum of the prefix's bytes.
pub open spec fn prefix_sum_total(data: Seq<u8>) -> int
    decreases data.len(),
{
    if data.len() == 0 {
        0
    } else {
        prefix_sum_total(data.drop_last()) + byte_sum(data)
    }
}

proof fn lemma_adler_sums_closed(a0: nat, b0: nat, data: Seq<u8>)
    requires
        data.len() >= 1,
    ensures
        adler_sums(a0, b0, data).0 == (a0 + byte_sum(data)) % (ADLER_MOD as int),
        adler_sums(a0, b0, data).1 == (b0 + data.len() * a0 + prefix_sum_total(data)) % (ADLER_MOD as int),
    decreases data.len(),
{
    let m = ADLER_MOD as int;
    let t = data.drop_last();
    let x = data.last() as int;
    let n = data.len() as int;
    if t.len() == 0 {
        assert(byte_sum(t) == 0);
        assert(byte_sum(data) == x);
        assert(prefix_sum_total(t) == 0);
        assert(prefix_sum_total(data) == x);
        let a2 = (a0 + x) % m;
        vstd::arithmetic::div_mod::lemma_add_mod_noop_right(b0 as int, a0 + x, m);
        assert(n * a0 == a0);
        assert((b0 + a2) % m == (b0 + n * a0 + prefix_sum_total(data)) % m);
        assert(adler_sums(a0, b0, t) == (a0, b0));
        assert(adler_sums(a0, b0, data).0 == a2);
        assert(adler_sums(a0, b0, data).1 == (b0 + a2) % m);
    } else {
        lemma_adler_sums_closed(a0, b0, t);
        let s1 = byte_sum(t);
        let p1 = prefix_sum_total(t);
        let u = a0 + s1;
        let v = b0 + (n - 1) * a0 + p1;
        vstd::arithmetic::div_mod::lemma_add_mod_noop_right(x, u, m);
        assert((u % m + x) % m == (u + x) % m);
        let a2 = (u + x) % m;
        vstd::arithmetic::div_mod::lemma_add_mod_noop(v, u + x, m);
        vstd::arithmetic::div_mod::lemma_mod_twice(u + x, m);
        assert((v % m + a2) % m == (v + u + x) % m);
        assert(n * a0 == (n - 1) * a0 + a0) by (nonlinear_arith);
        assert(byte_sum(data) == s1 + x);
        assert(prefix_sum_total(data) == p1 + s1 + x);
        let prev = adler_sums(a0, b0, t);
        assert(prev.0 == u % m);
        assert(prev.1 == v % m);
        assert(adler_sums(a0, b0, data).0 == (prev.0 + x) % m);
        assert(adler_sums(a0, b0, data).0 == a2);
        assert(adler_sums(a0, b0, data).1 == (prev.1 + a2) % m);
        assert(v + u + x == b0 + n * a0 + prefix_sum_total(data));
    }
}

/// Adler-32 in closed form: updating with no data keeps the checksum; otherwise, with `a0`
/// and `b0` the low and high halves of the checksum before, the low half after is `a0`
/// plus the sum of the bytes, and the high half is `b0` plus `n` times `a0` plus the sum
/// of the sums of every non-empty prefix, both taken modulo 65521.
pub proof fn lemma_adler32_closed_form(adler: u32, data: Seq<u8>)
    ensures
        data.len() == 0 ==> adler32_spec(adler, data) == adler,
        data.len() > 0 ==> adler32_spec(adler, data) % 65536 == ((adler % 65536) + byte_sum(data)) % (
        ADLER_MOD as int),
        data.len() > 0 ==> adler32_spec(adler, data) / 65536 == ((adler / 65536) + data.len() * (adler
            % 65536) + prefix_sum_total(data)) % (ADLER_MOD as int),
        data.len() > 0 ==> adler32_spec(adler, data) % 65536 < ADLER_MOD && adler32_spec(adler, data) / 65536
            < ADLER_MOD,
{
    let a0 = (adler % 65536) as nat;
    let b0 = (adler / 65536) as nat;
    if data.len() == 0 {
        assert(b0 * 65536 + a0 == adler);
    } else {
        lemma_adler_sums_closed(a0, b0, data);
        let sx = adler_sums(a0, b0, data);
        assert(sx.0 < 65521 && sx.1 < 65521);
        assert(sx.1 * 65536 + sx.0 < 0x1_0000_0000) by (nonlinear_arith)
            requires
                sx.0 < 65521,
                sx.1 < 65521,
        ;
        let r = adler32_spec(adler, data);
        assert(r == sx.1 * 65536 + sx.0);
        vstd::arithmetic::div_mod::lemma_fundamental_div_mod_converse(r as int, 65536, sx.1 as int, sx.0 as int);
    }
}

} // verus!
