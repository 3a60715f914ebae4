use vstd::prelude::*;
use crate::be_bytes::{exec_i64_as_u64, i64_as_u64, u64_be, write_u64_be};

verus! {

broadcast use vstd::seq::group_seq_axioms;

// Arbitrary-length two's complement big-endian integers: the form the
// host stores signed values in. A byte string of length n denotes
// be_val(s) - 256^n when its first byte has the top bit set, be_val(s)
// otherwise; the empty string denotes zero.

pub open spec fn pow256(n: nat) -> nat
    decreases n,
{
    if n == 0 {
        1
    } else {
        256 * pow256((n - 1) as nat)
    }
}

/// The base-256 value of a byte string, most significant byte first.
pub open spec fn be_val(s: Seq<u8>) -> nat
    decreases s.len(),
{
    if s.len() == 0 {
        0
    } else {
        (be_val(s.drop_last()) * 256 + s.last()) as nat
    }
}

/// The two's complement value of a byte string, most significant byte
/// first; the empty string denotes zero.
pub open spec fn signed_be_val(s: Seq<u8>) -> int {
    if s.len() == 0 {
        0
    } else if s[0] >= 0x80 {
        be_val(s) - pow256(s.len())
    } else {
        be_val(s) as int
    }
}

pub proof fn lemma_pow256_pos(n: nat)
    ensures
        pow256(n) >= 1,
    decreases n,
{
    if n > 0 {
        lemma_pow256_pos((n - 1) as nat);
    }
}

/// The concrete powers of 256 up to the 8 bytes of a 64-bit value.
pub proof fn lemma_pow256_values()
    ensures
        pow256(0) == 1,
        pow256(1) == 0x100,
        pow256(2) == 0x1_0000,
        pow256(3) == 0x100_0000,
        pow256(4) == 0x1_0000_0000,
        pow256(5) == 0x100_0000_0000,
        pow256(6) == 0x1_0000_0000_0000,
        pow256(7) == 0x100_0000_0000_0000,
        pow256(8) == 0x1_0000_0000_0000_0000,
{
    assert(pow256(0) == 1);
    assert(pow256(1) == 0x100);
    assert(pow256(2) == 0x1_0000);
    assert(pow256(3) == 0x100_0000);
    assert(pow256(4) == 0x1_0000_0000);
    assert(pow256(5) == 0x100_0000_0000);
    assert(pow256(6) == 0x1_0000_0000_0000);
    assert(pow256(7) == 0x100_0000_0000_0000);
}

pub proof fn lemma_pow256_monotone(a: nat, b: nat)
    requires
        a <= b,
    ensures
        pow256(a) <= pow256(b),
        pow256(a) >= 1,
    decreases b,
{
    lemma_pow256_pos(a);
    if a < b {
        lemma_pow256_monotone(a, (b - 1) as nat);
        lemma_pow256_pos((b - 1) as nat);
    }
}

pub proof fn lemma_be_val_bound(s: Seq<u8>)
    ensures
        be_val(s) < pow256(s.len()),
    decreases s.len(),
{
    if s.len() > 0 {
        lemma_be_val_bound(s.drop_last());
        assert(be_val(s.drop_last()) <= pow256((s.len() - 1) as nat) - 1);
        assert(be_val(s.drop_last()) * 256 <= (pow256((s.len() - 1) as nat) - 1) * 256)
            by (nonlinear_arith)
            requires
                be_val(s.drop_last()) <= pow256((s.len() - 1) as nat) - 1,
                pow256((s.len() - 1) as nat) >= 1,
        {
        }
        lemma_pow256_monotone(0, (s.len() - 1) as nat);
    }
}

/// Unfolding `be_val` at the most significant byte instead of the least.
pub proof fn lemma_be_val_first(s: Seq<u8>)
    requires
        s.len() > 0,
    ensures
        be_val(s) == s[0] * pow256((s.len() - 1) as nat) + be_val(s.skip(1)),
    decreases s.len(),
{
    if s.len() == 1 {
        assert(s.drop_last() =~= Seq::<u8>::empty());
        assert(s.skip(1) =~= Seq::<u8>::empty());
        assert(be_val(Seq::<u8>::empty()) == 0);
        assert(be_val(s) == s.last());
        assert(s.last() == s[0]);
        assert(pow256(0) == 1);
        assert(s[0] * 1 == s[0]);
    } else {
        lemma_be_val_first(s.drop_last());
        assert(s.drop_last()[0] == s[0]);
        assert(s.drop_last().skip(1) =~= s.skip(1).drop_last());
        assert(s.skip(1).last() == s.last());
        assert(be_val(s) == (s[0] * pow256((s.len() - 2) as nat) + be_val(s.skip(1).drop_last()))
            * 256 + s.last());
        assert((s[0] * pow256((s.len() - 2) as nat) + be_val(s.skip(1).drop_last())) * 256 + s.last()
            == s[0] * (pow256((s.len() - 2) as nat) * 256) + (be_val(s.skip(1).drop_last()) * 256
            + s.last())) by (nonlinear_arith);
        assert(pow256((s.len() - 2) as nat) * 256 == pow256((s.len() - 1) as nat));
        assert(s[0] * (pow256((s.len() - 2) as nat) * 256) == s[0] * pow256((s.len() - 1) as nat))
            by (nonlinear_arith)
            requires
                pow256((s.len() - 2) as nat) * 256 == pow256((s.len() - 1) as nat),
        {
        }
        assert(be_val(s.skip(1)) == be_val(s.skip(1).drop_last()) * 256 + s.last());
        assert(be_val(s) == s[0] * pow256((s.len() - 1) as nat) + be_val(s.skip(1)));
    }
}

/// A leading sign-fill byte does not change the denoted value: `0x00`
/// before a byte without the top bit, `0xff` before a byte with it.
pub proof fn lemma_signed_be_val_strip(s: Seq<u8>)
    requires
        s.len() >= 2,
        (s[0] == 0 && s[1] < 0x80) || (s[0] == 0xff && s[1] >= 0x80),
    ensures
        signed_be_val(s.skip(1)) == signed_be_val(s),
{
    let t = s.skip(1);
    lemma_be_val_first(s);
    assert(t[0] == s[1]);
    if s[0] == 0 {
        assert(be_val(s) == be_val(t));
    } else {
        assert(be_val(s) == 255 * pow256((s.len() - 1) as nat) + be_val(t));
        assert(pow256(s.len()) == 256 * pow256((s.len() - 1) as nat));
        assert(signed_be_val(s) == be_val(t) - pow256((s.len() - 1) as nat));
    }
}

/// The 8 big-endian bytes of a 64-bit value denote exactly that value.
pub proof fn lemma_be_val_u64_be(u: u64)
    ensures
        be_val(u64_be(u)) == u,
{
    let s = u64_be(u);
    let b0 = (u >> 56) & 0xff;
    let b1 = (u >> 48) & 0xff;
    let b2 = (u >> 40) & 0xff;
    let b3 = (u >> 32) & 0xff;
    let b4 = (u >> 24) & 0xff;
    let b5 = (u >> 16) & 0xff;
    let b6 = (u >> 8) & 0xff;
    let b7 = u & 0xff;
    assert(b0 < 256 && b1 < 256 && b2 < 256 && b3 < 256 && b4 < 256 && b5 < 256 && b6 < 256 && b7
        < 256 && (u >> 56) == b0 && (u >> 48) == b0 * 256 + b1 && (u >> 40) == (b0 * 256 + b1) * 256
        + b2 && (u >> 32) == ((b0 * 256 + b1) * 256 + b2) * 256 + b3 && (u >> 24) == (((b0 * 256
        + b1) * 256 + b2) * 256 + b3) * 256 + b4 && (u >> 16) == ((((b0 * 256 + b1) * 256 + b2)
        * 256 + b3) * 256 + b4) * 256 + b5 && (u >> 8) == (((((b0 * 256 + b1) * 256 + b2) * 256
        + b3) * 256 + b4) * 256 + b5) * 256 + b6 && u == ((((((b0 * 256 + b1) * 256 + b2) * 256
        + b3) * 256 + b4) * 256 + b5) * 256 + b6) * 256 + b7) by (bit_vector)
        requires
            b0 == (u >> 56) & 0xff,
            b1 == (u >> 48) & 0xff,
            b2 == (u >> 40) & 0xff,
            b3 == (u >> 32) & 0xff,
            b4 == (u >> 24) & 0xff,
            b5 == (u >> 16) & 0xff,
            b6 == (u >> 8) & 0xff,
            b7 == u & 0xff,
    ;
    assert(s.take(1).drop_last() =~= s.take(0));
    assert(s.take(2).drop_last() =~= s.take(1));
    assert(s.take(3).drop_last() =~= s.take(2));
    assert(s.take(4).drop_last() =~= s.take(3));
    assert(s.take(5).drop_last() =~= s.take(4));
    assert(s.take(6).drop_last() =~= s.take(5));
    assert(s.take(7).drop_last() =~= s.take(6));
    assert(s.take(8).drop_last() =~= s.take(7));
    assert(s.take(0) =~= Seq::<u8>::empty());
    assert(be_val(s.take(0)) == 0);
    assert(be_val(s.take(1)) == b0);
    assert(be_val(s.take(2)) == b0 * 256 + b1);
    assert(be_val(s.take(3)) == (b0 * 256 + b1) * 256 + b2);
    assert(be_val(s.take(4)) == ((b0 * 256 + b1) * 256 + b2) * 256 + b3);
    assert(be_val(s.take(5)) == (((b0 * 256 + b1) * 256 + b2) * 256 + b3) * 256 + b4);
    assert(be_val(s.take(6)) == ((((b0 * 256 + b1) * 256 + b2) * 256 + b3) * 256 + b4) * 256 + b5);
    assert(be_val(s.take(7)) == (((((b0 * 256 + b1) * 256 + b2) * 256 + b3) * 256 + b4) * 256 + b5)
        * 256 + b6);
    assert(be_val(s.take(8)) == ((((((b0 * 256 + b1) * 256 + b2) * 256 + b3) * 256 + b4) * 256
        + b5) * 256 + b6) * 256 + b7);
    assert(s.take(8) =~= s);
}

/// The 8 big-endian bytes of the two's complement of an `i64` denote it.
pub proof fn lemma_signed_be_val_u64_be(v: i64)
    ensures
        signed_be_val(u64_be(i64_as_u64(v))) == v,
        u64_be(i64_as_u64(v))[0] >= 0x80 <==> v < 0,
{
    let u = i64_as_u64(v);
    lemma_be_val_u64_be(u);
    assert((u >> 56) & 0xff < 256 && (((u >> 56) & 0xff >= 0x80) <==> (u
        >= 0x8000_0000_0000_0000))) by (bit_vector);
    assert(u64_be(u)[0] == ((u >> 56) & 0xff) as u8);
    assert(u64_be(u)[0] >= 0x80 <==> u >= 0x8000_0000_0000_0000);
    lemma_pow256_values();
            assert(pow256(8) == 0x1_0000_0000_0000_0000);
}

/// Minimality: no further sign-fill byte can be removed from the front.
pub open spec fn is_minimal_signed_be(s: Seq<u8>) -> bool {
    s.len() > 1 ==> !((s[0] == 0 && s[1] < 0x80) || (s[0] == 0xff && s[1] >= 0x80))
}

/// How many leading sign-fill bytes of a byte string are redundant.
pub open spec fn sign_strip_count(s: Seq<u8>) -> nat
    decreases s.len(),
{
    if s.len() > 1 && ((s[0] == 0 && s[1] < 0x80) || (s[0] == 0xff && s[1] >= 0x80)) {
        1 + sign_strip_count(s.skip(1))
    } else {
        0
    }
}

/// The shortest two's complement big-endian form of an `i64`: its 8
/// bytes with every redundant leading sign-fill byte removed.
pub open spec fn i64_signed_be_bytes(v: i64) -> Seq<u8> {
    let full = u64_be(i64_as_u64(v));
    full.skip(sign_strip_count(full) as int)
}

/// The two's complement big-endian bytes of an `i64`, shortest form: the
/// unique byte string of length 1 to 8 that denotes the value and has no
/// removable leading sign-fill byte. Zero is the single byte `0`.
pub fn i64_to_signed_bytes_be(v: i64) -> (r: Vec<u8>)
    ensures
        r@ == i64_signed_be_bytes(v),
        signed_be_val(r@) == v,
        1 <= r@.len() <= 8,
        is_minimal_signed_be(r@),
        r@[0] >= 0x80 <==> v < 0,
{
    let u = exec_i64_as_u64(v);
    let mut full: Vec<u8> = Vec::new();
    write_u64_be(&mut full, u);
    proof {
        lemma_signed_be_val_u64_be(v);
        assert(full@.skip(0) =~= full@);
    }
    let mut start: usize = 0;
    while start < 7 && ((full[start] == 0 && full[start + 1] < 0x80) || (full[start] == 0xff
        && full[start + 1] >= 0x80))
        invariant
            full@ == u64_be(i64_as_u64(v)),
            start < 8,
            signed_be_val(full@.skip(start as int)) == v,
            full@.skip(start as int)[0] >= 0x80 <==> v < 0,
            sign_strip_count(full@) == start + sign_strip_count(full@.skip(start as int)),
        decreases 8 - start,
    {
        proof {
            let t = full@.skip(start as int);
            assert(t[0] == full@[start as int]);
            assert(t[1] == full@[start as int + 1]);
            lemma_signed_be_val_strip(t);
            assert(t.skip(1) =~= full@.skip(start as int + 1));
            assert(sign_strip_count(t) == 1 + sign_strip_count(t.skip(1)));
        }
        start = start + 1;
    }
    proof {
        let t = full@.skip(start as int);
        if t.len() > 1 {
            assert(t[0] == full@[start as int]);
            assert(t[1] == full@[start as int + 1]);
        }
        assert(sign_strip_count(t) == 0);
        assert(sign_strip_count(full@) == start);
    }
    let mut r: Vec<u8> = Vec::new();
    let mut i: usize = start;
    while i < 8
        invariant
            full@ == u64_be(i64_as_u64(v)),
            start <= i <= 8,
            start < 8,
            r@ == full@.subrange(start as int, i as int),
        decreases 8 - i,
    {
        let b = full[i];
        r.push(b);
        proof {
            assert(full@.subrange(start as int, i as int).push(full@[i as int]) =~= full@.subrange(
                start as int,
                i + 1,
            ));
        }
        i += 1;
    }
    proof {
        assert(r@ =~= full@.skip(start as int));
    }
    r
}

/// The value a two's complement big-endian byte string denotes, if it
/// fits in an `i64`: `Some` exactly on the strings whose value lies in
/// the 64-bit signed range, `None` on every other.
pub fn signed_be_to_i64(bytes: &[u8]) -> (r: Option<i64>)
    ensures
        r matches Some(v) ==> v == signed_be_val(bytes@),
        (r is Some) == (-0x8000_0000_0000_0000 <= signed_be_val(bytes@) < 0x8000_0000_0000_0000),
{
    let n = bytes.len();
    if n == 0 {
        return Some(0);
    }
    let neg = bytes[0] >= 0x80;
    let fill: u8 = if neg {
        0xff
    } else {
        0
    };
    proof {
        assert(bytes@.skip(0) =~= bytes@);
    }
    let mut start: usize = 0;
    while start + 1 < n && bytes[start] == fill && ((bytes[start + 1] >= 0x80) == neg)
        invariant
            n == bytes@.len(),
            n > 0,
            start < n,
            neg == (bytes@[0] >= 0x80),
            fill == (if neg {
                0xff_u8
            } else {
                0_u8
            }),
            signed_be_val(bytes@.skip(start as int)) == signed_be_val(bytes@),
            (bytes@.skip(start as int)[0] >= 0x80) == neg,
        decreases n - start,
    {
        proof {
            let t = bytes@.skip(start as int);
            assert(t[0] == bytes@[start as int]);
            assert(t[1] == bytes@[start as int + 1]);
            lemma_signed_be_val_strip(t);
            assert(t.skip(1) =~= bytes@.skip(start as int + 1));
        }
        start = start + 1;
    }
    let ghost t = bytes@.skip(start as int);
    let tlen = n - start;
    if tlen > 8 {
        proof {
            assert(t[0] == bytes@[start as int]);
            assert(t[1] == bytes@[start as int + 1]);
            if neg {
                lemma_signed_be_val_neg_bound(t);
            } else {
                lemma_signed_be_val_pos_bound(t);
            }
        }
        return None;
    }
    let mut acc: u128 = 0;
    let mut i: usize = start;
    while i < n
        invariant
            n == bytes@.len(),
            start <= i <= n,
            n - start <= 8,
            t == bytes@.skip(start as int),
            acc == be_val(t.take(i - start)),
            acc < pow256((i - start) as nat),
        decreases n - i,
    {
        proof {
            lemma_pow256_monotone((i - start + 1) as nat, 8);
            lemma_pow256_values();
            assert(pow256(8) == 0x1_0000_0000_0000_0000);
            assert(acc * 256 + 255 < pow256((i - start + 1) as nat)) by (nonlinear_arith)
                requires
                    acc < pow256((i - start) as nat),
                    pow256((i - start + 1) as nat) == 256 * pow256((i - start) as nat),
            {
            }
            assert(t.take(i - start + 1).drop_last() =~= t.take(i - start));
            assert(t.take(i - start + 1).last() == bytes@[i as int]);
        }
        let b = bytes[i];
        acc = acc * 256 + (b as u128);
        i += 1;
    }
    proof {
        assert(t.take(n - start) =~= t);
        lemma_pow256_monotone((n - start) as nat, 8);
        lemma_pow256_values();
            assert(pow256(8) == 0x1_0000_0000_0000_0000);
    }
    let modulus: u128 = pow256_u128(tlen);
    let val: i128 = if neg {
        (acc as i128) - (modulus as i128)
    } else {
        acc as i128
    };
    proof {
        assert(val == signed_be_val(t));
        lemma_signed_be_fits(t);
    }
    Some(val as i64)
}

/// `256^n` as a number in code, for `n` up to 8.
fn pow256_u128(n: usize) -> (r: u128)
    requires
        n <= 8,
    ensures
        r == pow256(n as nat),
{
    proof {
        lemma_pow256_values();
    }
    match n {
        0 => 1,
        1 => 0x100,
        2 => 0x1_0000,
        3 => 0x100_0000,
        4 => 0x1_0000_0000,
        5 => 0x100_0000_0000,
        6 => 0x1_0000_0000_0000,
        7 => 0x100_0000_0000_0000,
        _ => 0x1_0000_0000_0000_0000,
    }
}

/// A non-negative minimal-form string of length >= 9 denotes >= 2^63.
proof fn lemma_signed_be_val_pos_bound(t: Seq<u8>)
    requires
        t.len() >= 9,
        t[0] < 0x80,
        !(t[0] == 0 && t[1] < 0x80),
    ensures
        signed_be_val(t) >= 0x8000_0000_0000_0000,
{
    lemma_be_val_first(t);
    let m = (t.len() - 1) as nat;
    lemma_pow256_monotone(8, m);
    lemma_pow256_values();
            assert(pow256(8) == 0x1_0000_0000_0000_0000);
    if t[0] >= 1 {
        assert(t[0] * pow256(m) >= pow256(m)) by (nonlinear_arith)
            requires
                t[0] >= 1,
                pow256(m) >= 0,
        {
        }
    } else {
        // t[0] == 0, so t[1] >= 0x80; the value of the rest alone
        // already reaches 2^63
        let t1 = t.skip(1);
        lemma_be_val_first(t1);
        assert(t1[0] == t[1]);
        let m1 = (t1.len() - 1) as nat;
        lemma_pow256_monotone(7, m1);
        assert(t1[0] * pow256(m1) >= 0x80 * pow256(7)) by (nonlinear_arith)
            requires
                t1[0] >= 0x80,
                pow256(m1) >= pow256(7),
                pow256(m1) >= 1,
                pow256(7) >= 1,
        {
        }
        assert(0x80 * pow256(7) == 0x8000_0000_0000_0000) by {
            lemma_pow256_values();
            assert(pow256(7) == 0x100_0000_0000_0000);
        }
    }
}

/// A negative minimal-form string of length >= 9 denotes < -(2^63).
proof fn lemma_signed_be_val_neg_bound(t: Seq<u8>)
    requires
        t.len() >= 9,
        t[0] >= 0x80,
        !(t[0] == 0xff && t[1] >= 0x80),
    ensures
        signed_be_val(t) < -0x8000_0000_0000_0000,
{
    let n = t.len();
    let m = (n - 1) as nat;
    lemma_be_val_first(t);
    let rest = t.skip(1);
    lemma_be_val_bound(rest);
    // value = t[0]*256^m + be_val(rest) - 256*256^m
    //       = -(256 - t[0])*256^m + be_val(rest)
    assert(pow256(n) == 256 * pow256(m));
    if t[0] <= 0xfe {
        // at least two full 256^m below zero, one is regained at most
        assert((256 - t[0]) * pow256(m) >= 2 * pow256(m)) by (nonlinear_arith)
            requires
                t[0] <= 0xfe,
                pow256(m) >= 1,
        {
        }
        lemma_pow256_monotone(8, m);
        lemma_pow256_values();
            assert(pow256(8) == 0x1_0000_0000_0000_0000);
        assert(signed_be_val(t) == be_val(rest) - (256 - t[0]) * pow256(m)) by (nonlinear_arith)
            requires
                signed_be_val(t) == t[0] * pow256(m) + be_val(rest) - 256 * pow256(m),
        {
        }
        assert(rest.len() == m);
        assert(be_val(rest) < pow256(m));
        assert(signed_be_val(t) < -(pow256(m) as int));
        assert(signed_be_val(t) < -0x8000_0000_0000_0000);
    } else {
        // t[0] == 0xff with t[1] < 0x80: the rest reaches at most half
        // of 256^m, so a full half of 256^m stays missing below zero
        assert(t[0] == 0xff);
        assert(t[1] < 0x80);
        // value = be_val(rest) - 256^m; show be_val(rest) < 256^m / 2
        let rest1 = rest.skip(1);
        lemma_be_val_first(rest);
        lemma_be_val_bound(rest1);
        let m1 = (rest.len() - 1) as nat;
        // be_val(rest) = rest[0]*256^m1 + be_val(rest1)
        //             <= 0x7f*256^m1 + 256^m1 - 1 < 0x80 * 256^m1
        assert(rest[0] == t[1]);
        assert(rest[0] * pow256(m1) <= 0x7f * pow256(m1)) by (nonlinear_arith)
            requires
                rest[0] <= 0x7f,
                pow256(m1) >= 0,
        {
        }
        assert(be_val(rest) < 0x80 * pow256(m1));
        assert(m == m1 + 1);
        assert(pow256(m) == 256 * pow256(m1));
        assert(0x80 * pow256(m1) * 2 <= pow256(m)) by (nonlinear_arith)
            requires
                pow256(m) == 256 * pow256(m1),
                pow256(m1) >= 1,
        {
        }
        lemma_pow256_monotone(7, m1);
        lemma_pow256_values();
            assert(pow256(7) == 0x100_0000_0000_0000);
        assert(signed_be_val(t) == be_val(rest) - 256 * pow256(m1));
        assert(signed_be_val(t) < -(0x80 * pow256(m1)));
        assert(0x80 * pow256(m1) >= 0x80 * pow256(7)) by (nonlinear_arith)
            requires
                pow256(m1) >= pow256(7),
        {
        }
        assert(signed_be_val(t) < -0x8000_0000_0000_0000);
    }
}

/// A sign-consistent string of at most 8 bytes always fits in an `i64`.
proof fn lemma_signed_be_fits(t: Seq<u8>)
    requires
        t.len() <= 8,
    ensures
        -0x8000_0000_0000_0000 <= signed_be_val(t) < 0x8000_0000_0000_0000,
{
    if t.len() == 0 {
    } else {
        lemma_be_val_bound(t);
        lemma_pow256_monotone(t.len(), 8);
        lemma_pow256_values();
            assert(pow256(8) == 0x1_0000_0000_0000_0000);
        if t[0] >= 0x80 {
            let m = (t.len() - 1) as nat;
            lemma_be_val_first(t);
            lemma_be_val_bound(t.skip(1));
            assert(t[0] * pow256(m) >= 0x80 * pow256(m)) by (nonlinear_arith)
                requires
                    t[0] >= 0x80,
                    pow256(m) >= 0,
            {
            }
            assert(0x80 * pow256(m) * 2 == 256 * pow256(m)) by (nonlinear_arith);
            assert(pow256(t.len()) == 256 * pow256(m));
        } else {
            let m = (t.len() - 1) as nat;
            lemma_be_val_first(t);
            lemma_be_val_bound(t.skip(1));
            assert(t[0] * pow256(m) <= 0x7f * pow256(m)) by (nonlinear_arith)
                requires
                    t[0] <= 0x7f,
                    pow256(m) >= 0,
            {
            }
            lemma_pow256_monotone(m, 7);
            lemma_pow256_values();
            assert(pow256(7) == 0x100_0000_0000_0000);
            assert(0x7f * pow256(m) + pow256(m) == 0x80 * pow256(m)) by (nonlinear_arith);
            assert(0x80 * pow256(m) <= 0x80 * pow256(7)) by (nonlinear_arith)
                requires
                    pow256(m) <= pow256(7),
            {
            }
        }
    }
}

} // verus!
