//! Byte-level wire primitives shared by the compact binary encodings:
//! little-endian integers and length-prefixed character strings.

use vstd::arithmetic::div_mod::{lemma_fundamental_div_mod, lemma_multiply_divide_lt};
use vstd::prelude::*;
use vstd::string::StrSliceExecFns;
use vstd::utf8::{char_is_scalar, char_u32_cast, is_scalar};

verus! {

/// 256 raised to the power `n`.
pub open spec fn pow256(n: nat) -> int
    decreases n,
{
    if n == 0 {
        1
    } else {
        256 * pow256((n - 1) as nat)
    }
}

pub proof fn lemma_pow256_pos(n: nat)
    ensures
        pow256(n) >= 1,
    decreases n,
{
    if n > 0 {
        lemma_pow256_pos((n - 1) as nat);
    }
}

/// The `n` little-endian base-256 digits of `v`.
pub open spec fn le_bytes(v: int, n: nat) -> Seq<u8>
    decreases n,
{
    if n == 0 {
        Seq::empty()
    } else {
        seq![(v % 256) as u8] + le_bytes(v / 256, (n - 1) as nat)
    }
}

/// The value of a little-endian base-256 digit sequence.
pub open spec fn int_of_le(b: Seq<u8>) -> int
    decreases b.len(),
{
    if b.len() == 0 {
        0
    } else {
        b[0] + 256 * int_of_le(b.drop_first())
    }
}

pub proof fn lemma_le_bytes_len(v: int, n: nat)
    ensures
        le_bytes(v, n).len() == n,
    decreases n,
{
    if n > 0 {
        lemma_le_bytes_len(v / 256, (n - 1) as nat);
    }
}

/// Writing `n` digits and reading them back restores any value below
/// 256 to the `n`.
pub proof fn lemma_le_round(v: int, n: nat)
    requires
        0 <= v < pow256(n),
    ensures
        int_of_le(le_bytes(v, n)) == v,
    decreases n,
{
    if n == 0 {
    } else {
        lemma_pow256_pos((n - 1) as nat);
        lemma_multiply_divide_lt(v, 256, pow256((n - 1) as nat));
        lemma_le_round(v / 256, (n - 1) as nat);
        assert(le_bytes(v, n).drop_first() =~= le_bytes(v / 256, (n - 1) as nat));
        lemma_fundamental_div_mod(v, 256);
    }
}

/// The characters of a string, each as its 4-byte scalar value.
pub open spec fn enc_chars(s: Seq<char>) -> Seq<u8>
    decreases s.len(),
{
    if s.len() == 0 {
        Seq::empty()
    } else {
        le_bytes(s[0] as u32 as int, 4) + enc_chars(s.drop_first())
    }
}

/// A string on the wire: its length in 8 bytes, then its characters.
pub open spec fn enc_str(s: Seq<char>) -> Seq<u8> {
    le_bytes(s.len() as int, 8) + enc_chars(s)
}

pub proof fn lemma_enc_chars_app(a: Seq<char>, b: Seq<char>)
    ensures
        enc_chars(a + b) == enc_chars(a) + enc_chars(b),
    decreases a.len(),
{
    if a.len() == 0 {
        assert(a + b =~= b);
        assert(enc_chars(a) + enc_chars(b) =~= enc_chars(b));
    } else {
        assert((a + b).drop_first() =~= a.drop_first() + b);
        lemma_enc_chars_app(a.drop_first(), b);
        assert(enc_chars(a + b) =~= enc_chars(a) + enc_chars(b));
    }
}

/// Reads 8 bytes as a little-endian value, or nothing when too short.
pub open spec fn dec_u64(b: Seq<u8>) -> Option<(int, Seq<u8>)> {
    if b.len() >= 8 {
        Some((int_of_le(b.take(8)), b.skip(8)))
    } else {
        None
    }
}

/// Reads 4 bytes as a scalar value and the character it names, or
/// nothing when too short or not a Unicode scalar.
pub open spec fn dec_char(b: Seq<u8>) -> Option<(char, Seq<u8>)> {
    if b.len() >= 4 {
        let u = int_of_le(b.take(4));
        if is_scalar(u as u32) {
            Some(((u as u32) as char, b.skip(4)))
        } else {
            None
        }
    } else {
        None
    }
}

/// Reads exactly `n` characters.
pub open spec fn dec_chars(b: Seq<u8>, n: nat) -> Option<(Seq<char>, Seq<u8>)>
    decreases n,
{
    if n == 0 {
        Some((Seq::empty(), b))
    } else {
        match dec_char(b) {
            None => None,
            Some((c, r)) => match dec_chars(r, (n - 1) as nat) {
                None => None,
                Some((s, r2)) => Some((seq![c] + s, r2)),
            },
        }
    }
}

/// Reads a length-prefixed string.
pub open spec fn dec_str(b: Seq<u8>) -> Option<(Seq<char>, Seq<u8>)> {
    match dec_u64(b) {
        None => None,
        Some((n, r)) => dec_chars(r, n as nat),
    }
}

pub proof fn lemma_dec_u64_enc(v: int, rest: Seq<u8>)
    requires
        0 <= v < pow256(8),
    ensures
        dec_u64(le_bytes(v, 8) + rest) == Some((v, rest)),
{
    lemma_le_bytes_len(v, 8);
    let b = le_bytes(v, 8) + rest;
    assert(b.take(8) =~= le_bytes(v, 8));
    assert(b.skip(8) =~= rest);
    lemma_le_round(v, 8);
}

pub proof fn lemma_dec_char_enc(c: char, rest: Seq<u8>)
    ensures
        dec_char(le_bytes(c as u32 as int, 4) + rest) == Some((c, rest)),
{
    char_is_scalar(c);
    let u = c as u32 as int;
    assert(pow256(4) == 0x100000000) by {
        reveal_with_fuel(pow256, 5);
    }
    lemma_le_bytes_len(u, 4);
    let b = le_bytes(u, 4) + rest;
    assert(b.take(4) =~= le_bytes(u, 4));
    assert(b.skip(4) =~= rest);
    lemma_le_round(u, 4);
    char_u32_cast(c, c as u32);
}

pub proof fn lemma_dec_chars_enc(s: Seq<char>, rest: Seq<u8>)
    ensures
        dec_chars(enc_chars(s) + rest, s.len()) == Some((s, rest)),
    decreases s.len(),
{
    if s.len() == 0 {
        assert(enc_chars(s) + rest =~= rest);
    } else {
        let head = le_bytes(s[0] as u32 as int, 4);
        assert(enc_chars(s) + rest =~= head + (enc_chars(s.drop_first()) + rest));
        lemma_dec_char_enc(s[0], enc_chars(s.drop_first()) + rest);
        lemma_dec_chars_enc(s.drop_first(), rest);
        assert(seq![s[0]] + s.drop_first() =~= s);
    }
}

/// Decoding inverts encoding for any string a machine can hold.
pub proof fn lemma_dec_str_enc(s: Seq<char>, rest: Seq<u8>)
    requires
        s.len() < pow256(8),
    ensures
        dec_str(enc_str(s) + rest) == Some((s, rest)),
{
    assert(enc_str(s) + rest =~= le_bytes(s.len() as int, 8) + (enc_chars(s) + rest));
    lemma_dec_u64_enc(s.len() as int, enc_chars(s) + rest);
    lemma_dec_chars_enc(s, rest);
}

/// Relies on char::from_u32: a character comes back exactly for a
/// Unicode scalar value, and it names that value.
#[verifier::external_body]
pub(crate) fn char_from_u32(u: u32) -> (r: Option<char>)
    ensures
        r is Some <==> is_scalar(u),
        r matches Some(c) ==> c as u32 == u,
{
    char::from_u32(u)
}

/// Relies on String::push: appends one character.
#[verifier::external_body]
pub(crate) fn push_char(s: &mut String, c: char)
    ensures
        final(s)@ == old(s)@.push(c),
{
    s.push(c);
}

#[verifier::rlimit(100)]
pub(crate) fn push_u64_le(out: &mut Vec<u8>, v: u64)
    ensures
        final(out)@ == old(out)@ + le_bytes(v as int, 8),
{
    out.push((v % 0x100) as u8);
    out.push(((v / 0x100) % 0x100) as u8);
    out.push(((v / 0x10000) % 0x100) as u8);
    out.push(((v / 0x1000000) % 0x100) as u8);
    out.push(((v / 0x100000000) % 0x100) as u8);
    out.push(((v / 0x10000000000) % 0x100) as u8);
    out.push(((v / 0x1000000000000) % 0x100) as u8);
    out.push(((v / 0x100000000000000) % 0x100) as u8);
    proof {
        reveal_with_fuel(le_bytes, 9);
        assert(out@ =~= old(out)@ + le_bytes(v as int, 8));
    }
}

pub(crate) fn push_u32_le(out: &mut Vec<u8>, v: u32)
    ensures
        final(out)@ == old(out)@ + le_bytes(v as int, 4),
{
    out.push((v % 0x100) as u8);
    out.push(((v / 0x100) % 0x100) as u8);
    out.push(((v / 0x10000) % 0x100) as u8);
    out.push(((v / 0x1000000) % 0x100) as u8);
    proof {
        reveal_with_fuel(le_bytes, 5);
        assert(out@ =~= old(out)@ + le_bytes(v as int, 4));
    }
}

/// Appends the wire form of a string: length, then characters.
pub(crate) fn push_str_wire(out: &mut Vec<u8>, s: &str)
    ensures
        final(out)@ == old(out)@ + enc_str(s@),
        s@.len() < pow256(8),
{
    let l = s.unicode_len();
    proof {
        assert(pow256(8) > 0xffffffffffffffff) by {
            reveal_with_fuel(pow256, 9);
        }
    }
    push_u64_le(out, l as u64);
    let ghost base = out@;
    let mut i: usize = 0;
    while i < l
        invariant
            l == s@.len(),
            i <= l,
            out@ == base + enc_chars(s@.take(i as int)),
        decreases l - i,
    {
        let c = s.get_char(i);
        push_u32_le(out, c as u32);
        proof {
            char_is_scalar(c);
            assert(s@.take(i + 1) =~= s@.take(i as int) + seq![c]);
            lemma_enc_chars_app(s@.take(i as int), seq![c]);
            assert(seq![c].drop_first() =~= Seq::<char>::empty());
            assert(seq![c][0] == c);
            assert(enc_chars(seq![c]) == le_bytes(c as u32 as int, 4) + enc_chars(
                seq![c].drop_first(),
            ));
            assert(enc_chars(seq![c]) =~= le_bytes(c as u32 as int, 4));
            assert(out@ =~= base + enc_chars(s@.take(i + 1)));
        }
        i += 1;
    }
    proof {
        assert(s@.take(l as int) =~= s@);
    }
}

pub(crate) fn read_u32_le(b: &Vec<u8>, p: usize) -> (r: u32)
    requires
        p + 4 <= b@.len(),
    ensures
        r as int == int_of_le(b@.subrange(p as int, p as int + 4)),
{
    let blen = b.len();
    assert(p + 4 <= blen);
    let r0 = b[p + 3] as u32;
    let r1 = r0 * 0x100 + (b[p + 2] as u32);
    let r2 = r1 * 0x100 + (b[p + 1] as u32);
    let r3 = r2 * 0x100 + (b[p] as u32);
    proof {
        let s = b@.subrange(p as int, p as int + 4);
        reveal_with_fuel(int_of_le, 5);
        assert(s.drop_first() =~= b@.subrange(p as int + 1, p as int + 4));
        assert(s.drop_first().drop_first() =~= b@.subrange(p as int + 2, p as int + 4));
        assert(s.drop_first().drop_first().drop_first() =~= b@.subrange(p as int + 3, p as int + 4));
        assert(s.drop_first().drop_first().drop_first().drop_first() =~= Seq::<u8>::empty());
    }
    r3
}

#[verifier::rlimit(100)]
pub(crate) fn read_u64_le(b: &Vec<u8>, p: usize) -> (r: u64)
    requires
        p + 8 <= b@.len(),
    ensures
        r as int == int_of_le(b@.subrange(p as int, p as int + 8)),
{
    let blen = b.len();
    assert(p + 8 <= blen);
    let r0 = b[p + 7] as u64;
    let r1 = r0 * 0x100 + (b[p + 6] as u64);
    let r2 = r1 * 0x100 + (b[p + 5] as u64);
    let r3 = r2 * 0x100 + (b[p + 4] as u64);
    let r4 = r3 * 0x100 + (b[p + 3] as u64);
    let r5 = r4 * 0x100 + (b[p + 2] as u64);
    let r6 = r5 * 0x100 + (b[p + 1] as u64);
    let r7 = r6 * 0x100 + (b[p] as u64);
    proof {
        let s = b@.subrange(p as int, p as int + 8);
        reveal_with_fuel(int_of_le, 9);
        assert(s.drop_first() =~= b@.subrange(p as int + 1, p as int + 8));
        assert(s.drop_first().drop_first() =~= b@.subrange(p as int + 2, p as int + 8));
        assert(s.drop_first().drop_first().drop_first() =~= b@.subrange(p as int + 3, p as int + 8));
        assert(s.drop_first().drop_first().drop_first().drop_first() =~= b@.subrange(
            p as int + 4,
            p as int + 8,
        ));
        assert(s.drop_first().drop_first().drop_first().drop_first().drop_first() =~= b@.subrange(
            p as int + 5,
            p as int + 8,
        ));
        assert(s.drop_first().drop_first().drop_first().drop_first().drop_first().drop_first()
            =~= b@.subrange(p as int + 6, p as int + 8));
        assert(s.drop_first().drop_first().drop_first().drop_first().drop_first().drop_first().drop_first()
            =~= b@.subrange(p as int + 7, p as int + 8));
        assert(s.drop_first().drop_first().drop_first().drop_first().drop_first().drop_first().drop_first().drop_first()
            =~= Seq::<u8>::empty());
    }
    r7
}

/// How an accumulator and the not-yet-read tail together stand for a
/// whole character run being decoded.
pub open spec fn chars_cont(
    full: Option<(Seq<char>, Seq<u8>)>,
    acc: Seq<char>,
    rem: Option<(Seq<char>, Seq<u8>)>,
) -> bool {
    match rem {
        Some((s, r)) => full == Some((acc + s, r)),
        None => full is None,
    }
}

/// Reads a length-prefixed string starting at `p`; on success also
/// reports the position after it.
pub(crate) fn read_str_wire(b: &Vec<u8>, p: usize) -> (r: Option<(String, usize)>)
    requires
        p <= b@.len(),
    ensures
        match r {
            None => dec_str(b@.skip(p as int)) is None,
            Some(sp) => p <= sp.1 <= b@.len() && dec_str(b@.skip(p as int)) == Some(
                (sp.0@, b@.skip(sp.1 as int)),
            ),
        },
{
    if b.len() - p < 8 {
        return None;
    }
    let n64 = read_u64_le(b, p);
    let start = p + 8;
    proof {
        assert(b@.skip(p as int).take(8) =~= b@.subrange(p as int, p as int + 8));
        assert(b@.skip(p as int).skip(8) =~= b@.skip(start as int));
    }
    assert(dec_str(b@.skip(p as int)) == dec_chars(b@.skip(start as int), n64 as nat));
    let mut s = String::new();
    let mut cur: usize = start;
    let mut i: u64 = 0;
    while i < n64
        invariant
            start <= cur <= b@.len(),
            b@.len() <= usize::MAX,
            i <= n64,
            dec_str(b@.skip(p as int)) == dec_chars(b@.skip(start as int), n64 as nat),
            chars_cont(
                dec_chars(b@.skip(start as int), n64 as nat),
                s@,
                dec_chars(b@.skip(cur as int), (n64 - i) as nat),
            ),
        decreases n64 - i,
    {
        if b.len() - cur < 4 {
            proof {
                assert(dec_chars(b@.skip(cur as int), (n64 - i) as nat) is None);
            }
            return None;
        }
        let u = read_u32_le(b, cur);
        proof {
            assert(b@.skip(cur as int).take(4) =~= b@.subrange(cur as int, cur as int + 4));
            assert(b@.skip(cur as int).skip(4) =~= b@.skip(cur as int + 4));
        }
        match char_from_u32(u) {
            None => {
                proof {
                    assert(dec_char(b@.skip(cur as int)) is None);
                    assert(dec_chars(b@.skip(cur as int), (n64 - i) as nat) is None);
                }
                return None;
            },
            Some(c) => {
                proof {
                    char_u32_cast(c, u);
                    assert(dec_char(b@.skip(cur as int)) == Some((c, b@.skip(cur as int + 4))));
                    let ghost m = (n64 - i) as nat;
                    let ghost rem2 = dec_chars(b@.skip(cur as int + 4), (m - 1) as nat);
                    if rem2 is Some {
                        let (t, r2) = rem2->Some_0;
                        assert(dec_chars(b@.skip(cur as int), m) == Some((seq![c] + t, r2)));
                        assert(s@.push(c) + t =~= s@ + (seq![c] + t));
                    }
                }
                push_char(&mut s, c);
                cur = cur + 4;
                i = i + 1;
            },
        }
    }
    proof {
        assert(dec_chars(b@.skip(cur as int), 0) == Some((Seq::<char>::empty(), b@.skip(
            cur as int,
        ))));
        assert(s@ + Seq::<char>::empty() =~= s@);
    }
    Some((s, cur))
}

} // verus!
