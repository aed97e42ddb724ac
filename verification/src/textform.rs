//! Character-level primitives shared by the two textual schema
//! encodings: quoted strings with backslash escaping, booleans, and
//! fixed tokens.

use crate::wire::push_char;
use vstd::prelude::*;
use vstd::string::StrSliceExecFns;

verus! {

/// One character as it stands inside a quoted string: a quote or a
/// backslash is preceded by a backslash.
pub open spec fn esc_one(c: char) -> Seq<char> {
    if c == '"' || c == '\\' {
        seq!['\\', c]
    } else {
        seq![c]
    }
}

/// A string's characters as they stand inside quotes.
pub open spec fn esc_chars(s: Seq<char>) -> Seq<char>
    decreases s.len(),
{
    if s.len() == 0 {
        Seq::empty()
    } else {
        esc_one(s[0]) + esc_chars(s.drop_first())
    }
}

/// Reads the content of a quoted string up to and through its closing
/// quote: a backslash takes the next character literally.
pub open spec fn dec_qstr(b: Seq<char>) -> Option<(Seq<char>, Seq<char>)>
    decreases b.len(),
{
    if b.len() == 0 {
        None
    } else if b[0] == '"' {
        Some((Seq::empty(), b.skip(1)))
    } else if b[0] == '\\' {
        if b.len() >= 2 {
            match dec_qstr(b.skip(2)) {
                None => None,
                Some((s, r)) => Some((seq![b[1]] + s, r)),
            }
        } else {
            None
        }
    } else {
        match dec_qstr(b.skip(1)) {
            None => None,
            Some((s, r)) => Some((seq![b[0]] + s, r)),
        }
    }
}

/// Consumes the given token, or nothing when the text does not start
/// with it.
pub open spec fn expect(b: Seq<char>, t: Seq<char>) -> Option<Seq<char>> {
    if t.len() <= b.len() && b.take(t.len() as int) == t {
        Some(b.skip(t.len() as int))
    } else {
        None
    }
}

pub open spec fn enc_bool(v: bool) -> Seq<char> {
    if v {
        "true"@
    } else {
        "false"@
    }
}

/// Reads a boolean written out in letters.
pub open spec fn dec_bool(b: Seq<char>) -> Option<(bool, Seq<char>)> {
    match expect(b, "true"@) {
        Some(r) => Some((true, r)),
        None => match expect(b, "false"@) {
            Some(r) => Some((false, r)),
            None => None,
        },
    }
}

pub proof fn lemma_esc_app(a: Seq<char>, b: Seq<char>)
    ensures
        esc_chars(a + b) == esc_chars(a) + esc_chars(b),
    decreases a.len(),
{
    if a.len() == 0 {
        assert(a + b =~= b);
        assert(esc_chars(a) + esc_chars(b) =~= esc_chars(b));
    } else {
        assert((a + b).drop_first() =~= a.drop_first() + b);
        lemma_esc_app(a.drop_first(), b);
        assert((a + b)[0] == a[0]);
        assert(esc_chars(a + b) =~= esc_chars(a) + esc_chars(b));
    }
}

pub proof fn lemma_expect_enc(t: Seq<char>, rest: Seq<char>)
    ensures
        expect(t + rest, t) == Some(rest),
{
    assert((t + rest).take(t.len() as int) =~= t);
    assert((t + rest).skip(t.len() as int) =~= rest);
}

/// A quoted string is read back exactly as it was escaped.
pub proof fn lemma_dec_qstr_esc(s: Seq<char>, rest: Seq<char>)
    ensures
        dec_qstr(esc_chars(s) + seq!['"'] + rest) == Some((s, rest)),
    decreases s.len(),
{
    if s.len() == 0 {
        let b = esc_chars(s) + seq!['"'] + rest;
        assert(b =~= seq!['"'] + rest);
        assert(b[0] == '"');
        assert(b.skip(1) =~= rest);
    } else {
        let c = s[0];
        let b = esc_chars(s) + seq!['"'] + rest;
        let tail = esc_chars(s.drop_first()) + seq!['"'] + rest;
        lemma_dec_qstr_esc(s.drop_first(), rest);
        if c == '"' || c == '\\' {
            assert(b =~= seq!['\\', c] + tail);
            assert(b[0] == '\\' && b[1] == c);
            assert(b.skip(2) =~= tail);
            assert(seq![c] + s.drop_first() =~= s);
        } else {
            assert(b =~= seq![c] + tail);
            assert(b[0] == c);
            assert(b.skip(1) =~= tail);
            assert(seq![c] + s.drop_first() =~= s);
        }
    }
}

/// A read quoted string always consumes at least its closing quote.
pub proof fn lemma_dec_qstr_shrinks(b: Seq<char>)
    ensures
        dec_qstr(b) matches Some(p) ==> p.1.len() < b.len(),
    decreases b.len(),
{
    if b.len() == 0 {
    } else if b[0] == '"' {
    } else if b[0] == '\\' {
        if b.len() >= 2 {
            lemma_dec_qstr_shrinks(b.skip(2));
        }
    } else {
        lemma_dec_qstr_shrinks(b.skip(1));
    }
}

/// A boolean is read back exactly as it was written.
pub proof fn lemma_dec_bool_enc(v: bool, rest: Seq<char>)
    ensures
        dec_bool(enc_bool(v) + rest) == Some((v, rest)),
{
    reveal_strlit("true");
    reveal_strlit("false");
    lemma_expect_enc(enc_bool(v), rest);
    if !v {
        let b = "false"@ + rest;
        assert(b[0] == 'f');
        if expect(b, "true"@) is Some {
            assert(b.take(4)[0] == 't');
        }
    }
}

/// The characters of a string, in order.
pub(crate) fn str_chars(s: &str) -> (r: Vec<char>)
    ensures
        r@ == s@,
{
    let n = s.unicode_len();
    let mut out: Vec<char> = Vec::new();
    let mut i: usize = 0;
    while i < n
        invariant
            n == s@.len(),
            i <= n,
            out@ == s@.take(i as int),
        decreases n - i,
    {
        out.push(s.get_char(i));
        proof {
            assert(s@.take(i + 1) =~= s@.take(i as int).push(s@[i as int]));
        }
        i += 1;
    }
    proof {
        assert(s@.take(n as int) =~= s@);
    }
    out
}

/// Appends a string with its quotes-and-backslashes escaped.
pub(crate) fn push_escaped(out: &mut String, s: &str)
    ensures
        final(out)@ == old(out)@ + esc_chars(s@),
{
    let n = s.unicode_len();
    let ghost base = old(out)@;
    let mut i: usize = 0;
    while i < n
        invariant
            n == s@.len(),
            i <= n,
            out@ == base + esc_chars(s@.take(i as int)),
        decreases n - i,
    {
        let c = s.get_char(i);
        if c == '"' || c == '\\' {
            push_char(out, '\\');
        }
        push_char(out, c);
        proof {
            assert(s@.take(i + 1) =~= s@.take(i as int) + seq![c]);
            lemma_esc_app(s@.take(i as int), seq![c]);
            assert(seq![c].drop_first() =~= Seq::<char>::empty());
            assert(esc_chars(Seq::<char>::empty()) == Seq::<char>::empty());
            assert(esc_chars(seq![c]) =~= esc_one(c));
            assert(out@ =~= base + esc_chars(s@.take(i + 1)));
        }
        i += 1;
    }
    proof {
        assert(s@.take(n as int) =~= s@);
    }
}

/// Appends a boolean written out in letters.
pub(crate) fn push_bool(out: &mut String, v: bool)
    ensures
        final(out)@ == old(out)@ + enc_bool(v),
{
    if v {
        out.append("true");
    } else {
        out.append("false");
    }
}

/// Consumes the token `t` at position `p`, or reports that the text
/// there does not start with it.
pub(crate) fn expect_at(v: &Vec<char>, p: usize, t: &str) -> (r: Option<usize>)
    requires
        p <= v@.len(),
    ensures
        match r {
            Some(q) => p <= q <= v@.len() && expect(v@.skip(p as int), t@) == Some(
                v@.skip(q as int),
            ),
            None => expect(v@.skip(p as int), t@) is None,
        },
{
    let tl = t.unicode_len();
    let vlen = v.len();
    if vlen - p < tl {
        return None;
    }
    let mut i: usize = 0;
    while i < tl
        invariant
            tl == t@.len(),
            p + tl <= vlen == v@.len(),
            i <= tl,
            forall|k: int| 0 <= k < i ==> v@[p + k] == t@[k],
        decreases tl - i,
    {
        if v[p + i] != t.get_char(i) {
            proof {
                let b = v@.skip(p as int);
                if expect(b, t@) is Some {
                    assert(b.take(tl as int)[i as int] == t@[i as int]);
                }
            }
            return None;
        }
        i += 1;
    }
    proof {
        let b = v@.skip(p as int);
        assert(b.take(tl as int) =~= t@);
        assert(b.skip(tl as int) =~= v@.skip(p + tl));
    }
    Some(p + tl)
}

/// Reads a boolean written out in letters at position `p`.
pub(crate) fn read_bool_at(v: &Vec<char>, p: usize) -> (r: Option<(bool, usize)>)
    requires
        p <= v@.len(),
    ensures
        match r {
            Some(bq) => p <= bq.1 <= v@.len() && dec_bool(v@.skip(p as int)) == Some(
                (bq.0, v@.skip(bq.1 as int)),
            ),
            None => dec_bool(v@.skip(p as int)) is None,
        },
{
    match expect_at(v, p, "true") {
        Some(q) => Some((true, q)),
        None => match expect_at(v, p, "false") {
            Some(q) => Some((false, q)),
            None => None,
        },
    }
}

/// How an accumulator and the not-yet-read tail together stand for a
/// whole quoted string being read.
pub open spec fn qstr_cont(
    full: Option<(Seq<char>, Seq<char>)>,
    acc: Seq<char>,
    rem: Option<(Seq<char>, Seq<char>)>,
) -> bool {
    match rem {
        Some((s, r)) => full == Some((acc + s, r)),
        None => full is None,
    }
}

/// Reads a quoted string's content at position `p`, through its
/// closing quote.
pub(crate) fn read_qstr_at(v: &Vec<char>, p: usize) -> (r: Option<(String, usize)>)
    requires
        p <= v@.len(),
    ensures
        match r {
            Some(sq) => p <= sq.1 <= v@.len() && dec_qstr(v@.skip(p as int)) == Some(
                (sq.0@, v@.skip(sq.1 as int)),
            ),
            None => dec_qstr(v@.skip(p as int)) is None,
        },
{
    let vlen = v.len();
    let mut acc = String::new();
    let mut cur: usize = p;
    while cur < vlen
        invariant
            p <= cur <= vlen == v@.len(),
            qstr_cont(dec_qstr(v@.skip(p as int)), acc@, dec_qstr(v@.skip(cur as int))),
        decreases vlen - cur,
    {
        let c = v[cur];
        proof {
            assert(v@.skip(cur as int)[0] == c);
        }
        if c == '"' {
            proof {
                assert(v@.skip(cur as int).skip(1) =~= v@.skip(cur as int + 1));
                assert(acc@ + Seq::<char>::empty() =~= acc@);
            }
            return Some((acc, cur + 1));
        }
        if c == '\\' {
            if cur + 1 >= vlen {
                proof {
                    assert(v@.skip(cur as int).len() < 2);
                }
                return None;
            }
            let c2 = v[cur + 1];
            proof {
                assert(v@.skip(cur as int)[1] == c2);
                assert(v@.skip(cur as int).skip(2) =~= v@.skip(cur as int + 2));
                let ghost rem2 = dec_qstr(v@.skip(cur as int + 2));
                if rem2 is Some {
                    let (s, r) = rem2->Some_0;
                    assert(dec_qstr(v@.skip(cur as int)) == Some((seq![c2] + s, r)));
                    assert(acc@.push(c2) + s =~= acc@ + (seq![c2] + s));
                }
            }
            push_char(&mut acc, c2);
            cur = cur + 2;
        } else {
            proof {
                assert(v@.skip(cur as int).skip(1) =~= v@.skip(cur as int + 1));
                let ghost rem2 = dec_qstr(v@.skip(cur as int + 1));
                if rem2 is Some {
                    let (s, r) = rem2->Some_0;
                    assert(dec_qstr(v@.skip(cur as int)) == Some((seq![c] + s, r)));
                    assert(acc@.push(c) + s =~= acc@ + (seq![c] + s));
                }
            }
            push_char(&mut acc, c);
            cur = cur + 1;
        }
    }
    proof {
        assert(v@.skip(cur as int).len() == 0);
    }
    None
}

} // verus!
