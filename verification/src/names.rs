//! The wire form of the durable index-name set: a count, then each
//! name, length-prefixed. This record, stored under the reserved key,
//! is the source of truth for which indexes exist.

use crate::schema::str_eq;
use crate::wire::{
    dec_str, dec_u64, enc_str, le_bytes, lemma_dec_str_enc, lemma_dec_u64_enc, pow256,
    push_str_wire, push_u64_le, read_str_wire, read_u64_le,
};
use vstd::prelude::*;

verus! {

/// No two names of the list are the same.
pub open spec fn distinct_list(s: Seq<Seq<char>>) -> bool {
    forall|i: int, j: int| 0 <= i < j < s.len() ==> s[i] != s[j]
}

pub open spec fn enc_names(s: Seq<Seq<char>>) -> Seq<u8>
    decreases s.len(),
{
    if s.len() == 0 {
        Seq::empty()
    } else {
        enc_str(s[0]) + enc_names(s.drop_first())
    }
}

/// The wire form of the whole name set.
pub open spec fn spec_encode_names(s: Seq<Seq<char>>) -> Seq<u8> {
    le_bytes(s.len() as int, 8) + enc_names(s)
}

/// Reads exactly `n` names.
pub open spec fn dec_names(b: Seq<u8>, n: nat) -> Option<(Seq<Seq<char>>, Seq<u8>)>
    decreases n,
{
    if n == 0 {
        Some((Seq::empty(), b))
    } else {
        match dec_str(b) {
            None => None,
            Some((s, r)) => match dec_names(r, (n - 1) as nat) {
                None => None,
                Some((rest, r2)) => Some((seq![s] + rest, r2)),
            },
        }
    }
}

/// What the name-set record decodes to, when it decodes at all: a
/// count, that many distinct names, and nothing after them.
pub open spec fn spec_decode_names(b: Seq<u8>) -> Option<Seq<Seq<char>>> {
    match dec_u64(b) {
        None => None,
        Some((n, r)) => match dec_names(r, n as nat) {
            None => None,
            Some((names, r2)) => if r2.len() == 0 && names.len() == n && distinct_list(names) {
                Some(names)
            } else {
                None
            },
        },
    }
}

proof fn lemma_enc_names_app(a: Seq<Seq<char>>, b: Seq<Seq<char>>)
    ensures
        enc_names(a + b) == enc_names(a) + enc_names(b),
    decreases a.len(),
{
    if a.len() == 0 {
        assert(a + b =~= b);
        assert(enc_names(a) + enc_names(b) =~= enc_names(b));
    } else {
        assert((a + b).drop_first() =~= a.drop_first() + b);
        lemma_enc_names_app(a.drop_first(), b);
        assert((a + b)[0] == a[0]);
        assert(enc_names(a + b) =~= enc_names(a) + enc_names(b));
    }
}

proof fn lemma_dec_names_enc(s: Seq<Seq<char>>, rest: Seq<u8>)
    requires
        forall|i: int| 0 <= i < s.len() ==> s[i].len() < pow256(8),
    ensures
        dec_names(enc_names(s) + rest, s.len()) == Some((s, rest)),
    decreases s.len(),
{
    if s.len() == 0 {
        assert(enc_names(s) + rest =~= rest);
    } else {
        let tail = enc_names(s.drop_first()) + rest;
        assert(enc_names(s) + rest =~= enc_str(s[0]) + tail);
        lemma_dec_str_enc(s[0], tail);
        lemma_dec_names_enc(s.drop_first(), rest);
        assert(seq![s[0]] + s.drop_first() =~= s);
    }
}

/// Encoding the name set and decoding the result reproduces it, names
/// and order alike.
pub proof fn lemma_names_round_trip(s: Seq<Seq<char>>)
    requires
        distinct_list(s),
        s.len() < pow256(8),
        forall|i: int| 0 <= i < s.len() ==> s[i].len() < pow256(8),
    ensures
        spec_decode_names(spec_encode_names(s)) == Some(s),
{
    assert(spec_encode_names(s) =~= le_bytes(s.len() as int, 8) + (enc_names(s)
        + Seq::<u8>::empty()));
    lemma_dec_u64_enc(s.len() as int, enc_names(s) + Seq::<u8>::empty());
    lemma_dec_names_enc(s, Seq::<u8>::empty());
}

/// Whether the list holds the given name.
pub fn contains_str(names: &Vec<String>, name: &str) -> (r: bool)
    ensures
        r == names.deep_view().contains(name@),
{
    let n = names.len();
    let mut i: usize = 0;
    while i < n
        invariant
            n == names@.len(),
            i <= n,
            forall|k: int| 0 <= k < i ==> names.deep_view()[k] != name@,
        decreases n - i,
    {
        if str_eq(names[i].as_str(), name) {
            proof {
                assert(names.deep_view()[i as int] == name@);
            }
            return true;
        }
        i += 1;
    }
    false
}

/// Adds a name to a distinct name list when it is absent; every name
/// already present stays where it was, so the rewrite that follows
/// loses no earlier registration.
pub fn insert_name(names: &mut Vec<String>, name: &str)
    requires
        distinct_list(old(names).deep_view()),
    ensures
        final(names).deep_view() == (if old(names).deep_view().contains(name@) {
            old(names).deep_view()
        } else {
            old(names).deep_view().push(name@)
        }),
        distinct_list(final(names).deep_view()),
{
    if !contains_str(names, name) {
        let ghost dv0 = names.deep_view();
        names.push(name.to_owned());
        proof {
            assert(names.deep_view() =~= dv0.push(name@));
            assert forall|a: int, b: int|
                0 <= a < b < dv0.push(name@).len() implies dv0.push(name@)[a] != dv0.push(
                name@,
            )[b] by {
                if b < dv0.len() {
                    assert(dv0[a] != dv0[b]);
                } else {
                    assert(!dv0.contains(name@));
                    assert(dv0.push(name@)[a] == dv0[a]);
                    assert(dv0.contains(dv0[a]));
                }
            }
        }
    }
}

/// Encodes the name set.
pub fn encode_names(names: &Vec<String>) -> (r: Vec<u8>)
    ensures
        r@ == spec_encode_names(names.deep_view()),
{
    let ghost dv = names.deep_view();
    let mut out: Vec<u8> = Vec::new();
    let n = names.len();
    proof {
        assert(dv.len() == names@.len());
    }
    push_u64_le(&mut out, n as u64);
    let ghost base = out@;
    let mut i: usize = 0;
    while i < n
        invariant
            dv == names.deep_view(),
            n == names@.len(),
            dv.len() == n,
            i <= n,
            out@ == base + enc_names(dv.take(i as int)),
        decreases n - i,
    {
        push_str_wire(&mut out, names[i].as_str());
        proof {
            let taken = dv.take(i as int);
            let one = seq![dv[i as int]];
            assert(dv.take(i + 1) =~= taken + one);
            lemma_enc_names_app(taken, one);
            assert(one.drop_first() =~= Seq::<Seq<char>>::empty());
            assert(enc_names(Seq::<Seq<char>>::empty()) == Seq::<u8>::empty());
            assert(enc_names(one) =~= enc_str(one[0]));
            assert(names[i as int]@ == dv[i as int]);
            assert(out@ =~= base + enc_names(dv.take(i + 1)));
        }
        i += 1;
    }
    proof {
        assert(dv.take(n as int) =~= dv);
    }
    out
}

/// How an accumulator of already-read names and the not-yet-read tail
/// together stand for a whole name run being decoded.
pub open spec fn names_cont(
    full: Option<(Seq<Seq<char>>, Seq<u8>)>,
    acc: Seq<Seq<char>>,
    rem: Option<(Seq<Seq<char>>, Seq<u8>)>,
) -> bool {
    match rem {
        Some((s, r)) => full == Some((acc + s, r)),
        None => full is None,
    }
}

/// Decodes a name-set record; nothing comes back exactly when the
/// bytes are not the encoding of any distinct name set.
pub fn decode_names(bytes: &Vec<u8>) -> (r: Option<Vec<String>>)
    ensures
        match r {
            Some(v) => spec_decode_names(bytes@) == Some(v.deep_view()) && distinct_list(
                v.deep_view(),
            ),
            None => spec_decode_names(bytes@) is None,
        },
{
    let blen = bytes.len();
    if blen < 8 {
        return None;
    }
    let n64 = read_u64_le(bytes, 0);
    proof {
        assert(bytes@.take(8) =~= bytes@.subrange(0, 8));
    }
    let mut acc: Vec<String> = Vec::new();
    let mut cur: usize = 8;
    let mut i: u64 = 0;
    while i < n64
        invariant
            blen == bytes@.len() <= usize::MAX,
            8 <= cur <= blen,
            i <= n64,
            acc.deep_view().len() == i,
            dec_u64(bytes@) == Some((n64 as int, bytes@.skip(8))),
            distinct_list(acc.deep_view()),
            names_cont(
                dec_names(bytes@.skip(8), n64 as nat),
                acc.deep_view(),
                dec_names(bytes@.skip(cur as int), (n64 - i) as nat),
            ),
        decreases n64 - i,
    {
        let (name, q) = match read_str_wire(bytes, cur) {
            None => {
                return None;
            },
            Some(x) => x,
        };
        if contains_str(&acc, name.as_str()) {
            proof {
                let av = acc.deep_view();
                let ghost rem = dec_names(bytes@.skip(cur as int), (n64 - i) as nat);
                if rem is Some {
                    let (s, r2) = rem->Some_0;
                    assert(s[0] == name@);
                    let full = av + s;
                    let w = choose|k: int| 0 <= k < av.len() && av[k] == name@;
                    assert(full[w] == full[av.len() as int]);
                    assert(!distinct_list(full));
                }
            }
            return None;
        }
        let ghost av0 = acc.deep_view();
        acc.push(name);
        proof {
            assert(acc.deep_view() =~= av0.push(name@));
            let ghost m = (n64 - i) as nat;
            let ghost rem2 = dec_names(bytes@.skip(q as int), (m - 1) as nat);
            if rem2 is Some {
                let (s, r2) = rem2->Some_0;
                assert(dec_names(bytes@.skip(cur as int), m) == Some((seq![name@] + s, r2)));
                assert(av0.push(name@) + s =~= av0 + (seq![name@] + s));
            }
            assert forall|a: int, b: int| 0 <= a < b < av0.push(name@).len() implies av0.push(
                name@,
            )[a] != av0.push(name@)[b] by {
                if b < av0.len() {
                    assert(av0[a] != av0[b]);
                } else {
                    assert(!av0.contains(name@));
                    assert(av0.push(name@)[a] == av0[a]);
                    assert(av0.contains(av0[a]));
                }
            }
        }
        cur = q;
        i = i + 1;
    }
    if cur != blen {
        proof {
            assert(dec_names(bytes@.skip(cur as int), 0) == Some((
                Seq::<Seq<char>>::empty(),
                bytes@.skip(cur as int),
            )));
            assert(acc.deep_view() + Seq::<Seq<char>>::empty() =~= acc.deep_view());
            assert(bytes@.skip(cur as int).len() > 0);
        }
        return None;
    }
    proof {
        assert(dec_names(bytes@.skip(cur as int), 0) == Some((
            Seq::<Seq<char>>::empty(),
            bytes@.skip(cur as int),
        )));
        assert(acc.deep_view() + Seq::<Seq<char>>::empty() =~= acc.deep_view());
        assert(bytes@.skip(cur as int).len() == 0);
    }
    Some(acc)
}

} // verus!
