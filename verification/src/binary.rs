//! The compact binary encoding of a schema: its builder shape — the
//! identifier, then the (name, props) pairs in declaration order — on the
//! wire. Decoding rebuilds the schema, deriving ids from the encoded
//! order.

use crate::props::SchemaProps;
use crate::schema::{distinct_names, Schema, SchemaBuilder, SchemaView};
use crate::wire::{
    dec_str, dec_u64, enc_str, le_bytes, lemma_dec_str_enc, lemma_dec_u64_enc, pow256,
    push_str_wire, push_u64_le, read_str_wire, read_u64_le,
};
use vstd::prelude::*;

verus! {

/// One byte describing props: displayed adds 1, indexed 2, ranked 4.
pub open spec fn props_byte(p: SchemaProps) -> u8 {
    ((if p.displayed {
        1int
    } else {
        0int
    }) + (if p.indexed {
        2int
    } else {
        0int
    }) + (if p.ranked {
        4int
    } else {
        0int
    })) as u8
}

/// The props a byte describes.
pub open spec fn props_of_byte(b: u8) -> SchemaProps {
    SchemaProps { displayed: b % 2 == 1, indexed: (b / 2) % 2 == 1, ranked: (b / 4) % 2 == 1 }
}

proof fn lemma_props_byte_round(p: SchemaProps)
    ensures
        props_byte(p) < 8,
        props_of_byte(props_byte(p)) == p,
{
}

/// The wire form of the ordered (name, props) pairs.
pub open spec fn enc_attrs(s: Seq<(Seq<char>, SchemaProps)>) -> Seq<u8>
    decreases s.len(),
{
    if s.len() == 0 {
        Seq::empty()
    } else {
        enc_str(s[0].0) + seq![props_byte(s[0].1)] + enc_attrs(s.drop_first())
    }
}

/// The compact binary form of a whole schema.
pub open spec fn spec_encode_binary(v: SchemaView) -> Seq<u8> {
    enc_str(v.identifier) + le_bytes(v.attributes.len() as int, 8) + enc_attrs(v.attributes)
}

/// Reads one props byte.
pub open spec fn dec_props(b: Seq<u8>) -> Option<(SchemaProps, Seq<u8>)> {
    if b.len() >= 1 && b[0] < 8 {
        Some((props_of_byte(b[0]), b.skip(1)))
    } else {
        None
    }
}

/// Reads exactly `n` (name, props) pairs.
pub open spec fn dec_attrs(b: Seq<u8>, n: nat) -> Option<
    (Seq<(Seq<char>, SchemaProps)>, Seq<u8>),
>
    decreases n,
{
    if n == 0 {
        Some((Seq::empty(), b))
    } else {
        match dec_str(b) {
            None => None,
            Some((name, r)) => match dec_props(r) {
                None => None,
                Some((p, r2)) => match dec_attrs(r2, (n - 1) as nat) {
                    None => None,
                    Some((s, r3)) => Some((seq![(name, p)] + s, r3)),
                },
            },
        }
    }
}

/// What the compact binary bytes decode to, when they decode at all:
/// the identifier, a count of at most 65536, that many pairs with
/// distinct names, and nothing after them.
pub open spec fn spec_decode_binary(b: Seq<u8>) -> Option<SchemaView> {
    match dec_str(b) {
        None => None,
        Some((ident, r)) => match dec_u64(r) {
            None => None,
            Some((n, r2)) => if n > 0x10000 {
                None
            } else {
                match dec_attrs(r2, n as nat) {
                    None => None,
                    Some((attrs, r3)) => if r3.len() == 0 && attrs.len() == n && distinct_names(
                        attrs,
                    ) {
                        Some(SchemaView { identifier: ident, attributes: attrs })
                    } else {
                        None
                    },
                }
            },
        },
    }
}

/// Whether every string of the view fits its 8-byte length prefix; true
/// of any schema a machine holds.
pub open spec fn encodable(v: SchemaView) -> bool {
    &&& v.identifier.len() < pow256(8)
    &&& forall|i: int| 0 <= i < v.attributes.len() ==> v.attributes[i].0.len() < pow256(8)
}

proof fn lemma_dec_attrs_enc(s: Seq<(Seq<char>, SchemaProps)>, rest: Seq<u8>)
    requires
        forall|i: int| 0 <= i < s.len() ==> s[i].0.len() < pow256(8),
    ensures
        dec_attrs(enc_attrs(s) + rest, s.len()) == Some((s, rest)),
    decreases s.len(),
{
    if s.len() == 0 {
        assert(enc_attrs(s) + rest =~= rest);
    } else {
        let tail = enc_attrs(s.drop_first()) + rest;
        let mid = seq![props_byte(s[0].1)] + tail;
        assert(enc_attrs(s) + rest =~= enc_str(s[0].0) + mid);
        lemma_dec_str_enc(s[0].0, mid);
        lemma_props_byte_round(s[0].1);
        assert(mid[0] == props_byte(s[0].1));
        assert(mid.skip(1) =~= tail);
        lemma_dec_attrs_enc(s.drop_first(), rest);
        assert(seq![s[0]] + s.drop_first() =~= s);
        assert(seq![(s[0].0, s[0].1)] =~= seq![s[0]]);
    }
}

/// Encoding a well-formed schema in the compact binary form and
/// decoding the result reproduces it exactly: identifier, attribute
/// names, per-name props, and declaration order.
pub proof fn lemma_binary_round_trip(v: SchemaView)
    requires
        v.wf(),
        encodable(v),
    ensures
        spec_decode_binary(spec_encode_binary(v)) == Some(v),
{
    let n = v.attributes.len() as int;
    let tail = le_bytes(n, 8) + enc_attrs(v.attributes);
    assert(spec_encode_binary(v) =~= enc_str(v.identifier) + tail);
    lemma_dec_str_enc(v.identifier, tail);
    assert(tail =~= le_bytes(n, 8) + enc_attrs(v.attributes));
    assert(pow256(8) > 0x10000) by {
        reveal_with_fuel(pow256, 9);
    }
    lemma_dec_u64_enc(n, enc_attrs(v.attributes));
    lemma_dec_attrs_enc(v.attributes, Seq::<u8>::empty());
    assert(enc_attrs(v.attributes) + Seq::<u8>::empty() =~= enc_attrs(v.attributes));
}

proof fn lemma_enc_attrs_app(a: Seq<(Seq<char>, SchemaProps)>, b: Seq<(Seq<char>, SchemaProps)>)
    ensures
        enc_attrs(a + b) == enc_attrs(a) + enc_attrs(b),
    decreases a.len(),
{
    if a.len() == 0 {
        assert(a + b =~= b);
        assert(enc_attrs(a) + enc_attrs(b) =~= enc_attrs(b));
    } else {
        assert((a + b).drop_first() =~= a.drop_first() + b);
        lemma_enc_attrs_app(a.drop_first(), b);
        assert((a + b)[0] == a[0]);
        assert(enc_attrs(a + b) =~= enc_attrs(a) + enc_attrs(b));
    }
}

/// Encodes a schema in the compact binary form.
pub fn encode_binary(schema: &Schema) -> (r: Vec<u8>)
    requires
        schema.wf(),
    ensures
        r@ == spec_encode_binary(schema@),
        encodable(schema@),
{
    let ghost v = schema@;
    let mut out: Vec<u8> = Vec::new();
    push_str_wire(&mut out, schema.identifier_name());
    let entries = schema.iter();
    let n = entries.len();
    push_u64_le(&mut out, n as u64);
    let ghost base = out@;
    let mut i: usize = 0;
    while i < n
        invariant
            v == schema@,
            n == v.attributes.len(),
            entries@.len() == n,
            forall|k: int|
                0 <= k < n ==> entries@[k].0@ == v.attributes[k].0 && entries@[k].2
                    == v.attributes[k].1,
            i <= n,
            out@ == base + enc_attrs(v.attributes.take(i as int)),
            forall|k: int| 0 <= k < i ==> v.attributes[k].0.len() < pow256(8),
        decreases n - i,
    {
        let ghost before = out@;
        push_str_wire(&mut out, entries[i].0.as_str());
        let p = entries[i].2;
        let byte: u8 = (if p.is_displayed() {
            1u8
        } else {
            0u8
        }) + (if p.is_indexed() {
            2u8
        } else {
            0u8
        }) + (if p.is_ranked() {
            4u8
        } else {
            0u8
        });
        out.push(byte);
        proof {
            assert(byte == props_byte(v.attributes[i as int].1));
            let taken = v.attributes.take(i as int);
            let one = seq![v.attributes[i as int]];
            assert(v.attributes.take(i + 1) =~= taken + one);
            lemma_enc_attrs_app(taken, one);
            assert(one.drop_first() =~= Seq::<(Seq<char>, SchemaProps)>::empty());
            assert(enc_attrs(Seq::<(Seq<char>, SchemaProps)>::empty()) == Seq::<u8>::empty());
            assert(enc_attrs(one) =~= enc_str(one[0].0) + seq![props_byte(one[0].1)]);
            assert(out@ =~= base + enc_attrs(v.attributes.take(i + 1)));
        }
        i += 1;
    }
    proof {
        assert(v.attributes.take(n as int) =~= v.attributes);
    }
    out
}

/// How an accumulator of already-read pairs and the not-yet-read tail
/// together stand for a whole pair run being decoded.
pub open spec fn attrs_cont(
    full: Option<(Seq<(Seq<char>, SchemaProps)>, Seq<u8>)>,
    acc: Seq<(Seq<char>, SchemaProps)>,
    rem: Option<(Seq<(Seq<char>, SchemaProps)>, Seq<u8>)>,
) -> bool {
    match rem {
        Some((s, r)) => full == Some((acc + s, r)),
        None => full is None,
    }
}

/// Decodes the compact binary form; nothing comes back exactly when the
/// bytes are not the encoding of any schema.
pub fn decode_binary(bytes: &Vec<u8>) -> (r: Option<Schema>)
    ensures
        match r {
            Some(s) => s.wf() && spec_decode_binary(bytes@) == Some(s@),
            None => spec_decode_binary(bytes@) is None,
        },
{
    proof {
        assert(bytes@.skip(0) =~= bytes@);
    }
    let blen = bytes.len();
    let (ident, p1) = match read_str_wire(bytes, 0) {
        None => {
            return None;
        },
        Some(x) => x,
    };
    if blen - p1 < 8 {
        return None;
    }
    let n64 = read_u64_le(bytes, p1);
    let p2 = p1 + 8;
    proof {
        assert(bytes@.skip(p1 as int).take(8) =~= bytes@.subrange(p1 as int, p1 as int + 8));
        assert(bytes@.skip(p1 as int).skip(8) =~= bytes@.skip(p2 as int));
    }
    if n64 > 0x10000 {
        return None;
    }
    let n = n64 as usize;
    let mut builder = SchemaBuilder::with_identifier(ident.as_str());
    let mut cur: usize = p2;
    let mut i: usize = 0;
    while i < n
        invariant
            blen == bytes@.len() <= usize::MAX,
            p2 <= cur <= blen,
            i <= n <= 0x10000,
            n == n64,
            builder@.identifier == ident@,
            builder.wf(),
            builder@.attributes.len() == i,
            dec_str(bytes@) == Some((ident@, bytes@.skip(p1 as int))),
            dec_u64(bytes@.skip(p1 as int)) == Some((n as int, bytes@.skip(p2 as int))),
            attrs_cont(
                dec_attrs(bytes@.skip(p2 as int), n as nat),
                builder@.attributes,
                dec_attrs(bytes@.skip(cur as int), (n - i) as nat),
            ),
        decreases n - i,
    {
        let (name, q) = match read_str_wire(bytes, cur) {
            None => {
                return None;
            },
            Some(x) => x,
        };
        if blen - q < 1 {
            proof {
                assert(bytes@.skip(q as int).len() == 0);
            }
            return None;
        }
        let pb = bytes[q];
        proof {
            assert(bytes@.skip(q as int)[0] == bytes@[q as int]);
        }
        if pb >= 8 {
            return None;
        }
        let props = SchemaProps {
            displayed: pb % 2 == 1,
            indexed: (pb / 2) % 2 == 1,
            ranked: (pb / 4) % 2 == 1,
        };
        proof {
            assert(props == props_of_byte(pb));
            assert(bytes@.skip(q as int).skip(1) =~= bytes@.skip(q as int + 1));
        }
        if builder.has_attribute(name.as_str()) {
            proof {
                let acc = builder@.attributes;
                let ghost rem = dec_attrs(bytes@.skip(cur as int), (n - i) as nat);
                if rem is Some {
                    let (s, r3) = rem->Some_0;
                    assert(s[0] == (name@, props));
                    let full = acc + s;
                    let w = choose|k: int| 0 <= k < acc.len() && acc[k].0 == name@;
                    assert(full[w].0 == full[acc.len() as int].0);
                    assert(!distinct_names(full));
                }
            }
            return None;
        }
        let ghost acc0 = builder@.attributes;
        builder.new_attribute(name.as_str(), props);
        proof {
            let ghost m = (n - i) as nat;
            let ghost rem2 = dec_attrs(bytes@.skip(q as int + 1), (m - 1) as nat);
            if rem2 is Some {
                let (s, r3) = rem2->Some_0;
                assert(dec_attrs(bytes@.skip(cur as int), m) == Some((seq![(name@, props)] + s, r3)));
                assert(acc0.push((name@, props)) + s =~= acc0 + (seq![(name@, props)] + s));
            }
        }
        cur = q + 1;
        i += 1;
    }
    if cur != blen {
        proof {
            assert(dec_attrs(bytes@.skip(cur as int), 0) == Some((
                Seq::<(Seq<char>, SchemaProps)>::empty(),
                bytes@.skip(cur as int),
            )));
            assert(builder@.attributes + Seq::<(Seq<char>, SchemaProps)>::empty()
                =~= builder@.attributes);
            assert(bytes@.skip(cur as int).len() > 0);
        }
        return None;
    }
    proof {
        assert(dec_attrs(bytes@.skip(cur as int), 0) == Some((
            Seq::<(Seq<char>, SchemaProps)>::empty(),
            bytes@.skip(cur as int),
        )));
        assert(builder@.attributes + Seq::<(Seq<char>, SchemaProps)>::empty()
            =~= builder@.attributes);
        assert(bytes@.skip(cur as int).len() == 0);
    }
    let schema = builder.build();
    Some(schema)
}

} // verus!
