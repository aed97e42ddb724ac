//! The structured key-value textual encoding of a schema: an
//! identifier line, then one bracketed section per attribute with each
//! flag on its own line. Decoding rebuilds the schema, deriving ids
//! from the order the sections stand in the text.

use crate::props::SchemaProps;
use crate::schema::{distinct_names, Schema, SchemaBuilder, SchemaView};
use crate::textform::{
    dec_bool, dec_qstr, enc_bool, esc_chars, expect, expect_at, lemma_dec_bool_enc,
    lemma_dec_qstr_esc, lemma_dec_qstr_shrinks, lemma_expect_enc, push_bool, push_escaped,
    read_bool_at, read_qstr_at, str_chars,
};
use crate::wire::push_char;
use vstd::prelude::*;
use vstd::string::StringExecFns;

verus! {

/// The flag lines of a section, from the closing bracket on.
pub open spec fn enc_flags_text(p: SchemaProps) -> Seq<char> {
    "]\ndisplayed = "@ + enc_bool(p.displayed) + "\nindexed = "@ + enc_bool(p.indexed)
        + "\nranked = "@ + enc_bool(p.ranked) + "\n"@
}

/// One attribute section as it stands in the text.
pub open spec fn enc_block_text(name: Seq<char>, p: SchemaProps) -> Seq<char> {
    seq!['['] + "attributes.\""@ + esc_chars(name) + seq!['"'] + enc_flags_text(p)
}

/// The attribute sections in order.
pub open spec fn enc_blocks_text(s: Seq<(Seq<char>, SchemaProps)>) -> Seq<char>
    decreases s.len(),
{
    if s.len() == 0 {
        Seq::empty()
    } else {
        enc_block_text(s[0].0, s[0].1) + enc_blocks_text(s.drop_first())
    }
}

/// The key-value text form of a whole schema.
pub open spec fn spec_encode_text(v: SchemaView) -> Seq<char> {
    "identifier = \""@ + esc_chars(v.identifier) + seq!['"'] + "\n"@ + enc_blocks_text(
        v.attributes,
    )
}

/// Reads one attribute section.
pub open spec fn dec_block_text(b: Seq<char>) -> Option<((Seq<char>, SchemaProps), Seq<char>)> {
    if b.len() > 0 && b[0] == '[' {
        match expect(b.skip(1), "attributes.\""@) {
            None => None,
            Some(r1) => match dec_qstr(r1) {
                None => None,
                Some((name, r2)) => match expect(r2, "]\ndisplayed = "@) {
                    None => None,
                    Some(r3) => match dec_bool(r3) {
                        None => None,
                        Some((d, r4)) => match expect(r4, "\nindexed = "@) {
                            None => None,
                            Some(r5) => match dec_bool(r5) {
                                None => None,
                                Some((ix, r6)) => match expect(r6, "\nranked = "@) {
                                    None => None,
                                    Some(r7) => match dec_bool(r7) {
                                        None => None,
                                        Some((rk, r8)) => match expect(r8, "\n"@) {
                                            None => None,
                                            Some(r9) => Some((
                                                (
                                                    name,
                                                    SchemaProps {
                                                        displayed: d,
                                                        indexed: ix,
                                                        ranked: rk,
                                                    },
                                                ),
                                                r9,
                                            )),
                                        },
                                    },
                                },
                            },
                        },
                    },
                },
            },
        }
    } else {
        None
    }
}

proof fn lemma_dec_block_text_shrinks(b: Seq<char>)
    ensures
        dec_block_text(b) matches Some(pr) ==> pr.1.len() < b.len(),
{
    if b.len() > 0 && b[0] == '[' {
        match expect(b.skip(1), "attributes.\""@) {
            None => {},
            Some(r1) => {
                lemma_dec_qstr_shrinks(r1);
            },
        }
    }
}

/// Reads attribute sections until something other than a section
/// stands next.
pub open spec fn dec_blocks_text(b: Seq<char>) -> Option<
    (Seq<(Seq<char>, SchemaProps)>, Seq<char>),
>
    decreases b.len(),
    via dec_blocks_text_dec
{
    if b.len() > 0 && b[0] == '[' {
        match dec_block_text(b) {
            None => None,
            Some((p, r)) => match dec_blocks_text(r) {
                None => None,
                Some((s, r2)) => Some((seq![p] + s, r2)),
            },
        }
    } else {
        Some((Seq::empty(), b))
    }
}

#[via_fn]
proof fn dec_blocks_text_dec(b: Seq<char>) {
    if b.len() > 0 && b[0] == '[' {
        lemma_dec_block_text_shrinks(b);
    }
}

/// What the key-value text decodes to, when it decodes at all: the
/// identifier line, at most 65536 sections with distinct names, and
/// nothing after them.
pub open spec fn spec_decode_text(b: Seq<char>) -> Option<SchemaView> {
    match expect(b, "identifier = \""@) {
        None => None,
        Some(r1) => match dec_qstr(r1) {
            None => None,
            Some((ident, r2)) => match expect(r2, "\n"@) {
                None => None,
                Some(r3) => match dec_blocks_text(r3) {
                    None => None,
                    Some((attrs, r4)) => if r4.len() == 0 && attrs.len() <= 0x10000
                        && distinct_names(attrs) {
                        Some(SchemaView { identifier: ident, attributes: attrs })
                    } else {
                        None
                    },
                },
            },
        },
    }
}

#[verifier::rlimit(100)]
proof fn lemma_dec_flags_text_enc(p: SchemaProps, rest: Seq<char>)
    ensures
        ({
            let b = enc_flags_text(p) + rest;
            match expect(b, "]\ndisplayed = "@) {
                None => false,
                Some(r3) => match dec_bool(r3) {
                    None => false,
                    Some((d, r4)) => match expect(r4, "\nindexed = "@) {
                        None => false,
                        Some(r5) => match dec_bool(r5) {
                            None => false,
                            Some((ix, r6)) => match expect(r6, "\nranked = "@) {
                                None => false,
                                Some(r7) => match dec_bool(r7) {
                                    None => false,
                                    Some((rk, r8)) => d == p.displayed && ix == p.indexed && rk
                                        == p.ranked && expect(r8, "\n"@) == Some(rest),
                                },
                            },
                        },
                    },
                },
            }
        }),
{
    let t1 = "]\ndisplayed = "@;
    let t2 = "\nindexed = "@;
    let t3 = "\nranked = "@;
    let t4 = "\n"@;
    let b1 = enc_bool(p.displayed);
    let b2 = enc_bool(p.indexed);
    let b3 = enc_bool(p.ranked);
    let s4 = t4 + rest;
    let s3r = b3 + s4;
    let s3 = t3 + s3r;
    let s2i = b2 + s3;
    let s2 = t2 + s2i;
    let s1d = b1 + s2;
    lemma_expect_enc(t4, rest);
    lemma_dec_bool_enc(p.ranked, s4);
    lemma_expect_enc(t3, s3r);
    lemma_dec_bool_enc(p.indexed, s3);
    lemma_expect_enc(t2, s2i);
    lemma_dec_bool_enc(p.displayed, s2);
    lemma_expect_enc(t1, s1d);
    vstd::seq_lib::lemma_concat_associative(t1 + b1 + t2 + b2 + t3 + b3, t4, rest);
    vstd::seq_lib::lemma_concat_associative(t1 + b1 + t2 + b2 + t3, b3, s4);
    vstd::seq_lib::lemma_concat_associative(t1 + b1 + t2 + b2, t3, s3r);
    vstd::seq_lib::lemma_concat_associative(t1 + b1 + t2, b2, s3);
    vstd::seq_lib::lemma_concat_associative(t1 + b1, t2, s2i);
    vstd::seq_lib::lemma_concat_associative(t1, b1, s2);
    assert(enc_flags_text(p) + rest == t1 + s1d);
}

#[verifier::rlimit(100)]
proof fn lemma_dec_block_text_enc(name: Seq<char>, p: SchemaProps, rest: Seq<char>)
    ensures
        dec_block_text(enc_block_text(name, p) + rest) == Some(((name, p), rest)),
{
    let b = enc_block_text(name, p) + rest;
    let br = seq!['['];
    let ta = "attributes.\""@;
    let q = seq!['"'];
    let e = esc_chars(name);
    let s1 = enc_flags_text(p) + rest;
    lemma_dec_flags_text_enc(p, rest);
    lemma_dec_qstr_esc(name, s1);
    vstd::seq_lib::lemma_concat_associative(br + ta + e + q, enc_flags_text(p), rest);
    vstd::seq_lib::lemma_concat_associative(br + ta + e, q, s1);
    vstd::seq_lib::lemma_concat_associative(br + ta, e, q + s1);
    vstd::seq_lib::lemma_concat_associative(br, ta, e + (q + s1));
    assert(b == br + (ta + (e + (q + s1))));
    assert(b[0] == '[');
    assert(b.skip(1) =~= ta + (e + (q + s1)));
    lemma_expect_enc(ta, e + (q + s1));
    vstd::seq_lib::lemma_concat_associative(e, q, s1);
    assert(p == (SchemaProps { displayed: p.displayed, indexed: p.indexed, ranked: p.ranked }));
}

#[verifier::rlimit(100)]
proof fn lemma_dec_blocks_text_enc(s: Seq<(Seq<char>, SchemaProps)>, rest: Seq<char>)
    requires
        rest.len() == 0 || rest[0] != '[',
    ensures
        dec_blocks_text(enc_blocks_text(s) + rest) == Some((s, rest)),
    decreases s.len(),
{
    if s.len() == 0 {
        assert(enc_blocks_text(s) + rest =~= rest);
    } else {
        let tail = enc_blocks_text(s.drop_first()) + rest;
        lemma_dec_blocks_text_enc(s.drop_first(), rest);
        let b = enc_blocks_text(s) + rest;
        assert(b =~= enc_block_text(s[0].0, s[0].1) + tail);
        assert(b[0] == '[');
        lemma_dec_block_text_enc(s[0].0, s[0].1, tail);
        assert(seq![(s[0].0, s[0].1)] + s.drop_first() =~= s);
    }
}

/// Encoding a well-formed schema in the key-value text form and
/// decoding the result reproduces it exactly: identifier, attribute
/// names, per-name props, and declaration order.
#[verifier::rlimit(100)]
pub proof fn lemma_text_round_trip(v: SchemaView)
    requires
        v.wf(),
    ensures
        spec_decode_text(spec_encode_text(v)) == Some(v),
{
    let t0 = "identifier = \""@;
    let tn = "\n"@;
    let b = spec_encode_text(v);
    let r1v = esc_chars(v.identifier) + seq!['"'] + (tn + enc_blocks_text(v.attributes));
    assert(b =~= t0 + r1v);
    lemma_expect_enc(t0, r1v);
    lemma_dec_qstr_esc(v.identifier, tn + enc_blocks_text(v.attributes));
    lemma_expect_enc(tn, enc_blocks_text(v.attributes));
    lemma_dec_blocks_text_enc(v.attributes, Seq::<char>::empty());
    assert(enc_blocks_text(v.attributes) + Seq::<char>::empty() =~= enc_blocks_text(v.attributes));
}

proof fn lemma_enc_blocks_text_app(a: Seq<(Seq<char>, SchemaProps)>, b: Seq<(Seq<char>, SchemaProps)>)
    ensures
        enc_blocks_text(a + b) == enc_blocks_text(a) + enc_blocks_text(b),
    decreases a.len(),
{
    if a.len() == 0 {
        assert(a + b =~= b);
        assert(enc_blocks_text(a) + enc_blocks_text(b) =~= enc_blocks_text(b));
    } else {
        assert((a + b).drop_first() =~= a.drop_first() + b);
        lemma_enc_blocks_text_app(a.drop_first(), b);
        assert((a + b)[0] == a[0]);
        assert(enc_blocks_text(a + b) =~= enc_blocks_text(a) + enc_blocks_text(b));
    }
}

/// Appends one attribute section.
#[verifier::rlimit(100)]
fn push_block_text(out: &mut String, name: &str, p: SchemaProps)
    ensures
        final(out)@ == old(out)@ + enc_block_text(name@, p),
{
    push_char(out, '[');
    out.append("attributes.\"");
    push_escaped(out, name);
    push_char(out, '"');
    out.append("]\ndisplayed = ");
    push_bool(out, p.is_displayed());
    out.append("\nindexed = ");
    push_bool(out, p.is_indexed());
    out.append("\nranked = ");
    push_bool(out, p.is_ranked());
    out.append("\n");
    proof {
        assert(out@ =~= old(out)@ + enc_block_text(name@, p));
    }
}

/// Encodes a schema in the key-value text form.
#[verifier::rlimit(100)]
pub fn encode_text(schema: &Schema) -> (r: String)
    requires
        schema.wf(),
    ensures
        r@ == spec_encode_text(schema@),
{
    let ghost v = schema@;
    let mut out = String::new();
    out.append("identifier = \"");
    push_escaped(&mut out, schema.identifier_name());
    push_char(&mut out, '"');
    out.append("\n");
    let ghost base = out@;
    let entries = schema.iter();
    let n = entries.len();
    let mut i: usize = 0;
    while i < n
        invariant
            v == schema@,
            n == v.attributes.len(),
            entries@.len() == n,
            forall|k: int|
                0 <= k < n ==> entries@[k].0@ == v.attributes[k].0 && entries@[k].2
                    == v.attributes[k].1,
            i <= n,
            out@ == base + enc_blocks_text(v.attributes.take(i as int)),
        decreases n - i,
    {
        push_block_text(&mut out, entries[i].0.as_str(), entries[i].2);
        proof {
            let taken = v.attributes.take(i as int);
            let one = seq![v.attributes[i as int]];
            assert(v.attributes.take(i + 1) =~= taken + one);
            lemma_enc_blocks_text_app(taken, one);
            assert(one.drop_first() =~= Seq::<(Seq<char>, SchemaProps)>::empty());
            assert(enc_blocks_text(Seq::<(Seq<char>, SchemaProps)>::empty()) == Seq::<char>::empty());
            assert(enc_blocks_text(one) =~= enc_block_text(one[0].0, one[0].1));
            assert(out@ =~= base + enc_blocks_text(v.attributes.take(i + 1)));
        }
        i += 1;
    }
    proof {
        assert(v.attributes.take(n as int) =~= v.attributes);
        assert(out@ =~= spec_encode_text(v));
    }
    out
}

/// How an accumulator of already-read sections and the not-yet-read
/// tail together stand for a whole section run being decoded.
pub open spec fn blocks_text_cont(
    full: Option<(Seq<(Seq<char>, SchemaProps)>, Seq<char>)>,
    acc: Seq<(Seq<char>, SchemaProps)>,
    rem: Option<(Seq<(Seq<char>, SchemaProps)>, Seq<char>)>,
) -> bool {
    match rem {
        Some((s, r)) => full == Some((acc + s, r)),
        None => full is None,
    }
}

/// Reads one attribute section at position `p`.
#[verifier::rlimit(100)]
fn read_block_text_at(v: &Vec<char>, p: usize) -> (r: Option<((String, SchemaProps), usize)>)
    requires
        p <= v@.len(),
    ensures
        match r {
            Some(x) => p <= x.1 <= v@.len() && dec_block_text(v@.skip(p as int)) == Some(
                ((x.0.0@, x.0.1), v@.skip(x.1 as int)),
            ),
            None => dec_block_text(v@.skip(p as int)) is None,
        },
{
    let vlen = v.len();
    if p >= vlen {
        proof {
            assert(v@.skip(p as int).len() == 0);
        }
        return None;
    }
    let cb = v[p];
    proof {
        assert(v@.skip(p as int)[0] == cb);
    }
    if cb != '[' {
        return None;
    }
    proof {
        assert(v@.skip(p as int).skip(1) =~= v@.skip(p as int + 1));
    }
    let q1 = match expect_at(v, p + 1, "attributes.\"") {
        None => {
            return None;
        },
        Some(q) => q,
    };
    let (name, q2) = match read_qstr_at(v, q1) {
        None => {
            return None;
        },
        Some(x) => x,
    };
    let q3 = match expect_at(v, q2, "]\ndisplayed = ") {
        None => {
            return None;
        },
        Some(q) => q,
    };
    let (d, q4) = match read_bool_at(v, q3) {
        None => {
            return None;
        },
        Some(x) => x,
    };
    let q5 = match expect_at(v, q4, "\nindexed = ") {
        None => {
            return None;
        },
        Some(q) => q,
    };
    let (ix, q6) = match read_bool_at(v, q5) {
        None => {
            return None;
        },
        Some(x) => x,
    };
    let q7 = match expect_at(v, q6, "\nranked = ") {
        None => {
            return None;
        },
        Some(q) => q,
    };
    let (rk, q8) = match read_bool_at(v, q7) {
        None => {
            return None;
        },
        Some(x) => x,
    };
    let q9 = match expect_at(v, q8, "\n") {
        None => {
            return None;
        },
        Some(q) => q,
    };
    Some(((name, SchemaProps { displayed: d, indexed: ix, ranked: rk }), q9))
}

/// Decodes the key-value text form; nothing comes back exactly when
/// the text is not the encoding of any schema.
#[verifier::rlimit(100)]
pub fn decode_text(text: &str) -> (r: Option<Schema>)
    ensures
        match r {
            Some(s) => s.wf() && spec_decode_text(text@) == Some(s@),
            None => spec_decode_text(text@) is None,
        },
{
    let v = str_chars(text);
    proof {
        assert(v@.skip(0) =~= v@);
    }
    let vlen = v.len();
    let p1 = match expect_at(&v, 0, "identifier = \"") {
        None => {
            return None;
        },
        Some(q) => q,
    };
    let (ident, p2) = match read_qstr_at(&v, p1) {
        None => {
            return None;
        },
        Some(x) => x,
    };
    let p3 = match expect_at(&v, p2, "\n") {
        None => {
            return None;
        },
        Some(q) => q,
    };
    let mut builder = SchemaBuilder::with_identifier(ident.as_str());
    let mut cur: usize = p3;
    loop
        invariant
            v@ == text@,
            p3 <= cur <= vlen == v@.len(),
            p1 <= vlen,
            p2 <= vlen,
            expect(v@, "identifier = \""@) == Some(v@.skip(p1 as int)),
            dec_qstr(v@.skip(p1 as int)) == Some((ident@, v@.skip(p2 as int))),
            expect(v@.skip(p2 as int), "\n"@) == Some(v@.skip(p3 as int)),
            builder@.identifier == ident@,
            builder.wf(),
            builder@.attributes.len() <= 0x10000,
            blocks_text_cont(
                dec_blocks_text(v@.skip(p3 as int)),
                builder@.attributes,
                dec_blocks_text(v@.skip(cur as int)),
            ),
        ensures
            p3 <= cur <= vlen,
            builder@.identifier == ident@,
            builder.wf(),
            builder@.attributes.len() <= 0x10000,
            dec_blocks_text(v@.skip(p3 as int)) == Some(
                (builder@.attributes, v@.skip(cur as int)),
            ),
        decreases vlen - cur,
    {
        if cur < vlen && v[cur] == '[' {
        } else {
            proof {
                if cur < vlen {
                    assert(v@.skip(cur as int)[0] == v@[cur as int]);
                }
                assert(builder@.attributes + Seq::<(Seq<char>, SchemaProps)>::empty()
                    =~= builder@.attributes);
            }
            break ;
        }
        let (np, q9) = match read_block_text_at(&v, cur) {
            None => {
                return None;
            },
            Some(x) => x,
        };
        let (name, props) = np;
        if builder.has_attribute(name.as_str()) {
            proof {
                let acc = builder@.attributes;
                let ghost rem = dec_blocks_text(v@.skip(cur as int));
                assert(v@.skip(cur as int)[0] == v@[cur as int]);
                if rem is Some {
                    let (s, rr) = rem->Some_0;
                    assert(s[0] == (name@, props));
                    let full = acc + s;
                    let w = choose|k: int| 0 <= k < acc.len() && acc[k].0 == name@;
                    assert(full[w].0 == full[acc.len() as int].0);
                    assert(!distinct_names(full));
                }
            }
            return None;
        }
        let len_now = builder.attribute_count();
        if len_now >= 0x10000 {
            proof {
                let acc = builder@.attributes;
                assert(v@.skip(cur as int)[0] == v@[cur as int]);
                let ghost rem = dec_blocks_text(v@.skip(cur as int));
                if rem is Some {
                    let (s, rr) = rem->Some_0;
                    assert((acc + s).len() > 0x10000);
                }
            }
            return None;
        }
        let ghost acc0 = builder@.attributes;
        builder.new_attribute(name.as_str(), props);
        proof {
            assert(v@.skip(cur as int)[0] == v@[cur as int]);
            lemma_dec_block_text_shrinks(v@.skip(cur as int));
            let ghost rem2 = dec_blocks_text(v@.skip(q9 as int));
            if rem2 is Some {
                let (s, rr) = rem2->Some_0;
                assert(dec_blocks_text(v@.skip(cur as int)) == Some((seq![(name@, props)] + s, rr)));
                assert(acc0.push((name@, props)) + s =~= acc0 + (seq![(name@, props)] + s));
            }
        }
        cur = q9;
    }
    if cur != vlen {
        proof {
            assert(v@.skip(cur as int).len() > 0);
        }
        return None;
    }
    proof {
        assert(v@.skip(cur as int).len() == 0);
    }
    let schema = builder.build();
    Some(schema)
}

} // verus!
