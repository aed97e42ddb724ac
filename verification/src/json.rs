//! The JSON-like textual encoding of a schema: one object with the
//! identifier and an attributes object, every flag written out, no
//! whitespace. Decoding rebuilds the schema, deriving ids from the
//! order the attributes stand in the text.

use crate::props::SchemaProps;
use crate::schema::{distinct_names, Schema, SchemaBuilder, SchemaView};
use crate::textform::{
    dec_bool, dec_qstr, enc_bool, esc_chars, expect, expect_at, lemma_dec_bool_enc,
    lemma_dec_qstr_esc, lemma_dec_qstr_shrinks, lemma_expect_enc, push_bool, push_escaped,
    read_bool_at, read_qstr_at, str_chars,
};
use crate::wire::push_char;
use vstd::prelude::*;
use vstd::string::StringExecFns;

verus! {

/// One attribute as it stands in the text.
pub open spec fn enc_block(name: Seq<char>, p: SchemaProps) -> Seq<char> {
    seq!['"'] + esc_chars(name) + seq!['"'] + enc_flags(p)
}

/// The attribute blocks in order, comma-separated.
pub open spec fn enc_blocks(s: Seq<(Seq<char>, SchemaProps)>, first: bool) -> Seq<char>
    decreases s.len(),
{
    if s.len() == 0 {
        Seq::empty()
    } else {
        (if first {
            Seq::<char>::empty()
        } else {
            seq![',']
        }) + enc_block(s[0].0, s[0].1) + enc_blocks(s.drop_first(), false)
    }
}

/// The JSON-like form of a whole schema.
pub open spec fn spec_encode_json(v: SchemaView) -> Seq<char> {
    "{\"identifier\":\""@ + esc_chars(v.identifier) + seq!['"'] + ",\"attributes\":{"@
        + enc_blocks(v.attributes, true) + "}}"@
}

/// Reads one attribute block.
pub open spec fn dec_block(b: Seq<char>) -> Option<((Seq<char>, SchemaProps), Seq<char>)> {
    if b.len() > 0 && b[0] == '"' {
        match dec_qstr(b.skip(1)) {
            None => None,
            Some((name, r2)) => match expect(r2, ":{\"displayed\":"@) {
                None => None,
                Some(r3) => match dec_bool(r3) {
                    None => None,
                    Some((d, r4)) => match expect(r4, ",\"indexed\":"@) {
                        None => None,
                        Some(r5) => match dec_bool(r5) {
                            None => None,
                            Some((ix, r6)) => match expect(r6, ",\"ranked\":"@) {
                                None => None,
                                Some(r7) => match dec_bool(r7) {
                                    None => None,
                                    Some((rk, r8)) => match expect(r8, "}"@) {
                                        None => None,
                                        Some(r9) => Some((
                                            (
                                                name,
                                                SchemaProps {
                                                    displayed: d,
                                                    indexed: ix,
                                                    ranked: rk,
                                                },
                                            ),
                                            r9,
                                        )),
                                    },
                                },
                            },
                        },
                    },
                },
            },
        }
    } else {
        None
    }
}

proof fn lemma_dec_block_shrinks(b: Seq<char>)
    ensures
        dec_block(b) matches Some(pr) ==> pr.1.len() < b.len(),
{
    if b.len() > 0 && b[0] == '"' {
        lemma_dec_qstr_shrinks(b.skip(1));
    }
}

/// Reads the attribute blocks until something other than a block (or,
/// after the first, other than a comma and a block) stands next.
pub open spec fn dec_blocks(b: Seq<char>, first: bool) -> Option<
    (Seq<(Seq<char>, SchemaProps)>, Seq<char>),
>
    decreases b.len(),
    via dec_blocks_dec
{
    if first {
        if b.len() > 0 && b[0] == '"' {
            match dec_block(b) {
                None => None,
                Some((p, r)) => match dec_blocks(r, false) {
                    None => None,
                    Some((s, r2)) => Some((seq![p] + s, r2)),
                },
            }
        } else {
            Some((Seq::empty(), b))
        }
    } else {
        if b.len() > 0 && b[0] == ',' {
            match dec_block(b.skip(1)) {
                None => None,
                Some((p, r)) => match dec_blocks(r, false) {
                    None => None,
                    Some((s, r2)) => Some((seq![p] + s, r2)),
                },
            }
        } else {
            Some((Seq::empty(), b))
        }
    }
}

#[via_fn]
proof fn dec_blocks_dec(b: Seq<char>, first: bool) {
    if first {
        if b.len() > 0 && b[0] == '"' {
            lemma_dec_block_shrinks(b);
        }
    } else {
        if b.len() > 0 && b[0] == ',' {
            lemma_dec_block_shrinks(b.skip(1));
        }
    }
}

/// What the JSON-like text decodes to, when it decodes at all: the
/// identifier, at most 65536 attribute blocks with distinct names, and
/// nothing after the closing braces.
pub open spec fn spec_decode_json(b: Seq<char>) -> Option<SchemaView> {
    match expect(b, "{\"identifier\":\""@) {
        None => None,
        Some(r1) => match dec_qstr(r1) {
            None => None,
            Some((ident, r2)) => match expect(r2, ",\"attributes\":{"@) {
                None => None,
                Some(r3) => match dec_blocks(r3, true) {
                    None => None,
                    Some((attrs, r4)) => match expect(r4, "}}"@) {
                        None => None,
                        Some(r5) => if r5.len() == 0 && attrs.len() <= 0x10000 && distinct_names(
                            attrs,
                        ) {
                            Some(SchemaView { identifier: ident, attributes: attrs })
                        } else {
                            None
                        },
                    },
                },
            },
        },
    }
}

/// The flag part of a block, from the colon after the name on.
pub open spec fn enc_flags(p: SchemaProps) -> Seq<char> {
    ":{\"displayed\":"@ + enc_bool(p.displayed) + ",\"indexed\":"@ + enc_bool(p.indexed)
        + ",\"ranked\":"@ + enc_bool(p.ranked) + "}"@
}

#[verifier::rlimit(100)]
proof fn lemma_dec_flags_enc(p: SchemaProps, rest: Seq<char>)
    ensures
        ({
            let b = enc_flags(p) + rest;
            match expect(b, ":{\"displayed\":"@) {
                None => false,
                Some(r3) => match dec_bool(r3) {
                    None => false,
                    Some((d, r4)) => match expect(r4, ",\"indexed\":"@) {
                        None => false,
                        Some(r5) => match dec_bool(r5) {
                            None => false,
                            Some((ix, r6)) => match expect(r6, ",\"ranked\":"@) {
                                None => false,
                                Some(r7) => match dec_bool(r7) {
                                    None => false,
                                    Some((rk, r8)) => d == p.displayed && ix == p.indexed && rk
                                        == p.ranked && expect(r8, "}"@) == Some(rest),
                                },
                            },
                        },
                    },
                },
            }
        }),
{
    let t1 = ":{\"displayed\":"@;
    let t2 = ",\"indexed\":"@;
    let t3 = ",\"ranked\":"@;
    let t4 = "}"@;
    let b1 = enc_bool(p.displayed);
    let b2 = enc_bool(p.indexed);
    let b3 = enc_bool(p.ranked);
    let s4 = t4 + rest;
    let s3r = b3 + s4;
    let s3 = t3 + s3r;
    let s2i = b2 + s3;
    let s2 = t2 + s2i;
    let s1d = b1 + s2;
    lemma_expect_enc(t4, rest);
    lemma_dec_bool_enc(p.ranked, s4);
    lemma_expect_enc(t3, s3r);
    lemma_dec_bool_enc(p.indexed, s3);
    lemma_expect_enc(t2, s2i);
    lemma_dec_bool_enc(p.displayed, s2);
    lemma_expect_enc(t1, s1d);
    vstd::seq_lib::lemma_concat_associative(t1 + b1 + t2 + b2 + t3 + b3, t4, rest);
    vstd::seq_lib::lemma_concat_associative(t1 + b1 + t2 + b2 + t3, b3, s4);
    vstd::seq_lib::lemma_concat_associative(t1 + b1 + t2 + b2, t3, s3r);
    vstd::seq_lib::lemma_concat_associative(t1 + b1 + t2, b2, s3);
    vstd::seq_lib::lemma_concat_associative(t1 + b1, t2, s2i);
    vstd::seq_lib::lemma_concat_associative(t1, b1, s2);
    assert(enc_flags(p) + rest == t1 + s1d);
}

#[verifier::rlimit(100)]
proof fn lemma_dec_block_enc(name: Seq<char>, p: SchemaProps, rest: Seq<char>)
    ensures
        dec_block(enc_block(name, p) + rest) == Some(((name, p), rest)),
{
    let b = enc_block(name, p) + rest;
    let q = seq!['"'];
    let e = esc_chars(name);
    let s1 = enc_flags(p) + rest;
    lemma_dec_flags_enc(p, rest);
    lemma_dec_qstr_esc(name, s1);
    vstd::seq_lib::lemma_concat_associative(q + e + q, enc_flags(p), rest);
    vstd::seq_lib::lemma_concat_associative(q + e, q, s1);
    vstd::seq_lib::lemma_concat_associative(q, e, q + s1);
    assert(b == q + (e + (q + s1)));
    assert(b[0] == '"');
    assert(b.skip(1) =~= e + (q + s1));
    vstd::seq_lib::lemma_concat_associative(e, q, s1);
    assert(p == (SchemaProps { displayed: p.displayed, indexed: p.indexed, ranked: p.ranked }));
}

#[verifier::rlimit(100)]
proof fn lemma_dec_blocks_enc(s: Seq<(Seq<char>, SchemaProps)>, first: bool, rest: Seq<char>)
    requires
        rest.len() > 0,
        rest[0] != '"',
        rest[0] != ',',
    ensures
        dec_blocks(enc_blocks(s, first) + rest, first) == Some((s, rest)),
    decreases s.len(),
{
    if s.len() == 0 {
        assert(enc_blocks(s, first) + rest =~= rest);
    } else {
        let tail = enc_blocks(s.drop_first(), false) + rest;
        lemma_dec_blocks_enc(s.drop_first(), false, rest);
        if first {
            let b = enc_blocks(s, first) + rest;
            assert(b =~= enc_block(s[0].0, s[0].1) + tail);
            assert(b[0] == '"');
            lemma_dec_block_enc(s[0].0, s[0].1, tail);
            assert(seq![(s[0].0, s[0].1)] + s.drop_first() =~= s);
        } else {
            let b = enc_blocks(s, first) + rest;
            assert(b =~= seq![','] + (enc_block(s[0].0, s[0].1) + tail));
            assert(b[0] == ',');
            assert(b.skip(1) =~= enc_block(s[0].0, s[0].1) + tail);
            lemma_dec_block_enc(s[0].0, s[0].1, tail);
            assert(seq![(s[0].0, s[0].1)] + s.drop_first() =~= s);
        }
    }
}

/// Encoding a well-formed schema in the JSON-like form and decoding
/// the result reproduces it exactly: identifier, attribute names,
/// per-name props, and declaration order.
#[verifier::rlimit(100)]
pub proof fn lemma_json_round_trip(v: SchemaView)
    requires
        v.wf(),
    ensures
        spec_decode_json(spec_encode_json(v)) == Some(v),
{
    reveal_strlit("}}");
    let t0 = "{\"identifier\":\""@;
    let tm = ",\"attributes\":{"@;
    let te = "}}"@;
    assert(te[0] == '}');
    let b = spec_encode_json(v);
    let r1v = esc_chars(v.identifier) + seq!['"'] + (tm + (enc_blocks(v.attributes, true) + te));
    assert(b =~= t0 + r1v);
    lemma_expect_enc(t0, r1v);
    lemma_dec_qstr_esc(v.identifier, tm + (enc_blocks(v.attributes, true) + te));
    lemma_expect_enc(tm, enc_blocks(v.attributes, true) + te);
    lemma_dec_blocks_enc(v.attributes, true, te);
    lemma_expect_enc(te, Seq::<char>::empty());
    assert(te + Seq::<char>::empty() =~= te);
}

proof fn lemma_enc_blocks_app(
    a: Seq<(Seq<char>, SchemaProps)>,
    b: Seq<(Seq<char>, SchemaProps)>,
    first: bool,
)
    ensures
        enc_blocks(a + b, first) == enc_blocks(a, first) + enc_blocks(
            b,
            if a.len() == 0 {
                first
            } else {
                false
            },
        ),
    decreases a.len(),
{
    if a.len() == 0 {
        assert(a + b =~= b);
        assert(enc_blocks(a, first) + enc_blocks(b, first) =~= enc_blocks(b, first));
    } else {
        assert((a + b).drop_first() =~= a.drop_first() + b);
        lemma_enc_blocks_app(a.drop_first(), b, false);
        assert((a + b)[0] == a[0]);
        assert(enc_blocks(a + b, first) =~= enc_blocks(a, first) + enc_blocks(
            b,
            if a.len() == 0 {
                first
            } else {
                false
            },
        ));
    }
}

/// Appends one attribute block.
#[verifier::rlimit(100)]
fn push_block(out: &mut String, name: &str, p: SchemaProps)
    ensures
        final(out)@ == old(out)@ + enc_block(name@, p),
{
    push_char(out, '"');
    push_escaped(out, name);
    push_char(out, '"');
    out.append(":{\"displayed\":");
    push_bool(out, p.is_displayed());
    out.append(",\"indexed\":");
    push_bool(out, p.is_indexed());
    out.append(",\"ranked\":");
    push_bool(out, p.is_ranked());
    out.append("}");
    proof {
        assert(out@ =~= old(out)@ + enc_block(name@, p));
    }
}

/// Encodes a schema in the JSON-like form.
#[verifier::rlimit(100)]
pub fn encode_json(schema: &Schema) -> (r: String)
    requires
        schema.wf(),
    ensures
        r@ == spec_encode_json(schema@),
{
    let ghost v = schema@;
    let mut out = String::new();
    out.append("{\"identifier\":\"");
    push_escaped(&mut out, schema.identifier_name());
    push_char(&mut out, '"');
    out.append(",\"attributes\":{");
    let ghost base = out@;
    let entries = schema.iter();
    let n = entries.len();
    let mut i: usize = 0;
    while i < n
        invariant
            v == schema@,
            n == v.attributes.len(),
            entries@.len() == n,
            forall|k: int|
                0 <= k < n ==> entries@[k].0@ == v.attributes[k].0 && entries@[k].2
                    == v.attributes[k].1,
            i <= n,
            out@ == base + enc_blocks(v.attributes.take(i as int), true),
        decreases n - i,
    {
        if i > 0 {
            push_char(&mut out, ',');
        }
        push_block(&mut out, entries[i].0.as_str(), entries[i].2);
        proof {
            let taken = v.attributes.take(i as int);
            let one = seq![v.attributes[i as int]];
            assert(v.attributes.take(i + 1) =~= taken + one);
            lemma_enc_blocks_app(taken, one, true);
            assert(one.drop_first() =~= Seq::<(Seq<char>, SchemaProps)>::empty());
            assert(enc_blocks(Seq::<(Seq<char>, SchemaProps)>::empty(), false)
                == Seq::<char>::empty());
            if i == 0 {
                assert(enc_blocks(one, true) =~= enc_block(one[0].0, one[0].1));
                assert(out@ =~= base + enc_blocks(v.attributes.take(i + 1), true));
            } else {
                assert(enc_blocks(one, false) =~= seq![','] + enc_block(one[0].0, one[0].1));
                assert(out@ =~= base + enc_blocks(v.attributes.take(i + 1), true));
            }
        }
        i += 1;
    }
    out.append("}}");
    proof {
        assert(v.attributes.take(n as int) =~= v.attributes);
        assert(out@ =~= spec_encode_json(v));
    }
    out
}

/// How an accumulator of already-read blocks and the not-yet-read tail
/// together stand for a whole block run being decoded.
pub open spec fn blocks_cont(
    full: Option<(Seq<(Seq<char>, SchemaProps)>, Seq<char>)>,
    acc: Seq<(Seq<char>, SchemaProps)>,
    rem: Option<(Seq<(Seq<char>, SchemaProps)>, Seq<char>)>,
) -> bool {
    match rem {
        Some((s, r)) => full == Some((acc + s, r)),
        None => full is None,
    }
}

/// Reads one attribute block at position `p`.
#[verifier::rlimit(100)]
fn read_block_at(v: &Vec<char>, p: usize) -> (r: Option<((String, SchemaProps), usize)>)
    requires
        p <= v@.len(),
    ensures
        match r {
            Some(x) => p <= x.1 <= v@.len() && dec_block(v@.skip(p as int)) == Some(
                ((x.0.0@, x.0.1), v@.skip(x.1 as int)),
            ),
            None => dec_block(v@.skip(p as int)) is None,
        },
{
    let vlen = v.len();
    if p >= vlen {
        proof {
            assert(v@.skip(p as int).len() == 0);
        }
        return None;
    }
    let cq = v[p];
    proof {
        assert(v@.skip(p as int)[0] == cq);
    }
    if cq != '"' {
        return None;
    }
    proof {
        assert(v@.skip(p as int).skip(1) =~= v@.skip(p as int + 1));
    }
    let (name, q2) = match read_qstr_at(v, p + 1) {
        None => {
            return None;
        },
        Some(x) => x,
    };
    let q3 = match expect_at(v, q2, ":{\"displayed\":") {
        None => {
            return None;
        },
        Some(q) => q,
    };
    let (d, q4) = match read_bool_at(v, q3) {
        None => {
            return None;
        },
        Some(x) => x,
    };
    let q5 = match expect_at(v, q4, ",\"indexed\":") {
        None => {
            return None;
        },
        Some(q) => q,
    };
    let (ix, q6) = match read_bool_at(v, q5) {
        None => {
            return None;
        },
        Some(x) => x,
    };
    let q7 = match expect_at(v, q6, ",\"ranked\":") {
        None => {
            return None;
        },
        Some(q) => q,
    };
    let (rk, q8) = match read_bool_at(v, q7) {
        None => {
            return None;
        },
        Some(x) => x,
    };
    let q9 = match expect_at(v, q8, "}") {
        None => {
            return None;
        },
        Some(q) => q,
    };
    Some(((name, SchemaProps { displayed: d, indexed: ix, ranked: rk }), q9))
}

/// Decodes the JSON-like form; nothing comes back exactly when the
/// text is not the encoding of any schema.
#[verifier::rlimit(100)]
pub fn decode_json(text: &str) -> (r: Option<Schema>)
    ensures
        match r {
            Some(s) => s.wf() && spec_decode_json(text@) == Some(s@),
            None => spec_decode_json(text@) is None,
        },
{
    let v = str_chars(text);
    proof {
        assert(v@.skip(0) =~= v@);
    }
    let vlen = v.len();
    let p1 = match expect_at(&v, 0, "{\"identifier\":\"") {
        None => {
            return None;
        },
        Some(q) => q,
    };
    let (ident, p2) = match read_qstr_at(&v, p1) {
        None => {
            return None;
        },
        Some(x) => x,
    };
    let p3 = match expect_at(&v, p2, ",\"attributes\":{") {
        None => {
            return None;
        },
        Some(q) => q,
    };
    let mut builder = SchemaBuilder::with_identifier(ident.as_str());
    let mut cur: usize = p3;
    let mut first: bool = true;
    loop
        invariant
            v@ == text@,
            p3 <= cur <= vlen == v@.len(),
            p1 <= vlen,
            p2 <= vlen,
            expect(v@, "{\"identifier\":\""@) == Some(v@.skip(p1 as int)),
            dec_qstr(v@.skip(p1 as int)) == Some((ident@, v@.skip(p2 as int))),
            expect(v@.skip(p2 as int), ",\"attributes\":{"@) == Some(v@.skip(p3 as int)),
            builder@.identifier == ident@,
            builder.wf(),
            builder@.attributes.len() <= 0x10000,
            blocks_cont(
                dec_blocks(v@.skip(p3 as int), true),
                builder@.attributes,
                dec_blocks(v@.skip(cur as int), first),
            ),
        ensures
            p3 <= cur <= vlen,
            builder@.identifier == ident@,
            builder.wf(),
            builder@.attributes.len() <= 0x10000,
            dec_blocks(v@.skip(p3 as int), true) == Some((builder@.attributes, v@.skip(cur as int))),
        decreases vlen - cur,
    {
        let block_start: usize;
        if first {
            if cur < vlen && v[cur] == '"' {
                block_start = cur;
            } else {
                proof {
                    if cur < vlen {
                        assert(v@.skip(cur as int)[0] == v@[cur as int]);
                    }
                    assert(builder@.attributes + Seq::<(Seq<char>, SchemaProps)>::empty()
                        =~= builder@.attributes);
                }
                break ;
            }
        } else {
            if cur < vlen && v[cur] == ',' {
                block_start = cur + 1;
            } else {
                proof {
                    if cur < vlen {
                        assert(v@.skip(cur as int)[0] == v@[cur as int]);
                    }
                    assert(builder@.attributes + Seq::<(Seq<char>, SchemaProps)>::empty()
                        =~= builder@.attributes);
                }
                break ;
            }
        }
        proof {
            assert(v@.skip(cur as int)[0] == v@[cur as int]);
            if !first {
                assert(v@.skip(cur as int).skip(1) =~= v@.skip(block_start as int));
            }
        }
        let (np, q9) = match read_block_at(&v, block_start) {
            None => {
                return None;
            },
            Some(x) => x,
        };
        let (name, props) = np;
        if builder.has_attribute(name.as_str()) {
            proof {
                let acc = builder@.attributes;
                let ghost rem = dec_blocks(v@.skip(cur as int), first);
                if rem is Some {
                    let (s, rr) = rem->Some_0;
                    assert(s[0] == (name@, props));
                    let full = acc + s;
                    let w = choose|k: int| 0 <= k < acc.len() && acc[k].0 == name@;
                    assert(full[w].0 == full[acc.len() as int].0);
                    assert(!distinct_names(full));
                }
            }
            return None;
        }
        let len_now = builder.attribute_count();
        if len_now >= 0x10000 {
            proof {
                let acc = builder@.attributes;
                let ghost rem = dec_blocks(v@.skip(cur as int), first);
                if rem is Some {
                    let (s, rr) = rem->Some_0;
                    assert((acc + s).len() > 0x10000);
                }
            }
            return None;
        }
        let ghost acc0 = builder@.attributes;
        builder.new_attribute(name.as_str(), props);
        proof {
            lemma_dec_block_shrinks(v@.skip(block_start as int));
            let ghost rem2 = dec_blocks(v@.skip(q9 as int), false);
            if rem2 is Some {
                let (s, rr) = rem2->Some_0;
                assert(dec_blocks(v@.skip(cur as int), first) == Some((seq![(name@, props)] + s, rr)));
                assert(acc0.push((name@, props)) + s =~= acc0 + (seq![(name@, props)] + s));
            }
        }
        cur = q9;
        first = false;
    }
    let p4 = match expect_at(&v, cur, "}}") {
        None => {
            return None;
        },
        Some(q) => q,
    };
    if p4 != vlen {
        proof {
            assert(v@.skip(p4 as int).len() > 0);
        }
        return None;
    }
    proof {
        assert(v@.skip(p4 as int).len() == 0);
        assert(v@.skip(p4 as int) =~= Seq::<char>::empty());
    }
    let schema = builder.build();
    Some(schema)
}

} // verus!
