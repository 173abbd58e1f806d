//! What the header mutation guarantees, proved once and for all documents.

use vstd::prelude::*;

use crate::json::{lit_true, wf, wf_text, JsonV};
use crate::mutate::{
    escaped, get_member, headers_key, marker_value, mutate_doc, mutate_headers, secret_key,
    set_member, transform_key,
};

verus! {

/// The headers member's object, where the document is an object and holds one.
pub open spec fn doc_headers(v: JsonV) -> Option<Seq<(Seq<u8>, JsonV)>> {
    match v {
        JsonV::Object(ms) => match get_member(ms, headers_key()) {
            Some(JsonV::Object(hs)) => Some(hs),
            _ => None,
        },
        _ => None,
    }
}

/// The three header names are pairwise distinct.
pub proof fn lemma_keys_distinct()
    ensures
        headers_key() != transform_key(),
        headers_key() != secret_key(),
        transform_key() != secret_key(),
{
    assert(headers_key().len() == 7 && transform_key().len() == 16 && secret_key().len() == 13);
}

pub proof fn lemma_get_after_set_same(ms: Seq<(Seq<u8>, JsonV)>, key: Seq<u8>, val: JsonV)
    ensures
        get_member(set_member(ms, key, val), key) == Some(val),
    decreases ms.len(),
{
    if ms.len() == 0 {
    } else if ms[0].0 == key {
        assert((seq![(key, val)] + ms.skip(1))[0] == (key, val));
    } else {
        lemma_get_after_set_same(ms.skip(1), key, val);
        let r = seq![ms[0]] + set_member(ms.skip(1), key, val);
        assert(r[0] == ms[0]);
        assert(r.skip(1) =~= set_member(ms.skip(1), key, val));
    }
}

pub proof fn lemma_get_after_set_other(
    ms: Seq<(Seq<u8>, JsonV)>,
    key: Seq<u8>,
    val: JsonV,
    key2: Seq<u8>,
)
    requires
        key2 != key,
    ensures
        get_member(set_member(ms, key, val), key2) == get_member(ms, key2),
    decreases ms.len(),
{
    if ms.len() == 0 {
        assert(seq![(key, val)][0] == (key, val));
        assert(seq![(key, val)].skip(1) =~= Seq::<(Seq<u8>, JsonV)>::empty());
        assert(get_member(Seq::<(Seq<u8>, JsonV)>::empty(), key2) is None);
    } else if ms[0].0 == key {
        let r = seq![(key, val)] + ms.skip(1);
        assert(r[0] == (key, val));
        assert(r.skip(1) =~= ms.skip(1));
        assert(get_member(set_member(ms, key, val), key2) == get_member(ms.skip(1), key2));
        assert(get_member(ms, key2) == get_member(ms.skip(1), key2));
    } else {
        lemma_get_after_set_other(ms.skip(1), key, val, key2);
        let r = seq![ms[0]] + set_member(ms.skip(1), key, val);
        assert(r[0] == ms[0]);
        assert(r.skip(1) =~= set_member(ms.skip(1), key, val));
    }
}

/// Setting a key to the value it already holds changes nothing.
pub proof fn lemma_set_noop(ms: Seq<(Seq<u8>, JsonV)>, key: Seq<u8>, val: JsonV)
    requires
        get_member(ms, key) == Some(val),
    ensures
        set_member(ms, key, val) == ms,
    decreases ms.len(),
{
    if ms.len() == 0 {
    } else if ms[0].0 == key {
        assert(ms[0] == (key, val));
        assert(seq![(key, val)] + ms.skip(1) =~= ms);
    } else {
        lemma_set_noop(ms.skip(1), key, val);
        assert(seq![ms[0]] + ms.skip(1) =~= ms);
    }
}

/// Setting a well-formed member into a well-formed list keeps it well formed.
pub proof fn lemma_set_member_wf(ms: Seq<(Seq<u8>, JsonV)>, key: Seq<u8>, val: JsonV)
    requires
        forall|t: int| 0 <= t < ms.len() ==> wf_text((#[trigger] ms[t]).0) && wf(ms[t].1),
        wf_text(key),
        wf(val),
    ensures
        forall|t: int|
            0 <= t < set_member(ms, key, val).len() ==> wf_text(
                (#[trigger] set_member(ms, key, val)[t]).0,
            ) && wf(set_member(ms, key, val)[t].1),
    decreases ms.len(),
{
    let r = set_member(ms, key, val);
    if ms.len() == 0 {
        assert(r[0] == (key, val));
    } else if ms[0].0 == key {
        assert forall|t: int| 0 <= t < r.len() implies wf_text((#[trigger] r[t]).0) && wf(
            r[t].1,
        ) by {
            if t == 0 {
                assert(r[t] == (key, val));
            } else {
                assert(r[t] == ms[t]);
            }
        }
    } else {
        assert(forall|t: int|
            0 <= t < ms.skip(1).len() ==> wf_text((#[trigger] ms.skip(1)[t]).0) && wf(
                ms.skip(1)[t].1,
            ));
        lemma_set_member_wf(ms.skip(1), key, val);
        let rr = set_member(ms.skip(1), key, val);
        assert forall|t: int| 0 <= t < r.len() implies wf_text((#[trigger] r[t]).0) && wf(
            r[t].1,
        ) by {
            if t == 0 {
                assert(r[t] == ms[0]);
            } else {
                assert(r[t] == rr[t - 1]);
            }
        }
    }
}

/// A value found in a well-formed member list is well formed.
pub proof fn lemma_get_member_wf(ms: Seq<(Seq<u8>, JsonV)>, key: Seq<u8>)
    requires
        forall|t: int| 0 <= t < ms.len() ==> wf_text((#[trigger] ms[t]).0) && wf(ms[t].1),
    ensures
        get_member(ms, key) matches Some(u) ==> wf(u),
    decreases ms.len(),
{
    if ms.len() > 0 && ms[0].0 != key {
        assert(forall|t: int|
            0 <= t < ms.skip(1).len() ==> wf_text((#[trigger] ms.skip(1)[t]).0) && wf(
                ms.skip(1)[t].1,
            ));
        lemma_get_member_wf(ms.skip(1), key);
    }
}

/// The three header names and the marker are well formed.
pub proof fn lemma_keys_wf()
    ensures
        wf_text(headers_key()),
        wf_text(transform_key()),
        wf_text(secret_key()),
        wf_text(lit_true()),
{
    reveal_with_fuel(wf_text, 18);
}

/// A document with a headers object carries the marker after the transform:
/// `headers["x-wasm-transform"]` is the JSON string `"true"`.
pub proof fn lemma_marker_set(v: JsonV, hs: Seq<(Seq<u8>, JsonV)>, secret: Option<Seq<u8>>)
    requires
        doc_headers(v) == Some(hs),
    ensures
        doc_headers(mutate_doc(v, secret)) == Some(mutate_headers(hs, secret)),
        get_member(mutate_headers(hs, secret), transform_key()) == Some(marker_value()),
{
    let ms = v->Object_0;
    let hs2 = mutate_headers(hs, secret);
    lemma_get_after_set_same(ms, headers_key(), JsonV::Object(hs2));
    lemma_keys_distinct();
    lemma_get_after_set_same(hs, transform_key(), marker_value());
    match secret {
        Some(sv) => {
            lemma_get_after_set_other(
                set_member(hs, transform_key(), marker_value()),
                secret_key(),
                JsonV::Text(escaped(sv)),
                transform_key(),
            );
        },
        None => {},
    }
}

/// A document without a headers object passes through unchanged.
pub proof fn lemma_no_headers_unchanged(v: JsonV, secret: Option<Seq<u8>>)
    requires
        doc_headers(v) is None,
    ensures
        mutate_doc(v, secret) == v,
{
    match v {
        JsonV::Object(ms) => {
            match get_member(ms, headers_key()) {
                Some(u) => {
                    match u {
                        JsonV::Object(_) => {
                            assert(false);
                        },
                        _ => {},
                    }
                },
                None => {},
            }
        },
        _ => {},
    }
}

/// With a secret, `headers["x-wasm-secret"]` holds exactly its escaped value;
/// without one, that header stands exactly as it did before.
pub proof fn lemma_secret_header(v: JsonV, hs: Seq<(Seq<u8>, JsonV)>, secret: Option<Seq<u8>>)
    requires
        doc_headers(v) == Some(hs),
    ensures
        secret matches Some(sv) ==> get_member(mutate_headers(hs, secret), secret_key()) == Some(
            JsonV::Text(escaped(sv)),
        ),
        secret is None ==> get_member(mutate_headers(hs, secret), secret_key()) == get_member(
            hs,
            secret_key(),
        ),
{
    lemma_keys_distinct();
    match secret {
        Some(sv) => {
            lemma_get_after_set_same(
                set_member(hs, transform_key(), marker_value()),
                secret_key(),
                JsonV::Text(escaped(sv)),
            );
        },
        None => {
            lemma_get_after_set_other(hs, transform_key(), marker_value(), secret_key());
        },
    }
}

/// The mutation is idempotent on the document value.
pub proof fn lemma_mutate_idempotent(v: JsonV, secret: Option<Seq<u8>>)
    ensures
        mutate_doc(mutate_doc(v, secret), secret) == mutate_doc(v, secret),
{
    if doc_headers(v) is Some {
        let ms = v->Object_0;
        let hs = doc_headers(v)->Some_0;
        let hs2 = mutate_headers(hs, secret);
        let m1 = mutate_doc(v, secret);
        lemma_marker_set(v, hs, secret);
        // The marker is already in place, so setting it again changes nothing.
        lemma_set_noop(hs2, transform_key(), marker_value());
        match secret {
            Some(sv) => {
                lemma_secret_header(v, hs, secret);
                lemma_set_noop(hs2, secret_key(), JsonV::Text(escaped(sv)));
            },
            None => {},
        }
        assert(mutate_headers(hs2, secret) == hs2);
        // The headers member already holds the mutated object.
        let ms2 = m1->Object_0;
        lemma_set_noop(ms2, headers_key(), JsonV::Object(hs2));
    } else {
        lemma_no_headers_unchanged(v, secret);
        lemma_no_headers_unchanged(mutate_doc(v, secret), secret);
    }
}

/// The mutation keeps the document well formed.
pub proof fn lemma_mutate_wf(v: JsonV, secret: Option<Seq<u8>>)
    requires
        wf(v),
    ensures
        wf(mutate_doc(v, secret)),
{
    lemma_keys_wf();
    if doc_headers(v) is Some {
        let ms = v->Object_0;
        let hs = doc_headers(v)->Some_0;
        lemma_get_member_wf(ms, headers_key());
        assert(wf(JsonV::Object(hs)));
        lemma_set_member_wf(hs, transform_key(), marker_value());
        let marked = set_member(hs, transform_key(), marker_value());
        match secret {
            Some(sv) => {
                crate::mutate::lemma_escaped_wf(sv);
                lemma_set_member_wf(marked, secret_key(), JsonV::Text(escaped(sv)));
            },
            None => {},
        }
        let hs2 = mutate_headers(hs, secret);
        assert(wf(JsonV::Object(hs2)));
        lemma_set_member_wf(ms, headers_key(), JsonV::Object(hs2));
        assert(wf(JsonV::Object(set_member(ms, headers_key(), JsonV::Object(hs2)))));
    } else {
        lemma_no_headers_unchanged(v, secret);
    }
}

} // verus!
