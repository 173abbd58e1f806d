//! The header mutation.
//!
//! A document whose top level is an object with a `headers` object gets the
//! marker header `x-wasm-transform: "true"` set on it (insert or overwrite,
//! at the first occurrence's place), and, when a secret is configured, the
//! header `x-wasm-secret` with the secret's value, escaped as JSON demands.
//! Any other document passes through unchanged.

use vstd::prelude::*;

use crate::json::{
    lemma_model_members, lit_true, model_members, wf_text, Json, JsonV, BACKSLASH, DIGIT_0, LET_A,
    LET_C, LET_D, LET_E, LET_F, LET_H, LET_M, LET_N, LET_O, LET_R, LET_S, LET_T, LET_U, LET_W,
    LET_X, MINUS, QUOTE,
};

verus! {

// ---------------------------------------------------------------------------
// The three header names and the marker value.
// ---------------------------------------------------------------------------

/// `headers`
pub open spec fn headers_key() -> Seq<u8> {
    seq![LET_H, LET_E, LET_A, LET_D, LET_E, LET_R, LET_S]
}

/// `x-wasm-transform`
pub open spec fn transform_key() -> Seq<u8> {
    seq![
        LET_X,
        MINUS,
        LET_W,
        LET_A,
        LET_S,
        LET_M,
        MINUS,
        LET_T,
        LET_R,
        LET_A,
        LET_N,
        LET_S,
        LET_F,
        LET_O,
        LET_R,
        LET_M,
    ]
}

/// `x-wasm-secret`
pub open spec fn secret_key() -> Seq<u8> {
    seq![
        LET_X,
        MINUS,
        LET_W,
        LET_A,
        LET_S,
        LET_M,
        MINUS,
        LET_S,
        LET_E,
        LET_C,
        LET_R,
        LET_E,
        LET_T,
    ]
}

/// The marker's value: the JSON string `"true"`.
pub open spec fn marker_value() -> JsonV {
    JsonV::Text(lit_true())
}

pub fn headers_key_x() -> (r: Vec<u8>)
    ensures
        r@ == headers_key(),
{
    let mut v: Vec<u8> = Vec::new();
    v.push(LET_H);
    v.push(LET_E);
    v.push(LET_A);
    v.push(LET_D);
    v.push(LET_E);
    v.push(LET_R);
    v.push(LET_S);
    proof {
        assert(v@ =~= headers_key());
    }
    v
}

pub fn transform_key_x() -> (r: Vec<u8>)
    ensures
        r@ == transform_key(),
{
    let mut v: Vec<u8> = Vec::new();
    v.push(LET_X);
    v.push(MINUS);
    v.push(LET_W);
    v.push(LET_A);
    v.push(LET_S);
    v.push(LET_M);
    v.push(MINUS);
    v.push(LET_T);
    v.push(LET_R);
    v.push(LET_A);
    v.push(LET_N);
    v.push(LET_S);
    v.push(LET_F);
    v.push(LET_O);
    v.push(LET_R);
    v.push(LET_M);
    proof {
        assert(v@ =~= transform_key());
    }
    v
}

pub fn secret_key_x() -> (r: Vec<u8>)
    ensures
        r@ == secret_key(),
{
    let mut v: Vec<u8> = Vec::new();
    v.push(LET_X);
    v.push(MINUS);
    v.push(LET_W);
    v.push(LET_A);
    v.push(LET_S);
    v.push(LET_M);
    v.push(MINUS);
    v.push(LET_S);
    v.push(LET_E);
    v.push(LET_C);
    v.push(LET_R);
    v.push(LET_E);
    v.push(LET_T);
    proof {
        assert(v@ =~= secret_key());
    }
    v
}

fn marker_value_x() -> (r: Json)
    ensures
        r.model() == marker_value(),
{
    let mut v: Vec<u8> = Vec::new();
    v.push(LET_T);
    v.push(LET_R);
    v.push(LET_U);
    v.push(LET_E);
    proof {
        assert(v@ =~= lit_true());
    }
    Json::Text(v)
}

// ---------------------------------------------------------------------------
// Escaping a plain byte string into raw JSON string content.
// ---------------------------------------------------------------------------

/// The lower hex digit for `n < 16`.
pub open spec fn hex_digit(n: u8) -> u8 {
    if n < 10 {
        (DIGIT_0 + n) as u8
    } else {
        (LET_A + n - 10) as u8
    }
}

/// How one byte stands inside a JSON string: quotes and backslashes are
/// escaped, control bytes written as `\u00..`, the rest kept as it is.
pub open spec fn escape_byte(b: u8) -> Seq<u8> {
    if b == QUOTE || b == BACKSLASH {
        seq![BACKSLASH, b]
    } else if b < 0x20 {
        seq![BACKSLASH, LET_U, DIGIT_0, DIGIT_0, hex_digit(b / 16), hex_digit(b % 16)]
    } else {
        seq![b]
    }
}

/// A plain byte string as raw JSON string content.
pub open spec fn escaped(s: Seq<u8>) -> Seq<u8>
    decreases s.len(),
{
    if s.len() == 0 {
        Seq::empty()
    } else {
        escape_byte(s[0]) + escaped(s.skip(1))
    }
}

/// Escaping always yields well-formed string content.
pub proof fn lemma_escaped_wf(s: Seq<u8>)
    ensures
        wf_text(escaped(s)),
    decreases s.len(),
{
    if s.len() > 0 {
        lemma_escaped_wf(s.skip(1));
        let r = escaped(s);
        let b = s[0];
        if b == QUOTE || b == BACKSLASH {
            assert(r.skip(2) =~= escaped(s.skip(1)));
        } else if b < 0x20 {
            assert(r.skip(6) =~= escaped(s.skip(1)));
        } else {
            assert(r.skip(1) =~= escaped(s.skip(1)));
        }
    }
}

proof fn lemma_escaped_push(p: Seq<u8>, b: u8)
    ensures
        escaped(p.push(b)) == escaped(p) + escape_byte(b),
    decreases p.len(),
{
    if p.len() == 0 {
        assert(p.push(b)[0] == b);
        assert(p.push(b).skip(1) =~= p);
        assert(escaped(p.push(b)) =~= escaped(p) + escape_byte(b));
    } else {
        lemma_escaped_push(p.skip(1), b);
        assert(p.push(b).skip(1) =~= p.skip(1).push(b));
        assert(escape_byte(p[0]) + (escaped(p.skip(1)) + escape_byte(b)) =~= (escape_byte(p[0])
            + escaped(p.skip(1))) + escape_byte(b));
    }
}

fn hex_digit_x(n: u8) -> (r: u8)
    requires
        n < 16,
    ensures
        r == hex_digit(n),
{
    if n < 10 {
        DIGIT_0 + n
    } else {
        LET_A + (n - 10)
    }
}

/// Escapes a plain byte string for use as raw JSON string content.
pub fn escape_bytes_x(s: &Vec<u8>) -> (r: Vec<u8>)
    ensures
        r@ == escaped(s@),
{
    let mut r: Vec<u8> = Vec::new();
    let mut k: usize = 0;
    proof {
        assert(s@.subrange(0, 0) =~= Seq::<u8>::empty());
    }
    while k < s.len()
        invariant
            k <= s@.len(),
            r@ == escaped(s@.subrange(0, k as int)),
        decreases s@.len() - k,
    {
        let b = s[k];
        if b == QUOTE || b == BACKSLASH {
            r.push(BACKSLASH);
            r.push(b);
        } else if b < 0x20 {
            r.push(BACKSLASH);
            r.push(LET_U);
            r.push(DIGIT_0);
            r.push(DIGIT_0);
            r.push(hex_digit_x(b / 16));
            r.push(hex_digit_x(b % 16));
        } else {
            r.push(b);
        }
        proof {
            lemma_escaped_push(s@.subrange(0, k as int), b);
            assert(s@.subrange(0, k as int).push(b) =~= s@.subrange(0, k + 1 as int));
            assert(r@ =~= escaped(s@.subrange(0, k as int)) + escape_byte(b));
        }
        k = k + 1;
    }
    proof {
        assert(s@.subrange(0, s@.len() as int) =~= s@);
    }
    r
}

// ---------------------------------------------------------------------------
// Ordered object members: first-occurrence lookup and in-place set.
// ---------------------------------------------------------------------------

/// The value under `key`, at its first occurrence.
pub open spec fn get_member(ms: Seq<(Seq<u8>, JsonV)>, key: Seq<u8>) -> Option<JsonV>
    decreases ms.len(),
{
    if ms.len() == 0 {
        None
    } else if ms[0].0 == key {
        Some(ms[0].1)
    } else {
        get_member(ms.skip(1), key)
    }
}

/// Sets `key` to `val`: overwrites the first occurrence in place, else
/// appends the member at the end.
pub open spec fn set_member(
    ms: Seq<(Seq<u8>, JsonV)>,
    key: Seq<u8>,
    val: JsonV,
) -> Seq<(Seq<u8>, JsonV)>
    decreases ms.len(),
{
    if ms.len() == 0 {
        seq![(key, val)]
    } else if ms[0].0 == key {
        seq![(key, val)] + ms.skip(1)
    } else {
        seq![ms[0]] + set_member(ms.skip(1), key, val)
    }
}

pub proof fn lemma_get_member_found(ms: Seq<(Seq<u8>, JsonV)>, key: Seq<u8>, p: int)
    requires
        0 <= p < ms.len(),
        ms[p].0 == key,
        forall|t: int| 0 <= t < p ==> (#[trigger] ms[t]).0 != key,
    ensures
        get_member(ms, key) == Some(ms[p].1),
    decreases p,
{
    if p > 0 {
        lemma_get_member_found(ms.skip(1), key, p - 1);
    }
}

pub proof fn lemma_get_member_missing(ms: Seq<(Seq<u8>, JsonV)>, key: Seq<u8>)
    requires
        forall|t: int| 0 <= t < ms.len() ==> (#[trigger] ms[t]).0 != key,
    ensures
        get_member(ms, key) is None,
    decreases ms.len(),
{
    if ms.len() > 0 {
        lemma_get_member_missing(ms.skip(1), key);
    }
}

pub proof fn lemma_set_member_found(ms: Seq<(Seq<u8>, JsonV)>, key: Seq<u8>, val: JsonV, p: int)
    requires
        0 <= p < ms.len(),
        ms[p].0 == key,
        forall|t: int| 0 <= t < p ==> (#[trigger] ms[t]).0 != key,
    ensures
        set_member(ms, key, val) == ms.update(p, (key, val)),
    decreases p,
{
    if p == 0 {
        assert(seq![(key, val)] + ms.skip(1) =~= ms.update(0, (key, val)));
    } else {
        lemma_set_member_found(ms.skip(1), key, val, p - 1);
        assert(seq![ms[0]] + ms.skip(1).update(p - 1, (key, val)) =~= ms.update(p, (key, val)));
    }
}

pub proof fn lemma_set_member_missing(ms: Seq<(Seq<u8>, JsonV)>, key: Seq<u8>, val: JsonV)
    requires
        forall|t: int| 0 <= t < ms.len() ==> (#[trigger] ms[t]).0 != key,
    ensures
        set_member(ms, key, val) == ms.push((key, val)),
    decreases ms.len(),
{
    if ms.len() == 0 {
        assert(seq![(key, val)] =~= ms.push((key, val)));
    } else {
        lemma_set_member_missing(ms.skip(1), key, val);
        assert(seq![ms[0]] + ms.skip(1).push((key, val)) =~= ms.push((key, val)));
    }
}

// ---------------------------------------------------------------------------
// The executable member operations.
// ---------------------------------------------------------------------------

fn bytes_eq(a: &Vec<u8>, b: &Vec<u8>) -> (r: bool)
    ensures
        r == (a@ == b@),
{
    if a.len() != b.len() {
        return false;
    }
    let mut k: usize = 0;
    while k < a.len()
        invariant
            k <= a@.len(),
            a@.len() == b@.len(),
            forall|t: int| 0 <= t < k ==> a@[t] == b@[t],
        decreases a@.len() - k,
    {
        if a[k] != b[k] {
            return false;
        }
        k = k + 1;
    }
    proof {
        assert(a@ =~= b@);
    }
    true
}

/// The first index whose key is `key`, if any.
fn find_member(ms: &Vec<(Vec<u8>, Json)>, key: &Vec<u8>) -> (r: Option<usize>)
    ensures
        match r {
            Some(p) => p < ms@.len() && ms@[p as int].0@ == key@ && forall|t: int|
                0 <= t < p ==> (#[trigger] ms@[t]).0@ != key@,
            None => forall|t: int| 0 <= t < ms@.len() ==> (#[trigger] ms@[t]).0@ != key@,
        },
{
    let mut k: usize = 0;
    while k < ms.len()
        invariant
            k <= ms@.len(),
            forall|t: int| 0 <= t < k ==> (#[trigger] ms@[t]).0@ != key@,
        decreases ms@.len() - k,
    {
        if bytes_eq(&ms[k].0, key) {
            return Some(k);
        }
        k = k + 1;
    }
    None
}

/// Sets `key` to `val` in the member list, as `set_member` says.
fn set_member_x(ms: &mut Vec<(Vec<u8>, Json)>, key: Vec<u8>, val: Json)
    ensures
        model_members(final(ms)@) == set_member(model_members(old(ms)@), key@, val.model()),
{
    let ghost gkey = key@;
    let ghost gval = val.model();
    let ghost gold = ms@;
    match find_member(ms, &key) {
        Some(p) => {
            let _ = ms.remove(p);
            ms.insert(p, (key, val));
            proof {
                assert(ms@ =~= gold.update(p as int, (ms@[p as int].0, ms@[p as int].1)));
                lemma_model_members(gold);
                lemma_model_members(ms@);
                lemma_set_member_found(model_members(gold), gkey, gval, p as int);
                assert(model_members(ms@) =~= model_members(gold).update(p as int, (gkey, gval)));
            }
        },
        None => {
            ms.push((key, val));
            proof {
                lemma_model_members(gold);
                lemma_model_members(ms@);
                lemma_set_member_missing(model_members(gold), gkey, gval);
                assert(model_members(ms@) =~= model_members(gold).push((gkey, gval)));
            }
        },
    }
}

// ---------------------------------------------------------------------------
// The document mutation.
// ---------------------------------------------------------------------------

/// The headers object after the transform: the marker set, and the secret
/// header set when a secret is configured.
pub open spec fn mutate_headers(
    hs: Seq<(Seq<u8>, JsonV)>,
    secret: Option<Seq<u8>>,
) -> Seq<(Seq<u8>, JsonV)> {
    let marked = set_member(hs, transform_key(), marker_value());
    match secret {
        Some(sv) => set_member(marked, secret_key(), JsonV::Text(escaped(sv))),
        None => marked,
    }
}

/// The whole document after the transform: only a top-level `headers`
/// member that is itself an object is touched.
pub open spec fn mutate_doc(v: JsonV, secret: Option<Seq<u8>>) -> JsonV {
    match v {
        JsonV::Object(ms) => match get_member(ms, headers_key()) {
            Some(JsonV::Object(hs)) => JsonV::Object(
                set_member(ms, headers_key(), JsonV::Object(mutate_headers(hs, secret))),
            ),
            _ => v,
        },
        _ => v,
    }
}

/// The secret as the specification sees it.
pub open spec fn secret_model(secret: Option<&Vec<u8>>) -> Option<Seq<u8>> {
    match secret {
        Some(s) => Some(s@),
        None => None,
    }
}

/// Applies the header mutation to a parsed document.
pub fn mutate_document(doc: Json, secret: Option<&Vec<u8>>) -> (r: Json)
    ensures
        r.model() == mutate_doc(doc.model(), secret_model(secret)),
{
    match doc {
        Json::Object(mut ms) => {
            let ghost gms = model_members(ms@);
            let hkey = headers_key_x();
            match find_member(&ms, &hkey) {
                Some(p) => {
                    proof {
                        lemma_model_members(ms@);
                        lemma_get_member_found(gms, headers_key(), p as int);
                    }
                    let ghost gold = ms@;
                    let (orig_key, orig_val) = ms.remove(p);
                    match orig_val {
                        Json::Object(mut hs) => {
                            let ghost ghs = model_members(hs@);
                            let tkey = transform_key_x();
                            set_member_x(&mut hs, tkey, marker_value_x());
                            match secret {
                                Some(sv) => {
                                    let skey = secret_key_x();
                                    let esc = escape_bytes_x(sv);
                                    set_member_x(&mut hs, skey, Json::Text(esc));
                                },
                                None => {},
                            }
                            proof {
                                assert(model_members(hs@) == mutate_headers(
                                    ghs,
                                    secret_model(secret),
                                ));
                            }
                            ms.insert(p, (orig_key, Json::Object(hs)));
                            proof {
                                assert(ms@ =~= gold.update(
                                    p as int,
                                    (ms@[p as int].0, ms@[p as int].1),
                                ));
                                lemma_model_members(gold);
                                lemma_model_members(ms@);
                                lemma_set_member_found(
                                    gms,
                                    headers_key(),
                                    JsonV::Object(mutate_headers(ghs, secret_model(secret))),
                                    p as int,
                                );
                                assert(model_members(ms@) =~= gms.update(
                                    p as int,
                                    (headers_key(), JsonV::Object(
                                        mutate_headers(ghs, secret_model(secret)),
                                    )),
                                ));
                            }
                            Json::Object(ms)
                        },
                        other => {
                            // `headers` is present but no object: hands the
                            // document back untouched.
                            proof {
                                match &other {
                                    Json::Null => assert(other.model() == JsonV::Null),
                                    Json::Bool(b0) => assert(other.model() == JsonV::Bool(*b0)),
                                    Json::Number(r0) => assert(other.model() == JsonV::Number(r0@)),
                                    Json::Text(r0) => assert(other.model() == JsonV::Text(r0@)),
                                    Json::Array(a0) => assert(other.model() matches JsonV::Array(
                                        _,
                                    )),
                                    Json::Object(_) => assert(false),
                                }
                            }
                            ms.insert(p, (orig_key, other));
                            proof {
                                assert(ms@ =~= gold);
                            }
                            Json::Object(ms)
                        },
                    }
                },
                None => {
                    proof {
                        lemma_model_members(ms@);
                        lemma_get_member_missing(gms, headers_key());
                    }
                    Json::Object(ms)
                },
            }
        },
        other => {
            proof {
                match &other {
                    Json::Null => assert(other.model() == JsonV::Null),
                    Json::Bool(b0) => assert(other.model() == JsonV::Bool(*b0)),
                    Json::Number(r0) => assert(other.model() == JsonV::Number(r0@)),
                    Json::Text(r0) => assert(other.model() == JsonV::Text(r0@)),
                    Json::Array(a0) => assert(other.model() matches JsonV::Array(_)),
                    Json::Object(_) => assert(false),
                }
            }
            other
        },
    }
}

} // verus!
