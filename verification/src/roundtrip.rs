//! Parsing is the inverse of serialization.
//!
//! `lemma_parse_ser` shows that the canonical encoding of any well-formed
//! value parses back to that very value, and `lemma_parse_doc_wf` that the
//! parser only produces well-formed values.  Together they give the
//! round-trip law of the transform: feeding its output back in yields the
//! same document, and transforming twice is transforming once
//! (`lemma_transform_idempotent`).

use vstd::prelude::*;

use crate::json::{
    is_numchar, is_numstart, is_simple_escape, is_ws, lit_false, lit_null, lit_true, ser,
    ser_items, ser_members, ser_one_member, wf, wf_number, wf_text, JsonV, BACKSLASH, COLON,
    COMMA, LBRACE, LBRACKET, LET_F, LET_N, LET_T, LET_U, QUOTE, RBRACE, RBRACKET,
};
use crate::mutate::mutate_doc;
use crate::parse::{
    has_lit, lemma_scan_number_bounds, lemma_scan_text_bounds, parse_doc, parse_items,
    parse_members, parse_text, parse_value, scan_number, scan_text, skip_ws,
};

verus! {

/// The bytes that may directly follow a value inside a document.
spec fn is_stop(b: u8) -> bool {
    b == COMMA || b == RBRACE || b == RBRACKET
}

/// The first byte of an encoded well-formed value.
proof fn lemma_ser_first(v: JsonV)
    requires
        wf(v),
    ensures
        ser(v).len() > 0,
        ser(v)[0] == QUOTE || ser(v)[0] == LBRACE || ser(v)[0] == LBRACKET || ser(v)[0] == LET_N
            || ser(v)[0] == LET_T || ser(v)[0] == LET_F || is_numstart(ser(v)[0]),
{
    match v {
        JsonV::Null => {
            assert(ser(v)[0] == LET_N);
        },
        JsonV::Bool(b) => {
            if b {
                assert(ser(v)[0] == LET_T);
            } else {
                assert(ser(v)[0] == LET_F);
            }
        },
        JsonV::Number(r) => {
            assert(ser(v) == r);
        },
        JsonV::Text(r) => {
            assert(ser(v)[0] == QUOTE);
        },
        JsonV::Array(items) => {
            assert(ser(v)[0] == LBRACKET);
        },
        JsonV::Object(ms) => {
            assert(ser(v)[0] == LBRACE);
        },
    }
}

/// A subrange equality, read elementwise.
proof fn lemma_sub_elems(s: Seq<u8>, i: int, w: Seq<u8>)
    requires
        0 <= i,
        i + w.len() <= s.len(),
        s.subrange(i, i + w.len()) == w,
    ensures
        forall|t: int| i <= t < i + w.len() ==> s[t] == w[t - i],
{
    assert forall|t: int| i <= t < i + w.len() implies s[t] == w[t - i] by {
        assert(s.subrange(i, i + w.len())[t - i] == w[t - i]);
    }
}

// ---------------------------------------------------------------------------
// The scanners read back exactly what was written.
// ---------------------------------------------------------------------------

proof fn lemma_scan_number_from(r: Seq<u8>, s: Seq<u8>, i: int, k: int)
    requires
        wf_number(r),
        0 <= i,
        0 <= k <= r.len(),
        i + r.len() <= s.len(),
        s.subrange(i, i + r.len()) == r,
        i + r.len() == s.len() || !is_numchar(s[i + r.len()]),
    ensures
        scan_number(s, i + k) == i + r.len(),
    decreases r.len() - k,
{
    if k < r.len() {
        assert(s[i + k] == r[k]);
        lemma_scan_number_from(r, s, i, k + 1);
    }
}

proof fn lemma_scan_text_exact(r: Seq<u8>, s: Seq<u8>, i: int)
    requires
        wf_text(r),
        0 <= i,
        i + r.len() < s.len(),
        s.subrange(i, i + r.len()) == r,
        s[i + r.len()] == QUOTE,
    ensures
        scan_text(s, i) == Some(i + r.len()),
    decreases r.len(),
{
    if r.len() == 0 {
        assert(s[i] == QUOTE);
    } else {
        assert(s[i] == r[0]);
        if r[0] == BACKSLASH {
            if r.len() >= 2 && is_simple_escape(r[1]) {
                assert(s[i + 1] == r[1]);
                assert(s.subrange(i + 2, i + r.len()) =~= r.skip(2));
                lemma_scan_text_exact(r.skip(2), s, i + 2);
            } else {
                assert(r.len() >= 6 && r[1] == LET_U);
                assert(s[i + 1] == r[1] && s[i + 2] == r[2] && s[i + 3] == r[3] && s[i + 4] == r[4]
                    && s[i + 5] == r[5]);
                assert(s.subrange(i + 6, i + r.len()) =~= r.skip(6));
                lemma_scan_text_exact(r.skip(6), s, i + 6);
            }
        } else {
            assert(s.subrange(i + 1, i + r.len()) =~= r.skip(1));
            lemma_scan_text_exact(r.skip(1), s, i + 1);
        }
    }
}

// ---------------------------------------------------------------------------
// The encoding of a well-formed value parses back to it.
// ---------------------------------------------------------------------------

#[verifier::rlimit(80)]
proof fn lemma_parse_ser_value(v: JsonV, s: Seq<u8>, i: int)
    requires
        wf(v),
        0 <= i,
        i + ser(v).len() <= s.len(),
        s.subrange(i, i + ser(v).len()) == ser(v),
        i + ser(v).len() == s.len() || is_stop(s[i + ser(v).len()]),
    ensures
        parse_value(s, i) == Some((v, i + ser(v).len())),
    decreases v, 1int, 0int,
{
    let n = ser(v).len() as int;
    lemma_ser_first(v);
    lemma_sub_elems(s, i, ser(v));
    assert(s[i] == ser(v)[0]);
    match v {
        JsonV::Null => {
            assert(has_lit(s, i, lit_null()));
        },
        JsonV::Bool(b) => {
            if b {
                assert(!has_lit(s, i, lit_null())) by {
                    if has_lit(s, i, lit_null()) {
                        assert(s.subrange(i, i + 4)[0] == lit_null()[0]);
                    }
                }
                assert(has_lit(s, i, lit_true()));
            } else {
                assert(!has_lit(s, i, lit_null())) by {
                    if has_lit(s, i, lit_null()) {
                        assert(s.subrange(i, i + 4)[0] == lit_null()[0]);
                    }
                }
                assert(!has_lit(s, i, lit_true())) by {
                    if has_lit(s, i, lit_true()) {
                        assert(s.subrange(i, i + 4)[0] == lit_true()[0]);
                    }
                }
                assert(has_lit(s, i, lit_false()));
            }
        },
        JsonV::Number(r) => {
            assert(!has_lit(s, i, lit_null())) by {
                if has_lit(s, i, lit_null()) {
                    assert(s.subrange(i, i + 4)[0] == lit_null()[0]);
                }
            }
            assert(!has_lit(s, i, lit_true())) by {
                if has_lit(s, i, lit_true()) {
                    assert(s.subrange(i, i + 4)[0] == lit_true()[0]);
                }
            }
            assert(!has_lit(s, i, lit_false())) by {
                if has_lit(s, i, lit_false()) {
                    assert(s.subrange(i, i + 5)[0] == lit_false()[0]);
                }
            }
            lemma_scan_number_from(r, s, i, 0);
            assert(s.subrange(i, scan_number(s, i)) == r);
        },
        JsonV::Text(r) => {
            assert forall|t: int| 0 <= t < r.len() implies s[i + 1 + t] == r[t] by {
                assert(s[i + 1 + t] == ser(v)[1 + t]);
            }
            assert(s.subrange(i + 1, i + 1 + r.len()) =~= r);
            assert(s[i + 1 + r.len()] == ser(v)[n - 1]);
            lemma_scan_text_exact(r, s, i + 1);
            assert(s.subrange(i + 1, i + 1 + r.len()) == r);
        },
        JsonV::Array(items) => {
            let li = ser_items(items, 0);
            assert(n == li.len() + 2);
            if items.len() == 0 {
                assert(li =~= Seq::<u8>::empty());
                assert(s[i + 1] == ser(v)[1]);
                assert(ser(v)[1] == RBRACKET);
                assert(skip_ws(s, i + 1) == i + 1);
                assert(items =~= Seq::<JsonV>::empty());
            } else {
                lemma_ser_first(items[0]);
                assert(li[0] == ser(items[0])[0]);
                assert(s[i + 1] == ser(v)[1] && ser(v)[1] == li[0]);
                assert(!is_ws(s[i + 1]));
                assert(skip_ws(s, i + 1) == i + 1);
                assert(s[i + 1] != RBRACKET);
                assert forall|t: int| 0 <= t < li.len() implies s[i + 1 + t] == li[t] by {
                    assert(s[i + 1 + t] == ser(v)[1 + t]);
                }
                assert(s.subrange(i + 1, i + 1 + li.len()) =~= li);
                assert(s[i + 1 + li.len()] == ser(v)[n - 1] && ser(v)[n - 1] == RBRACKET);
                lemma_parse_ser_items(items, 0, s, i + 1);
                assert(items.skip(0) =~= items);
            }
        },
        JsonV::Object(ms) => {
            let lm = ser_members(ms, 0);
            assert(n == lm.len() + 2);
            if ms.len() == 0 {
                assert(lm =~= Seq::<u8>::empty());
                assert(s[i + 1] == ser(v)[1]);
                assert(ser(v)[1] == RBRACE);
                assert(skip_ws(s, i + 1) == i + 1);
                assert(ms =~= Seq::<(Seq<u8>, JsonV)>::empty());
            } else {
                assert(lm[0] == ser_one_member(ms[0])[0]);
                assert(ser_one_member(ms[0])[0] == QUOTE);
                assert(s[i + 1] == ser(v)[1] && ser(v)[1] == lm[0]);
                assert(skip_ws(s, i + 1) == i + 1);
                assert(s[i + 1] != RBRACE);
                assert forall|t: int| 0 <= t < lm.len() implies s[i + 1 + t] == lm[t] by {
                    assert(s[i + 1 + t] == ser(v)[1 + t]);
                }
                assert(s.subrange(i + 1, i + 1 + lm.len()) =~= lm);
                assert(s[i + 1 + lm.len()] == ser(v)[n - 1] && ser(v)[n - 1] == RBRACE);
                lemma_parse_ser_members(ms, 0, s, i + 1);
                assert(ms.skip(0) =~= ms);
            }
        },
    }
}

#[verifier::rlimit(80)]
proof fn lemma_parse_ser_items(items: Seq<JsonV>, k: int, s: Seq<u8>, i: int)
    requires
        0 <= k < items.len(),
        forall|t: int| 0 <= t < items.len() ==> wf(#[trigger] items[t]),
        0 <= i,
        i + ser_items(items, k).len() + 1 <= s.len(),
        s.subrange(i, i + ser_items(items, k).len()) == ser_items(items, k),
        s[i + ser_items(items, k).len()] == RBRACKET,
    ensures
        parse_items(s, i) == Some((items.skip(k), i + ser_items(items, k).len() + 1)),
    decreases items, 0int, items.len() - k,
{
    let li = ser_items(items, k);
    let e0 = ser(items[k]);
    lemma_ser_first(items[k]);
    lemma_sub_elems(s, i, li);
    if k == items.len() - 1 {
        assert(li == e0);
        lemma_parse_ser_value(items[k], s, i);
        let after = i + e0.len() as int;
        assert(!is_ws(s[after]));
        assert(skip_ws(s, after) == after);
        assert(seq![items[k]] =~= items.skip(k));
    } else {
        let rest = ser_items(items, k + 1);
        assert(li == e0 + seq![COMMA] + rest);
        let after = i + e0.len() as int;
        assert forall|t: int| 0 <= t < e0.len() implies s[i + t] == e0[t] by {
            assert(s[i + t] == li[t]);
        }
        assert(s.subrange(i, after) =~= e0);
        assert(s[after] == li[e0.len() as int]);
        assert(li[e0.len() as int] == COMMA);
        lemma_parse_ser_value(items[k], s, i);
        assert(skip_ws(s, after) == after);
        let n2 = after + 1;
        assert forall|t: int| 0 <= t < rest.len() implies s[n2 + t] == rest[t] by {
            assert(s[n2 + t] == li[e0.len() + 1 + t]);
        }
        lemma_ser_first(items[k + 1]);
        assert(rest[0] == ser(items[k + 1])[0]);
        assert(!is_ws(s[n2]));
        assert(skip_ws(s, n2) == n2);
        assert(s.subrange(n2, n2 + rest.len()) =~= rest);
        assert(n2 + rest.len() == i + li.len());
        lemma_parse_ser_items(items, k + 1, s, n2);
        assert(seq![items[k]] + items.skip(k + 1) =~= items.skip(k));
    }
}

#[verifier::rlimit(80)]
proof fn lemma_parse_ser_members(ms: Seq<(Seq<u8>, JsonV)>, k: int, s: Seq<u8>, i: int)
    requires
        0 <= k < ms.len(),
        forall|t: int| 0 <= t < ms.len() ==> wf_text((#[trigger] ms[t]).0) && wf(ms[t].1),
        0 <= i,
        i + ser_members(ms, k).len() + 1 <= s.len(),
        s.subrange(i, i + ser_members(ms, k).len()) == ser_members(ms, k),
        s[i + ser_members(ms, k).len()] == RBRACE,
    ensures
        parse_members(s, i) == Some((ms.skip(k), i + ser_members(ms, k).len() + 1)),
    decreases ms, 0int, ms.len() - k,
{
    let lm = ser_members(ms, k);
    let key = ms[k].0;
    let val = ms[k].1;
    let piece = ser_one_member(ms[k]);
    let kl = key.len() as int;
    let vl = ser(val).len() as int;
    assert(piece.len() == kl + 3 + vl);
    lemma_sub_elems(s, i, lm);
    // The piece's layout inside s.
    assert forall|t: int| 0 <= t < piece.len() && t < lm.len() implies s[i + t] == piece[t] by {
        assert(s[i + t] == lm[t]);
        if k < ms.len() - 1 {
            assert(lm == piece + seq![COMMA] + ser_members(ms, k + 1));
        }
    }
    assert(s[i] == piece[0] && piece[0] == QUOTE);
    assert forall|t: int| 0 <= t < kl implies s[i + 1 + t] == key[t] by {
        assert(s[i + 1 + t] == piece[1 + t]);
        assert(piece[1 + t] == key[t]);
    }
    assert(s.subrange(i + 1, i + 1 + kl) =~= key);
    assert(s[i + 1 + kl] == piece[1 + kl] && piece[1 + kl] == QUOTE);
    assert(s[i + 2 + kl] == piece[2 + kl] && piece[2 + kl] == COLON);
    lemma_scan_text_exact(key, s, i + 1);
    let j = i + 2 + kl;
    assert(parse_text(s, i) == Some((s.subrange(i + 1, i + 1 + kl), j)));
    assert(!is_ws(COLON));
    assert(skip_ws(s, j) == j);
    let w = j + 1;
    lemma_ser_first(val);
    assert forall|t: int| 0 <= t < vl implies s[w + t] == ser(val)[t] by {
        assert(s[w + t] == piece[3 + kl + t]);
        assert(piece[3 + kl + t] == ser(val)[t]);
    }
    assert(s[w] == ser(val)[0]);
    assert(!is_ws(s[w]));
    assert(skip_ws(s, w) == w);
    assert(s.subrange(w, w + vl) =~= ser(val));
    if k == ms.len() - 1 {
        assert(lm == piece);
        assert(w + vl == i + lm.len());
        lemma_parse_ser_value(val, s, w);
        let a = w + vl;
        assert(!is_ws(s[a]));
        assert(skip_ws(s, a) == a);
        assert(ms[k] == (key, val));
        assert(seq![(key, val)] =~= ms.skip(k));
    } else {
        let rest = ser_members(ms, k + 1);
        assert(lm == piece + seq![COMMA] + rest);
        let a = w + vl;
        assert(s[a] == lm[piece.len() as int]);
        assert(lm[piece.len() as int] == COMMA);
        lemma_parse_ser_value(val, s, w);
        assert(!is_ws(s[a]));
        assert(skip_ws(s, a) == a);
        let n2 = a + 1;
        assert forall|t: int| 0 <= t < rest.len() implies s[n2 + t] == rest[t] by {
            assert(s[n2 + t] == lm[piece.len() + 1 + t]);
        }
        assert(rest[0] == ser_one_member(ms[k + 1])[0]);
        assert(ser_one_member(ms[k + 1])[0] == QUOTE);
        assert(!is_ws(s[n2]));
        assert(skip_ws(s, n2) == n2);
        assert(s.subrange(n2, n2 + rest.len()) =~= rest);
        assert(n2 + rest.len() == i + lm.len());
        lemma_parse_ser_members(ms, k + 1, s, n2);
        assert(ms[k] == (key, val));
        assert(seq![(key, val)] + ms.skip(k + 1) =~= ms.skip(k));
    }
}

/// The canonical encoding of a well-formed value parses back to it.
pub proof fn lemma_parse_ser(v: JsonV)
    requires
        wf(v),
    ensures
        parse_doc(ser(v)) == Some(v),
{
    let s = ser(v);
    lemma_ser_first(v);
    assert(!is_ws(s[0]));
    assert(skip_ws(s, 0) == 0);
    assert(s.subrange(0, s.len() as int) =~= s);
    lemma_parse_ser_value(v, s, 0);
    assert(skip_ws(s, s.len() as int) == s.len());
}

// ---------------------------------------------------------------------------
// The parser only produces well-formed values.
// ---------------------------------------------------------------------------

proof fn lemma_scan_number_chars(s: Seq<u8>, i: int)
    requires
        0 <= i <= s.len(),
    ensures
        forall|t: int| i <= t < scan_number(s, i) ==> is_numchar(#[trigger] s[t]),
    decreases s.len() - i,
{
    lemma_scan_number_bounds(s, i);
    if i < s.len() && is_numchar(s[i]) {
        lemma_scan_number_chars(s, i + 1);
        lemma_scan_number_bounds(s, i + 1);
    }
}

proof fn lemma_scan_text_wf(s: Seq<u8>, i: int)
    requires
        0 <= i,
    ensures
        scan_text(s, i) matches Some(e) ==> wf_text(s.subrange(i, e)),
    decreases s.len() - i,
{
    lemma_scan_text_bounds(s, i);
    if 0 <= i && i < s.len() && s[i] != QUOTE {
        if s[i] == BACKSLASH {
            if s.len() - i >= 2 && is_simple_escape(s[i + 1]) {
                lemma_scan_text_wf(s, i + 2);
                lemma_scan_text_bounds(s, i + 2);
                match scan_text(s, i) {
                    Some(e) => {
                        let r = s.subrange(i, e);
                        assert(r[0] == BACKSLASH && r[1] == s[i + 1]);
                        assert(r.skip(2) =~= s.subrange(i + 2, e));
                    },
                    None => {},
                }
            } else if s.len() - i >= 6 && s[i + 1] == LET_U && crate::json::is_hex(s[i + 2])
                && crate::json::is_hex(s[i + 3]) && crate::json::is_hex(s[i + 4])
                && crate::json::is_hex(s[i + 5]) {
                lemma_scan_text_wf(s, i + 6);
                lemma_scan_text_bounds(s, i + 6);
                match scan_text(s, i) {
                    Some(e) => {
                        let r = s.subrange(i, e);
                        assert(r[0] == BACKSLASH && r[1] == s[i + 1] && r[2] == s[i + 2] && r[3]
                            == s[i + 3] && r[4] == s[i + 4] && r[5] == s[i + 5]);
                        assert(!is_simple_escape(r[1]));
                        assert(r.skip(6) =~= s.subrange(i + 6, e));
                    },
                    None => {},
                }
            }
        } else if s[i] >= 0x20 {
            lemma_scan_text_wf(s, i + 1);
            lemma_scan_text_bounds(s, i + 1);
            match scan_text(s, i) {
                Some(e) => {
                    let r = s.subrange(i, e);
                    assert(r[0] == s[i]);
                    assert(r.skip(1) =~= s.subrange(i + 1, e));
                },
                None => {},
            }
        }
    }
}

proof fn lemma_parse_value_wf(s: Seq<u8>, i: int)
    ensures
        parse_value(s, i) matches Some((v, n)) ==> wf(v),
    decreases s.len() - i, 1int,
{
    if 0 <= i && i < s.len() {
        if s[i] == QUOTE {
            lemma_scan_text_wf(s, i + 1);
        } else if s[i] == LBRACE {
            let j = skip_ws(s, i + 1);
            if j <= i || j > s.len() {
            } else if j < s.len() && s[j] == RBRACE {
                assert(wf(JsonV::Object(Seq::empty())));
            } else {
                lemma_parse_members_wf(s, j);
            }
        } else if s[i] == LBRACKET {
            let j = skip_ws(s, i + 1);
            if j <= i || j > s.len() {
            } else if j < s.len() && s[j] == RBRACKET {
                assert(wf(JsonV::Array(Seq::empty())));
            } else {
                lemma_parse_items_wf(s, j);
            }
        } else if has_lit(s, i, lit_null()) || has_lit(s, i, lit_true()) || has_lit(
            s,
            i,
            lit_false(),
        ) {
        } else if is_numstart(s[i]) {
            let e = scan_number(s, i);
            lemma_scan_number_bounds(s, i + 1);
            lemma_scan_number_chars(s, i);
            let r = s.subrange(i, e);
            assert(scan_number(s, i) == scan_number(s, i + 1));
            assert(r.len() > 0 && r[0] == s[i]);
            assert(forall|t: int| 0 <= t < r.len() ==> is_numchar(#[trigger] r[t]));
            assert(wf_number(r));
        }
    }
}

proof fn lemma_parse_members_wf(s: Seq<u8>, i: int)
    ensures
        parse_members(s, i) matches Some((msr, n)) ==> forall|t: int|
            0 <= t < msr.len() ==> wf_text((#[trigger] msr[t]).0) && wf(msr[t].1),
    decreases s.len() - i, 2int,
{
    if 0 <= i && i < s.len() {
        match parse_text(s, i) {
            None => {},
            Some((key, j)) => {
                lemma_scan_text_wf(s, i + 1);
                let c = skip_ws(s, j);
                if 0 <= c && c < s.len() && s[c] == COLON {
                    let w = skip_ws(s, c + 1);
                    if w < i || w > s.len() {
                    } else {
                        lemma_parse_value_wf(s, w);
                        match parse_value(s, w) {
                            None => {},
                            Some((val, k)) => {
                                let a = skip_ws(s, k);
                                if 0 <= a && a < s.len() && s[a] == RBRACE {
                                    assert(seq![(key, val)][0] == (key, val));
                                } else if 0 <= a && a < s.len() && s[a] == COMMA {
                                    let n2 = skip_ws(s, a + 1);
                                    if n2 <= i || n2 > s.len() {
                                    } else {
                                        lemma_parse_members_wf(s, n2);
                                        match parse_members(s, n2) {
                                            Some((rest, e)) => {
                                                let whole = seq![(key, val)] + rest;
                                                assert forall|t: int|
                                                    0 <= t < whole.len() implies wf_text(
                                                    (#[trigger] whole[t]).0,
                                                ) && wf(whole[t].1) by {
                                                    if t == 0 {
                                                        assert(whole[0] == (key, val));
                                                    } else {
                                                        assert(whole[t] == rest[t - 1]);
                                                    }
                                                }
                                            },
                                            None => {},
                                        }
                                    }
                                }
                            },
                        }
                    }
                }
            },
        }
    }
}

proof fn lemma_parse_items_wf(s: Seq<u8>, i: int)
    ensures
        parse_items(s, i) matches Some((itemsr, n)) ==> forall|t: int|
            0 <= t < itemsr.len() ==> wf(#[trigger] itemsr[t]),
    decreases s.len() - i, 2int,
{
    if 0 <= i && i < s.len() {
        lemma_parse_value_wf(s, i);
        match parse_value(s, i) {
            None => {},
            Some((val, k)) => {
                let a = skip_ws(s, k);
                if 0 <= a && a < s.len() && s[a] == RBRACKET {
                    assert(seq![val][0] == val);
                } else if 0 <= a && a < s.len() && s[a] == COMMA {
                    let n2 = skip_ws(s, a + 1);
                    if n2 <= i || n2 > s.len() {
                    } else {
                        lemma_parse_items_wf(s, n2);
                        match parse_items(s, n2) {
                            Some((rest, e)) => {
                                let whole = seq![val] + rest;
                                assert forall|t: int| 0 <= t < whole.len() implies wf(
                                    #[trigger] whole[t],
                                ) by {
                                    if t == 0 {
                                        assert(whole[0] == val);
                                    } else {
                                        assert(whole[t] == rest[t - 1]);
                                    }
                                }
                            },
                            None => {},
                        }
                    }
                }
            },
        }
    }
}

/// Whatever the parser accepts is well formed.
pub proof fn lemma_parse_doc_wf(s: Seq<u8>)
    ensures
        parse_doc(s) matches Some(v) ==> wf(v),
{
    lemma_parse_value_wf(s, skip_ws(s, 0));
}

// ---------------------------------------------------------------------------
// The transform is idempotent on the wire.
// ---------------------------------------------------------------------------

/// Feeding the transform's output back in parses to the already-mutated
/// document, and mutating it again changes nothing: the second output equals
/// the first, so the marker is overwritten, never duplicated.
pub proof fn lemma_transform_idempotent(s: Seq<u8>, v: JsonV, secret: Option<Seq<u8>>)
    requires
        parse_doc(s) == Some(v),
    ensures
        parse_doc(ser(mutate_doc(v, secret))) == Some(mutate_doc(v, secret)),
        ser(mutate_doc(mutate_doc(v, secret), secret)) == ser(mutate_doc(v, secret)),
{
    lemma_parse_doc_wf(s);
    crate::laws::lemma_mutate_wf(v, secret);
    lemma_parse_ser(mutate_doc(v, secret));
    crate::laws::lemma_mutate_idempotent(v, secret);
}

} // verus!
