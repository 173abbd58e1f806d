//! The JSON parser.
//!
//! `parse_doc` is the specification: a recursive descent over the byte
//! sequence, returning the parsed value and, for each sub-parser, the index
//! just after what it consumed.  The executable parser mirrors it branch for
//! branch and is proved to return exactly what the specification says.
//!
//! Number literals are taken greedily as a run of number bytes; string
//! contents are kept raw, escapes checked but not decoded.  A few index
//! guards (`n <= i`, `n > s.len()`) exist only so that termination is
//! evident from the text; whitespace skipping and the sub-parsers only ever
//! move forward, so they never fire.

use vstd::prelude::*;

use crate::json::{
    is_hex, is_numchar, is_numstart, is_simple_escape, is_ws, lemma_model_members, lemma_model_seq,
    lit_false, lit_null, lit_true, model_members, model_seq, Json, JsonV, BACKSLASH, BIG_A, BIG_E,
    BIG_F, COLON, COMMA, DIGIT_0, DIGIT_9, DOT, LBRACE, LBRACKET, LET_A, LET_B, LET_E, LET_F,
    LET_L, LET_N, LET_R, LET_S, LET_T, LET_U, MINUS, NEWLINE, PLUS, QUOTE, RBRACE, RBRACKET,
    RETURN, SLASH, SPACE, TAB,
};

verus! {

// ---------------------------------------------------------------------------
// The specification parser.
// ---------------------------------------------------------------------------

/// The first index at or after `i` that holds no whitespace.
pub open spec fn skip_ws(s: Seq<u8>, i: int) -> int
    decreases s.len() - i,
{
    if 0 <= i && i < s.len() && is_ws(s[i]) {
        skip_ws(s, i + 1)
    } else {
        i
    }
}

/// The first index at or after `i` that holds no number byte.
pub open spec fn scan_number(s: Seq<u8>, i: int) -> int
    decreases s.len() - i,
{
    if 0 <= i && i < s.len() && is_numchar(s[i]) {
        scan_number(s, i + 1)
    } else {
        i
    }
}

/// The index of the quote closing the string content that starts at `i`,
/// or `None` on an incomplete escape, a control byte, or a missing quote.
pub open spec fn scan_text(s: Seq<u8>, i: int) -> Option<int>
    decreases s.len() - i,
{
    if i < 0 || i >= s.len() {
        None
    } else if s[i] == QUOTE {
        Some(i)
    } else if s[i] == BACKSLASH {
        if s.len() - i >= 2 && is_simple_escape(s[i + 1]) {
            scan_text(s, i + 2)
        } else if s.len() - i >= 6 && s[i + 1] == LET_U && is_hex(s[i + 2]) && is_hex(s[i + 3])
            && is_hex(s[i + 4]) && is_hex(s[i + 5]) {
            scan_text(s, i + 6)
        } else {
            None
        }
    } else if s[i] < 0x20 {
        None
    } else {
        scan_text(s, i + 1)
    }
}

/// A quoted string at `i`: its raw content and the index after the close quote.
pub open spec fn parse_text(s: Seq<u8>, i: int) -> Option<(Seq<u8>, int)> {
    if 0 <= i && i < s.len() && s[i] == QUOTE {
        match scan_text(s, i + 1) {
            Some(e) => Some((s.subrange(i + 1, e), e + 1)),
            None => None,
        }
    } else {
        None
    }
}

/// `lit` stands verbatim at `i`.
pub open spec fn has_lit(s: Seq<u8>, i: int, lit: Seq<u8>) -> bool {
    0 <= i && i + lit.len() <= s.len() && s.subrange(i, i + lit.len()) == lit
}

/// A value at `i` (no leading whitespace): the value and the index after it.
pub open spec fn parse_value(s: Seq<u8>, i: int) -> Option<(JsonV, int)>
    decreases s.len() - i, 1int,
{
    if i < 0 || i >= s.len() {
        None
    } else if s[i] == QUOTE {
        match parse_text(s, i) {
            Some((r, j)) => Some((JsonV::Text(r), j)),
            None => None,
        }
    } else if s[i] == LBRACE {
        let j = skip_ws(s, i + 1);
        if j <= i || j > s.len() {
            None
        } else if j < s.len() && s[j] == RBRACE {
            Some((JsonV::Object(Seq::empty()), j + 1))
        } else {
            match parse_members(s, j) {
                Some((ms, k)) => Some((JsonV::Object(ms), k)),
                None => None,
            }
        }
    } else if s[i] == LBRACKET {
        let j = skip_ws(s, i + 1);
        if j <= i || j > s.len() {
            None
        } else if j < s.len() && s[j] == RBRACKET {
            Some((JsonV::Array(Seq::empty()), j + 1))
        } else {
            match parse_items(s, j) {
                Some((items, k)) => Some((JsonV::Array(items), k)),
                None => None,
            }
        }
    } else if has_lit(s, i, lit_null()) {
        Some((JsonV::Null, i + 4))
    } else if has_lit(s, i, lit_true()) {
        Some((JsonV::Bool(true), i + 4))
    } else if has_lit(s, i, lit_false()) {
        Some((JsonV::Bool(false), i + 5))
    } else if is_numstart(s[i]) {
        Some((JsonV::Number(s.subrange(i, scan_number(s, i))), scan_number(s, i)))
    } else {
        None
    }
}

/// The members of a non-empty object, `i` at the first key's quote:
/// the member list and the index after the closing brace.
pub open spec fn parse_members(s: Seq<u8>, i: int) -> Option<(Seq<(Seq<u8>, JsonV)>, int)>
    decreases s.len() - i, 2int,
{
    if i < 0 || i >= s.len() {
        None
    } else {
        match parse_text(s, i) {
            None => None,
            Some((key, j)) => {
                let c = skip_ws(s, j);
                if 0 <= c && c < s.len() && s[c] == COLON {
                    let w = skip_ws(s, c + 1);
                    if w < i || w > s.len() {
                        None
                    } else {
                        match parse_value(s, w) {
                            None => None,
                            Some((val, k)) => {
                                let a = skip_ws(s, k);
                                if 0 <= a && a < s.len() && s[a] == RBRACE {
                                    Some((seq![(key, val)], a + 1))
                                } else if 0 <= a && a < s.len() && s[a] == COMMA {
                                    let n = skip_ws(s, a + 1);
                                    if n <= i || n > s.len() {
                                        None
                                    } else {
                                        match parse_members(s, n) {
                                            Some((rest, e)) => Some((seq![(key, val)] + rest, e)),
                                            None => None,
                                        }
                                    }
                                } else {
                                    None
                                }
                            },
                        }
                    }
                } else {
                    None
                }
            },
        }
    }
}

/// The items of a non-empty array, `i` at the first item:
/// the item list and the index after the closing bracket.
pub open spec fn parse_items(s: Seq<u8>, i: int) -> Option<(Seq<JsonV>, int)>
    decreases s.len() - i, 2int,
{
    if i < 0 || i >= s.len() {
        None
    } else {
        match parse_value(s, i) {
            None => None,
            Some((val, k)) => {
                let a = skip_ws(s, k);
                if 0 <= a && a < s.len() && s[a] == RBRACKET {
                    Some((seq![val], a + 1))
                } else if 0 <= a && a < s.len() && s[a] == COMMA {
                    let n = skip_ws(s, a + 1);
                    if n <= i || n > s.len() {
                        None
                    } else {
                        match parse_items(s, n) {
                            Some((rest, e)) => Some((seq![val] + rest, e)),
                            None => None,
                        }
                    }
                } else {
                    None
                }
            },
        }
    }
}

/// The whole document: exactly one value, whitespace allowed around it.
pub open spec fn parse_doc(s: Seq<u8>) -> Option<JsonV> {
    match parse_value(s, skip_ws(s, 0)) {
        Some((v, j)) => if skip_ws(s, j) == s.len() {
            Some(v)
        } else {
            None
        },
        None => None,
    }
}

// ---------------------------------------------------------------------------
// Bounds of the scanners.
// ---------------------------------------------------------------------------

pub proof fn lemma_scan_number_bounds(s: Seq<u8>, i: int)
    requires
        0 <= i <= s.len(),
    ensures
        i <= scan_number(s, i) <= s.len(),
    decreases s.len() - i,
{
    if i < s.len() && is_numchar(s[i]) {
        lemma_scan_number_bounds(s, i + 1);
    }
}

pub proof fn lemma_scan_text_bounds(s: Seq<u8>, i: int)
    requires
        0 <= i,
    ensures
        scan_text(s, i) matches Some(e) ==> i <= e < s.len() && s[e] == QUOTE,
    decreases s.len() - i,
{
    if 0 <= i && i < s.len() && s[i] != QUOTE {
        if s[i] == BACKSLASH {
            if s.len() - i >= 2 && is_simple_escape(s[i + 1]) {
                lemma_scan_text_bounds(s, i + 2);
            } else if s.len() - i >= 6 && s[i + 1] == LET_U && is_hex(s[i + 2]) && is_hex(s[i + 3])
                && is_hex(s[i + 4]) && is_hex(s[i + 5]) {
                lemma_scan_text_bounds(s, i + 6);
            }
        } else if s[i] >= 0x20 {
            lemma_scan_text_bounds(s, i + 1);
        }
    }
}

// ---------------------------------------------------------------------------
// The executable parser.
// ---------------------------------------------------------------------------

fn skip_ws_x(s: &Vec<u8>, i: usize) -> (r: usize)
    requires
        i <= s@.len(),
    ensures
        r as int == skip_ws(s@, i as int),
        i <= r <= s@.len(),
{
    let mut k: usize = i;
    while k < s.len() && (s[k] == SPACE || s[k] == TAB || s[k] == NEWLINE || s[k] == RETURN)
        invariant
            i <= k <= s@.len(),
            skip_ws(s@, i as int) == skip_ws(s@, k as int),
        decreases s@.len() - k,
    {
        k = k + 1;
    }
    k
}

fn scan_number_x(s: &Vec<u8>, i: usize) -> (r: usize)
    requires
        i <= s@.len(),
    ensures
        r as int == scan_number(s@, i as int),
        i <= r <= s@.len(),
{
    let mut k: usize = i;
    while k < s.len() && (DIGIT_0 <= s[k] && s[k] <= DIGIT_9 || s[k] == MINUS || s[k] == PLUS
        || s[k] == DOT || s[k] == LET_E || s[k] == BIG_E)
        invariant
            i <= k <= s@.len(),
            scan_number(s@, i as int) == scan_number(s@, k as int),
        decreases s@.len() - k,
    {
        k = k + 1;
    }
    k
}

fn is_hex_x(b: u8) -> (r: bool)
    ensures
        r == is_hex(b),
{
    DIGIT_0 <= b && b <= DIGIT_9 || LET_A <= b && b <= LET_F || BIG_A <= b && b <= BIG_F
}

fn scan_text_x(s: &Vec<u8>, i: usize) -> (r: Option<usize>)
    requires
        i <= s@.len(),
    ensures
        match r {
            Some(e) => scan_text(s@, i as int) == Some(e as int) && i <= e < s@.len(),
            None => scan_text(s@, i as int) is None,
        },
{
    let mut k: usize = i;
    loop
        invariant
            i <= k <= s@.len(),
            scan_text(s@, i as int) == scan_text(s@, k as int),
        decreases s@.len() - k,
    {
        if k >= s.len() {
            return None;
        }
        let b = s[k];
        if b == QUOTE {
            return Some(k);
        } else if b == BACKSLASH {
            if s.len() - k >= 2 && (s[k + 1] == QUOTE || s[k + 1] == BACKSLASH || s[k + 1] == SLASH
                || s[k + 1] == LET_B || s[k + 1] == LET_F || s[k + 1] == LET_N || s[k + 1] == LET_R
                || s[k + 1] == LET_T) {
                k = k + 2;
            } else if s.len() - k >= 6 && s[k + 1] == LET_U && is_hex_x(s[k + 2]) && is_hex_x(
                s[k + 3],
            ) && is_hex_x(s[k + 4]) && is_hex_x(s[k + 5]) {
                k = k + 6;
            } else {
                return None;
            }
        } else if b < 0x20 {
            return None;
        } else {
            k = k + 1;
        }
    }
}

/// The bytes `s[a..b]`, copied out.
fn copy_range(s: &Vec<u8>, a: usize, b: usize) -> (r: Vec<u8>)
    requires
        a <= b <= s@.len(),
    ensures
        r@ == s@.subrange(a as int, b as int),
{
    let mut r: Vec<u8> = Vec::new();
    let mut k: usize = a;
    while k < b
        invariant
            a <= k <= b <= s@.len(),
            r@ == s@.subrange(a as int, k as int),
        decreases b - k,
    {
        r.push(s[k]);
        proof {
            assert(r@ =~= s@.subrange(a as int, k + 1 as int));
        }
        k = k + 1;
    }
    r
}

/// A quoted string at `i`: the raw content and the index after the closing
/// quote, as `parse_text` says.
fn parse_text_x(s: &Vec<u8>, i: usize) -> (r: Option<(Vec<u8>, usize)>)
    requires
        i <= s@.len(),
    ensures
        match r {
            Some((raw, n)) => parse_text(s@, i as int) == Some((raw@, n as int)) && i < n
                <= s@.len(),
            None => parse_text(s@, i as int) is None,
        },
{
    if i >= s.len() || s[i] != QUOTE {
        return None;
    }
    match scan_text_x(s, i + 1) {
        Some(e) => {
            let raw = copy_range(s, i + 1, e);
            Some((raw, e + 1))
        },
        None => None,
    }
}

fn lit4_x(s: &Vec<u8>, i: usize, b0: u8, b1: u8, b2: u8, b3: u8) -> (r: bool)
    requires
        i <= s@.len(),
    ensures
        r == has_lit(s@, i as int, seq![b0, b1, b2, b3]),
{
    if s.len() - i >= 4 && s[i] == b0 && s[i + 1] == b1 && s[i + 2] == b2 && s[i + 3] == b3 {
        proof {
            assert(s@.subrange(i as int, i + 4 as int) =~= seq![b0, b1, b2, b3]);
        }
        true
    } else {
        proof {
            if has_lit(s@, i as int, seq![b0, b1, b2, b3]) {
                let sub = s@.subrange(i as int, i + 4 as int);
                assert(s@[i as int] == sub[0] && s@[i + 1 as int] == sub[1] && s@[i + 2 as int]
                    == sub[2] && s@[i + 3 as int] == sub[3]);
            }
        }
        false
    }
}

fn lit5_x(s: &Vec<u8>, i: usize, b0: u8, b1: u8, b2: u8, b3: u8, b4: u8) -> (r: bool)
    requires
        i <= s@.len(),
    ensures
        r == has_lit(s@, i as int, seq![b0, b1, b2, b3, b4]),
{
    if s.len() - i >= 5 && s[i] == b0 && s[i + 1] == b1 && s[i + 2] == b2 && s[i + 3] == b3 && s[i
        + 4] == b4 {
        proof {
            assert(s@.subrange(i as int, i + 5 as int) =~= seq![b0, b1, b2, b3, b4]);
        }
        true
    } else {
        proof {
            if has_lit(s@, i as int, seq![b0, b1, b2, b3, b4]) {
                let sub = s@.subrange(i as int, i + 5 as int);
                assert(s@[i as int] == sub[0] && s@[i + 1 as int] == sub[1] && s@[i + 2 as int]
                    == sub[2] && s@[i + 3 as int] == sub[3] && s@[i + 4 as int] == sub[4]);
            }
        }
        false
    }
}

/// A value at `i`, as `parse_value` says.
pub fn parse_value_x(s: &Vec<u8>, i: usize) -> (r: Option<(Json, usize)>)
    requires
        i <= s@.len(),
    ensures
        match r {
            Some((j, n)) => parse_value(s@, i as int) == Some((j.model(), n as int)) && i < n
                <= s@.len(),
            None => parse_value(s@, i as int) is None,
        },
    decreases s@.len() - i, 1int,
{
    if i >= s.len() {
        return None;
    }
    let b = s[i];
    if b == QUOTE {
        match parse_text_x(s, i) {
            Some((raw, n)) => Some((Json::Text(raw), n)),
            None => None,
        }
    } else if b == LBRACE {
        let j = skip_ws_x(s, i + 1);
        if j < s.len() && s[j] == RBRACE {
            let ms: Vec<(Vec<u8>, Json)> = Vec::new();
            proof {
                assert(model_members(ms@) =~= Seq::<(Seq<u8>, JsonV)>::empty());
            }
            Some((Json::Object(ms), j + 1))
        } else {
            match parse_members_x(s, j) {
                Some((ms, k)) => Some((Json::Object(ms), k)),
                None => None,
            }
        }
    } else if b == LBRACKET {
        let j = skip_ws_x(s, i + 1);
        if j < s.len() && s[j] == RBRACKET {
            let items: Vec<Json> = Vec::new();
            proof {
                assert(model_seq(items@) =~= Seq::<JsonV>::empty());
            }
            Some((Json::Array(items), j + 1))
        } else {
            match parse_items_x(s, j) {
                Some((items, k)) => Some((Json::Array(items), k)),
                None => None,
            }
        }
    } else if lit4_x(s, i, LET_N, LET_U, LET_L, LET_L) {
        Some((Json::Null, i + 4))
    } else if lit4_x(s, i, LET_T, LET_R, LET_U, LET_E) {
        Some((Json::Bool(true), i + 4))
    } else if lit5_x(s, i, LET_F, LET_A, LET_L, LET_S, LET_E) {
        Some((Json::Bool(false), i + 5))
    } else if DIGIT_0 <= b && b <= DIGIT_9 || b == MINUS {
        let e = scan_number_x(s, i);
        proof {
            assert(scan_number(s@, i as int) == scan_number(s@, i + 1 as int));
            lemma_scan_number_bounds(s@, i + 1 as int);
        }
        let raw = copy_range(s, i, e);
        Some((Json::Number(raw), e))
    } else {
        None
    }
}

/// The members of a non-empty object, as `parse_members` says.
pub fn parse_members_x(s: &Vec<u8>, i: usize) -> (r: Option<(Vec<(Vec<u8>, Json)>, usize)>)
    requires
        i <= s@.len(),
    ensures
        match r {
            Some((ms, n)) => parse_members(s@, i as int) == Some((model_members(ms@), n as int))
                && i < n <= s@.len(),
            None => parse_members(s@, i as int) is None,
        },
    decreases s@.len() - i, 2int,
{
    if i >= s.len() {
        return None;
    }
    let parsed_key = parse_text_x(s, i);
    match parsed_key {
        None => None,
        Some((key, j)) => {
            let c = skip_ws_x(s, j);
            if c < s.len() && s[c] == COLON {
                let w = skip_ws_x(s, c + 1);
                match parse_value_x(s, w) {
                    None => None,
                    Some((val, k)) => {
                        let a = skip_ws_x(s, k);
                        if a < s.len() && s[a] == RBRACE {
                            let ghost gm = (key@, val.model());
                            let mut ms: Vec<(Vec<u8>, Json)> = Vec::new();
                            ms.push((key, val));
                            proof {
                                lemma_model_members(ms@);
                                assert(model_members(ms@) =~= seq![gm]);
                            }
                            Some((ms, a + 1))
                        } else if a < s.len() && s[a] == COMMA {
                            let n = skip_ws_x(s, a + 1);
                            match parse_members_x(s, n) {
                                Some((rest, e)) => {
                                    let ghost gm = (key@, val.model());
                                    let mut ms: Vec<(Vec<u8>, Json)> = Vec::new();
                                    ms.push((key, val));
                                    proof {
                                        lemma_model_members(ms@);
                                        assert(model_members(ms@) =~= seq![gm]);
                                    }
                                    let ghost ghead = ms@;
                                    let mut rest_v = rest;
                                    let ghost grest_seq = rest_v@;
                                    ms.append(&mut rest_v);
                                    proof {
                                        lemma_model_members(ms@);
                                        lemma_model_members(ghead);
                                        lemma_model_members(grest_seq);
                                        assert forall|t: int| 0 <= t < ms@.len() implies #[trigger]
                                        model_members(ms@)[t] == (seq![gm] + model_members(
                                            grest_seq,
                                        ))[t] by {
                                            if t == 0 {
                                                assert(ms@[0] == ghead[0]);
                                            } else {
                                                assert(ms@[t] == grest_seq[t - 1]);
                                            }
                                        }
                                        assert(model_members(ms@) =~= seq![gm] + model_members(
                                            grest_seq,
                                        ));
                                    }
                                    Some((ms, e))
                                },
                                None => None,
                            }
                        } else {
                            None
                        }
                    },
                }
            } else {
                None
            }
        },
    }
}

/// The items of a non-empty array, as `parse_items` says.
pub fn parse_items_x(s: &Vec<u8>, i: usize) -> (r: Option<(Vec<Json>, usize)>)
    requires
        i <= s@.len(),
    ensures
        match r {
            Some((items, n)) => parse_items(s@, i as int) == Some((model_seq(items@), n as int))
                && i < n <= s@.len(),
            None => parse_items(s@, i as int) is None,
        },
    decreases s@.len() - i, 2int,
{
    match parse_value_x(s, i) {
        None => None,
        Some((val, k)) => {
            let a = skip_ws_x(s, k);
            if a < s.len() && s[a] == RBRACKET {
                let ghost gv = val.model();
                let mut items: Vec<Json> = Vec::new();
                items.push(val);
                proof {
                    lemma_model_seq(items@);
                    assert(model_seq(items@) =~= seq![gv]);
                }
                Some((items, a + 1))
            } else if a < s.len() && s[a] == COMMA {
                let n = skip_ws_x(s, a + 1);
                match parse_items_x(s, n) {
                    Some((rest, e)) => {
                        let ghost gv = val.model();
                        let mut items: Vec<Json> = Vec::new();
                        items.push(val);
                        proof {
                            lemma_model_seq(items@);
                            assert(model_seq(items@) =~= seq![gv]);
                        }
                        let ghost ghead = items@;
                        let mut rest_v = rest;
                        let ghost grest_seq = rest_v@;
                        items.append(&mut rest_v);
                        proof {
                            lemma_model_seq(items@);
                            lemma_model_seq(ghead);
                            lemma_model_seq(grest_seq);
                            assert forall|t: int| 0 <= t < items@.len() implies #[trigger] model_seq(
                                items@,
                            )[t] == (seq![gv] + model_seq(grest_seq))[t] by {
                                if t == 0 {
                                    assert(items@[0] == ghead[0]);
                                } else {
                                    assert(items@[t] == grest_seq[t - 1]);
                                }
                            }
                            assert(model_seq(items@) =~= seq![gv] + model_seq(grest_seq));
                        }
                        Some((items, e))
                    },
                    None => None,
                }
            } else {
                None
            }
        },
    }
}

/// The whole document, as `parse_doc` says.
pub fn parse_doc_x(s: &Vec<u8>) -> (r: Option<Json>)
    ensures
        match r {
            Some(j) => parse_doc(s@) == Some(j.model()),
            None => parse_doc(s@) is None,
        },
{
    let i = skip_ws_x(s, 0);
    match parse_value_x(s, i) {
        Some((j, n)) => {
            let e = skip_ws_x(s, n);
            if e == s.len() {
                Some(j)
            } else {
                None
            }
        },
        None => None,
    }
}

} // verus!
