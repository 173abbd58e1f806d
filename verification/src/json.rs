//! The JSON document model.
//!
//! A document is kept exactly as it stands on the wire: numbers and string
//! contents are raw byte runs (escape sequences included), so re-encoding a
//! document reproduces every member the transform did not touch byte for
//! byte, and no floating point is ever interpreted.  Object members keep
//! their insertion order.

use vstd::prelude::*;

verus! {

// The bytes of the grammar, named: Verus takes no byte-character literals.
pub const QUOTE: u8 = 34;
pub const BACKSLASH: u8 = 92;
pub const SLASH: u8 = 47;
pub const LBRACE: u8 = 123;
pub const RBRACE: u8 = 125;
pub const LBRACKET: u8 = 91;
pub const RBRACKET: u8 = 93;
pub const COMMA: u8 = 44;
pub const COLON: u8 = 58;
pub const MINUS: u8 = 45;
pub const PLUS: u8 = 43;
pub const DOT: u8 = 46;
pub const SPACE: u8 = 32;
pub const TAB: u8 = 9;
pub const NEWLINE: u8 = 10;
pub const RETURN: u8 = 13;
pub const DIGIT_0: u8 = 48;
pub const DIGIT_9: u8 = 57;
pub const BIG_A: u8 = 65;
pub const BIG_E: u8 = 69;
pub const BIG_F: u8 = 70;
pub const LET_A: u8 = 97;
pub const LET_B: u8 = 98;
pub const LET_C: u8 = 99;
pub const LET_D: u8 = 100;
pub const LET_E: u8 = 101;
pub const LET_F: u8 = 102;
pub const LET_H: u8 = 104;
pub const LET_L: u8 = 108;
pub const LET_M: u8 = 109;
pub const LET_N: u8 = 110;
pub const LET_O: u8 = 111;
pub const LET_R: u8 = 114;
pub const LET_S: u8 = 115;
pub const LET_T: u8 = 116;
pub const LET_U: u8 = 117;
pub const LET_W: u8 = 119;
pub const LET_X: u8 = 120;

/// A JSON value, as exchanged with the host.
///
/// `Number` holds the literal's bytes unparsed; `Text` holds the bytes
/// between the quotes, escapes left as written.  An object is an ordered
/// list of `(raw key, value)` members.
#[derive(Debug, PartialEq, Eq)]
pub enum Json {
    Null,
    Bool(bool),
    Number(Vec<u8>),
    Text(Vec<u8>),
    Array(Vec<Json>),
    Object(Vec<(Vec<u8>, Json)>),
}

/// The mathematical mirror of `Json`, over `Seq<u8>`.
pub enum JsonV {
    Null,
    Bool(bool),
    Number(Seq<u8>),
    Text(Seq<u8>),
    Array(Seq<JsonV>),
    Object(Seq<(Seq<u8>, JsonV)>),
}

pub open spec fn model_seq(items: Seq<Json>) -> Seq<JsonV>
    decreases items, 0int,
{
    if items.len() == 0 {
        Seq::empty()
    } else {
        seq![items[0].model()] + model_seq(items.skip(1))
    }
}

pub open spec fn model_members(ms: Seq<(Vec<u8>, Json)>) -> Seq<(Seq<u8>, JsonV)>
    decreases ms, 0int,
{
    if ms.len() == 0 {
        Seq::empty()
    } else {
        seq![(ms[0].0@, ms[0].1.model())] + model_members(ms.skip(1))
    }
}

impl Json {
    /// What this value is, mathematically.
    pub open spec fn model(self) -> JsonV
        decreases self, 1int,
    {
        match self {
            Json::Null => JsonV::Null,
            Json::Bool(b) => JsonV::Bool(b),
            Json::Number(r) => JsonV::Number(r@),
            Json::Text(r) => JsonV::Text(r@),
            Json::Array(items) => JsonV::Array(model_seq(items@)),
            Json::Object(ms) => JsonV::Object(model_members(ms@)),
        }
    }
}

/// `model_seq` maps the sequence elementwise.
pub broadcast proof fn lemma_model_seq(items: Seq<Json>)
    ensures
        (#[trigger] model_seq(items)).len() == items.len(),
        forall|i: int| 0 <= i < items.len() ==> model_seq(items)[i] == items[i].model(),
    decreases items.len(),
{
    if items.len() > 0 {
        lemma_model_seq(items.skip(1));
    }
}

/// `model_members` maps the member list elementwise.
pub broadcast proof fn lemma_model_members(ms: Seq<(Vec<u8>, Json)>)
    ensures
        (#[trigger] model_members(ms)).len() == ms.len(),
        forall|i: int|
            0 <= i < ms.len() ==> model_members(ms)[i] == (ms[i].0@, ms[i].1.model()),
    decreases ms.len(),
{
    if ms.len() > 0 {
        lemma_model_members(ms.skip(1));
    }
}

// ---------------------------------------------------------------------------
// Byte classes of the JSON grammar.
// ---------------------------------------------------------------------------

pub open spec fn is_ws(b: u8) -> bool {
    b == SPACE || b == TAB || b == NEWLINE || b == RETURN
}

pub open spec fn is_digit(b: u8) -> bool {
    DIGIT_0 <= b && b <= DIGIT_9
}

/// Bytes a number literal may consist of.
pub open spec fn is_numchar(b: u8) -> bool {
    is_digit(b) || b == MINUS || b == PLUS || b == DOT || b == LET_E || b == BIG_E
}

/// Bytes a number literal may start with.
pub open spec fn is_numstart(b: u8) -> bool {
    is_digit(b) || b == MINUS
}

pub open spec fn is_hex(b: u8) -> bool {
    is_digit(b) || (LET_A <= b && b <= LET_F) || (BIG_A <= b && b <= BIG_F)
}

/// The escapes of one letter: `\"`, `\\`, `\/`, `\b`, `\f`, `\n`, `\r`, `\t`.
pub open spec fn is_simple_escape(b: u8) -> bool {
    b == QUOTE || b == BACKSLASH || b == SLASH || b == LET_B || b == LET_F || b == LET_N
        || b == LET_R || b == LET_T
}

// ---------------------------------------------------------------------------
// Well-formedness: what the parser produces and the serializer expects.
// ---------------------------------------------------------------------------

/// Raw string content is well formed when every backslash starts a complete
/// escape and no unescaped quote or control byte appears.
pub open spec fn wf_text(r: Seq<u8>) -> bool
    decreases r.len(),
{
    if r.len() == 0 {
        true
    } else if r[0] == BACKSLASH {
        if r.len() >= 2 && is_simple_escape(r[1]) {
            wf_text(r.skip(2))
        } else if r.len() >= 6 && r[1] == LET_U && is_hex(r[2]) && is_hex(r[3]) && is_hex(r[4])
            && is_hex(r[5]) {
            wf_text(r.skip(6))
        } else {
            false
        }
    } else if r[0] == QUOTE || r[0] < 0x20 {
        false
    } else {
        wf_text(r.skip(1))
    }
}

/// A number literal: non-empty, starts like a number, made of number bytes.
pub open spec fn wf_number(r: Seq<u8>) -> bool {
    &&& r.len() > 0
    &&& is_numstart(r[0])
    &&& forall|i: int| 0 <= i < r.len() ==> is_numchar(#[trigger] r[i])
}

/// A value the serializer can re-encode losslessly.
pub open spec fn wf(v: JsonV) -> bool
    decreases v,
{
    match v {
        JsonV::Null => true,
        JsonV::Bool(_) => true,
        JsonV::Number(r) => wf_number(r),
        JsonV::Text(r) => wf_text(r),
        JsonV::Array(items) => forall|i: int| 0 <= i < items.len() ==> wf(#[trigger] items[i]),
        JsonV::Object(ms) => forall|i: int|
            0 <= i < ms.len() ==> wf_text((#[trigger] ms[i]).0) && wf(ms[i].1),
    }
}

// ---------------------------------------------------------------------------
// Serialization: the canonical compact encoding.
// ---------------------------------------------------------------------------

pub open spec fn lit_null() -> Seq<u8> {
    seq![LET_N, LET_U, LET_L, LET_L]
}

pub open spec fn lit_true() -> Seq<u8> {
    seq![LET_T, LET_R, LET_U, LET_E]
}

pub open spec fn lit_false() -> Seq<u8> {
    seq![LET_F, LET_A, LET_L, LET_S, LET_E]
}

/// The encoding of a value: no whitespace, members in their stored order.
pub open spec fn ser(v: JsonV) -> Seq<u8>
    decreases v, 1int, 0int,
{
    match v {
        JsonV::Null => lit_null(),
        JsonV::Bool(b) => if b {
            lit_true()
        } else {
            lit_false()
        },
        JsonV::Number(r) => r,
        JsonV::Text(r) => seq![QUOTE] + r + seq![QUOTE],
        JsonV::Array(items) => seq![LBRACKET] + ser_items(items, 0) + seq![RBRACKET],
        JsonV::Object(ms) => seq![LBRACE] + ser_members(ms, 0) + seq![RBRACE],
    }
}

/// The items of an array from index `i` on, comma-separated.
pub open spec fn ser_items(items: Seq<JsonV>, i: int) -> Seq<u8>
    decreases items, 0int, items.len() - i,
{
    if i < 0 || i >= items.len() {
        Seq::empty()
    } else if i == items.len() - 1 {
        ser(items[i])
    } else {
        ser(items[i]) + seq![COMMA] + ser_items(items, i + 1)
    }
}

/// The members of an object from index `i` on: `"key":value`, comma-separated.
pub open spec fn ser_members(ms: Seq<(Seq<u8>, JsonV)>, i: int) -> Seq<u8>
    decreases ms, 0int, ms.len() - i,
{
    if i < 0 || i >= ms.len() {
        Seq::empty()
    } else if i == ms.len() - 1 {
        ser_one_member(ms[i])
    } else {
        ser_one_member(ms[i]) + seq![COMMA] + ser_members(ms, i + 1)
    }
}

pub open spec fn ser_one_member(m: (Seq<u8>, JsonV)) -> Seq<u8>
    decreases m, 1int, 0int,
{
    seq![QUOTE] + m.0 + seq![QUOTE, COLON] + ser(m.1)
}

// ---------------------------------------------------------------------------
// The executable serializer.
// ---------------------------------------------------------------------------

/// Appends the bytes of `r` to `out`.
fn append_bytes(out: &mut Vec<u8>, r: &Vec<u8>)
    ensures
        final(out)@ == old(out)@ + r@,
{
    let mut k: usize = 0;
    while k < r.len()
        invariant
            k <= r.len(),
            out@ == old(out)@ + r@.subrange(0, k as int),
        decreases r.len() - k,
    {
        out.push(r[k]);
        proof {
            assert(out@ =~= old(out)@ + r@.subrange(0, k + 1 as int));
        }
        k = k + 1;
    }
    proof {
        assert(out@ =~= old(out)@ + r@);
    }
}

/// Encodes `j` to its compact wire form.
pub fn serialize(j: &Json) -> (out: Vec<u8>)
    ensures
        out@ == ser(j.model()),
{
    let mut out: Vec<u8> = Vec::new();
    serialize_into(j, &mut out);
    proof {
        assert(out@ =~= ser(j.model()));
    }
    out
}

fn serialize_into(j: &Json, out: &mut Vec<u8>)
    ensures
        final(out)@ == old(out)@ + ser(j.model()),
    decreases *j, 1int, 0int,
{
    match j {
        Json::Null => {
            out.push(LET_N);
            out.push(LET_U);
            out.push(LET_L);
            out.push(LET_L);
            proof {
                assert(out@ =~= old(out)@ + lit_null());
            }
        },
        Json::Bool(b) => {
            if *b {
                out.push(LET_T);
                out.push(LET_R);
                out.push(LET_U);
                out.push(LET_E);
                proof {
                    assert(out@ =~= old(out)@ + lit_true());
                }
            } else {
                out.push(LET_F);
                out.push(LET_A);
                out.push(LET_L);
                out.push(LET_S);
                out.push(LET_E);
                proof {
                    assert(out@ =~= old(out)@ + lit_false());
                }
            }
        },
        Json::Number(r) => {
            append_bytes(out, r);
        },
        Json::Text(r) => {
            out.push(QUOTE);
            append_bytes(out, r);
            out.push(QUOTE);
            proof {
                assert(out@ =~= old(out)@ + (seq![QUOTE] + r@ + seq![QUOTE]));
            }
        },
        Json::Array(items) => {
            out.push(LBRACKET);
            serialize_items(items, 0, out);
            out.push(RBRACKET);
            proof {
                assert(out@ =~= old(out)@ + (seq![LBRACKET] + ser_items(model_seq(items@), 0)
                    + seq![RBRACKET]));
            }
        },
        Json::Object(ms) => {
            out.push(LBRACE);
            serialize_members(ms, 0, out);
            out.push(RBRACE);
            proof {
                assert(out@ =~= old(out)@ + (seq![LBRACE] + ser_members(model_members(ms@), 0)
                    + seq![RBRACE]));
            }
        },
    }
}

fn serialize_items(items: &Vec<Json>, i: usize, out: &mut Vec<u8>)
    ensures
        final(out)@ == old(out)@ + ser_items(model_seq(items@), i as int),
    decreases *items, 0int, items@.len() - i,
{
    if i >= items.len() {
        proof {
            lemma_model_seq(items@);
            assert(old(out)@ + ser_items(model_seq(items@), i as int) =~= out@);
        }
        return ;
    }
    serialize_into(&items[i], out);
    proof {
        lemma_model_seq(items@);
        assert(model_seq(items@)[i as int] == items@[i as int].model());
    }
    if i + 1 < items.len() {
        out.push(COMMA);
        serialize_items(items, i + 1, out);
        proof {
            assert(out@ =~= old(out)@ + (ser(items@[i as int].model()) + seq![COMMA] + ser_items(
                model_seq(items@),
                i + 1 as int,
            )));
        }
    } else {
        proof {
            assert(i as int == model_seq(items@).len() - 1);
        }
    }
}

fn serialize_members(ms: &Vec<(Vec<u8>, Json)>, i: usize, out: &mut Vec<u8>)
    ensures
        final(out)@ == old(out)@ + ser_members(model_members(ms@), i as int),
    decreases *ms, 0int, ms@.len() - i,
{
    if i >= ms.len() {
        proof {
            lemma_model_members(ms@);
            assert(old(out)@ + ser_members(model_members(ms@), i as int) =~= out@);
        }
        return ;
    }
    out.push(QUOTE);
    append_bytes(out, &ms[i].0);
    out.push(QUOTE);
    out.push(COLON);
    serialize_into(&ms[i].1, out);
    proof {
        lemma_model_members(ms@);
        assert(model_members(ms@)[i as int] == (ms@[i as int].0@, ms@[i as int].1.model()));
        assert(out@ =~= old(out)@ + ser_one_member(model_members(ms@)[i as int]));
    }
    if i + 1 < ms.len() {
        out.push(COMMA);
        serialize_members(ms, i + 1, out);
        proof {
            assert(out@ =~= old(out)@ + (ser_one_member(model_members(ms@)[i as int])
                + seq![COMMA] + ser_members(model_members(ms@), i + 1 as int)));
        }
    } else {
        proof {
            assert(i as int == model_members(ms@).len() - 1);
        }
    }
}

} // verus!
