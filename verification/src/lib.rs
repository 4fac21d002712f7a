use vstd::prelude::*;

pub mod model;
pub mod number;
pub mod parser;
pub mod render;
pub mod slice_iter;
pub mod string;
mod trusted;

use model::SpecError;
use model::SpecValue;

verus! {

broadcast use vstd::std_specs::vec::axiom_vec_decreases_to_view, vstd::seq::axiom_seq_index_decreases;

/// A violation of the JSON grammar, found while parsing.
#[derive(Debug, PartialEq)]
pub enum ParseError {
    ExpectedEndOfArray { found: Option<char> },
    ExpectedEndOfObject { found: Option<char> },
    ExpectedNextValue { found: Option<char> },
    ExpectedColon { found: Option<char> },
    InvalidNumberLiteral,
    InvalidStringEscape,
    InvalidUtf8 { string: String },
    StringQuote { found: Option<char> },
    UnexpectedEndOfFile,
}

impl View for ParseError {
    type V = SpecError;

    open spec fn view(&self) -> SpecError {
        match *self {
            ParseError::ExpectedEndOfArray { found } => SpecError::ExpectedEndOfArray { found },
            ParseError::ExpectedEndOfObject { found } => SpecError::ExpectedEndOfObject { found },
            ParseError::ExpectedNextValue { found } => SpecError::ExpectedNextValue { found },
            ParseError::ExpectedColon { found } => SpecError::ExpectedColon { found },
            ParseError::InvalidNumberLiteral => SpecError::InvalidNumberLiteral,
            ParseError::InvalidStringEscape => SpecError::InvalidStringEscape,
            ParseError::InvalidUtf8 { string } => SpecError::InvalidUtf8 { string: string@ },
            ParseError::StringQuote { found } => SpecError::StringQuote { found },
            ParseError::UnexpectedEndOfFile => SpecError::UnexpectedEndOfFile,
        }
    }
}

/// What `parse` reports when it fails: an input too large to parse at all,
/// or a grammar violation together with a bounded snippet of the unconsumed
/// input.
#[derive(Debug, PartialEq)]
pub enum JsonError {
    FileTooLong { len: usize },
    ParseError(ParseError, String),
}

pub type JsonResult<T> = Result<T, ParseError>;

/// The storage of one parsed object: entries in insertion order, keys
/// unique.
pub type JsonObject = Vec<(Vec<u8>, JsonValue)>;

/// A parsed JSON value. `Object` keeps its entries in insertion order with
/// unique keys; `String` holds validated UTF-8 bytes; `Number` holds the
/// bytes of the decimal literal, checked to parse as a 64-bit float.
#[derive(Debug, PartialEq)]
pub enum JsonValue {
    Object(JsonObject),
    Array(Vec<JsonValue>),
    String(Vec<u8>),
    Number(Vec<u8>),
    Boolean(bool),
    Null,
}

/// The abstraction of a `JsonValue` tree as a `SpecValue`.
pub open spec fn value_view(v: JsonValue) -> SpecValue
    decreases v, 1int,
{
    match v {
        JsonValue::Object(entries) => SpecValue::Object(entries_view(entries@)),
        JsonValue::Array(items) => SpecValue::Array(items_view(items@)),
        JsonValue::String(bytes) => SpecValue::String(bytes@),
        JsonValue::Number(lit) => SpecValue::Number(lit@),
        JsonValue::Boolean(b) => SpecValue::Boolean(b),
        JsonValue::Null => SpecValue::Null,
    }
}

/// The abstraction of a vector of parsed array items.
pub open spec fn items_view(s: Seq<JsonValue>) -> Seq<SpecValue>
    decreases s, 0int,
{
    if s.len() == 0 {
        Seq::empty()
    } else {
        seq![value_view(s[0])] + items_view(s.drop_first())
    }
}

/// The abstraction of a vector of parsed object entries.
pub open spec fn entries_view(s: Seq<(Vec<u8>, JsonValue)>) -> Seq<(Seq<u8>, SpecValue)>
    decreases s, 0int,
{
    if s.len() == 0 {
        Seq::empty()
    } else {
        seq![(s[0].0@, value_view(s[0].1))] + entries_view(s.drop_first())
    }
}

/// `items_view` abstracts the vector element by element.
pub proof fn lemma_items_view(s: Seq<JsonValue>)
    ensures
        items_view(s).len() == s.len(),
        forall|i: int| 0 <= i < s.len() ==> items_view(s)[i] == value_view(s[i]),
    decreases s.len(),
{
    if s.len() > 0 {
        lemma_items_view(s.drop_first());
    }
}

pub proof fn lemma_items_view_push(s: Seq<JsonValue>, v: JsonValue)
    ensures
        items_view(s.push(v)) == items_view(s).push(value_view(v)),
{
    lemma_items_view(s);
    lemma_items_view(s.push(v));
    assert(items_view(s.push(v)) =~= items_view(s).push(value_view(v)));
}

/// `entries_view` abstracts the vector entry by entry.
pub proof fn lemma_entries_view(s: Seq<(Vec<u8>, JsonValue)>)
    ensures
        entries_view(s).len() == s.len(),
        forall|i: int|
            0 <= i < s.len() ==> #[trigger] entries_view(s)[i] == (s[i].0@, value_view(s[i].1)),
    decreases s.len(),
{
    if s.len() > 0 {
        lemma_entries_view(s.drop_first());
    }
}

pub proof fn lemma_entries_view_push(s: Seq<(Vec<u8>, JsonValue)>, key: Vec<u8>, val: JsonValue)
    ensures
        entries_view(s.push((key, val))) == entries_view(s).push((key@, value_view(val))),
{
    lemma_entries_view(s);
    lemma_entries_view(s.push((key, val)));
    assert(entries_view(s.push((key, val))) =~= entries_view(s).push((key@, value_view(val))));
}

pub proof fn lemma_entries_view_update(
    s: Seq<(Vec<u8>, JsonValue)>,
    i: int,
    key: Vec<u8>,
    val: JsonValue,
)
    requires
        0 <= i < s.len(),
    ensures
        entries_view(s.update(i, (key, val))) == entries_view(s).update(
            i,
            (key@, value_view(val)),
        ),
{
    lemma_entries_view(s);
    lemma_entries_view(s.update(i, (key, val)));
    assert(entries_view(s.update(i, (key, val))) =~= entries_view(s).update(
        i,
        (key@, value_view(val)),
    ));
}

impl View for JsonValue {
    type V = SpecValue;

    open spec fn view(&self) -> SpecValue {
        value_view(*self)
    }
}

/// Consumes the whitespace at the cursor.
pub fn ignore_ws(json: &mut slice_iter::SliceIter<u8>)
    requires
        old(json).wf(),
    ensures
        final(json).wf(),
        final(json).bytes() == old(json).bytes(),
        final(json).pos() == model::skip_ws(old(json).bytes(), old(json).pos()),
{
    let ghost s = old(json).bytes();
    let ghost start = old(json).pos();
    loop
        invariant
            json.wf(),
            s == old(json).bytes(),
            start == old(json).pos(),
            json.bytes() == s,
            start <= json.pos() <= s.len(),
            forall|k: int| start <= k < json.pos() ==> model::is_ws(s[k]),
        ensures
            json.wf(),
            json.bytes() == s,
            start <= json.pos() <= s.len(),
            forall|k: int| start <= k < json.pos() ==> model::is_ws(s[k]),
            json.pos() == s.len() || !model::is_ws(s[json.pos()]),
        decreases s.len() - json.pos(),
    {
        match json.peek_copy() {
            Some(b) => {
                if is_whitespace(b) {
                    json.ignore_next();
                } else {
                    break ;
                }
            },
            None => {
                break ;
            },
        }
    }
    proof {
        model::lemma_skip_ws_from(s, start, json.pos());
    }
}

pub fn is_whitespace(c: u8) -> (r: bool)
    ensures
        r == model::is_ws(c),
{
    c == 0x0020 || c == 0x000a || c == 0x000d || c == 0x0009
}

pub fn is_string(c: u8) -> (r: bool)
    ensures
        r == (c == 0x22),
{
    c == 0x22
}

pub fn is_object(c: u8) -> (r: bool)
    ensures
        r == (c == 0x7b),
{
    c == 0x7b
}

pub fn is_array(c: u8) -> (r: bool)
    ensures
        r == (c == 0x5b),
{
    c == 0x5b
}

pub fn is_number(c: u8) -> (r: bool)
    ensures
        r == (model::is_digit(c) || c == 0x2d),
{
    (c >= 0x30 && c <= 0x39) || c == 0x2d
}

/// Parses one JSON value from the front of `json_buf`. Inputs of
/// `0x20000000` bytes or more are rejected unread; on a grammar violation
/// the error carries a bounded snippet of the unconsumed input.
pub fn parse(json_buf: &[u8]) -> (r: Result<JsonValue, JsonError>)
    ensures
        json_buf@.len() >= model::size_cap() ==> (r matches Err(JsonError::FileTooLong { len })
            && len == json_buf@.len()),
        json_buf@.len() < model::size_cap() ==> match model::spec_parse(json_buf@) {
            Ok((sv, k)) => r matches Ok(v) && value_view(v) == sv,
            Err((se, k)) => (r matches Err(e) && e matches JsonError::ParseError(pe, snip) && pe@
                == se && snip@ == model::spec_snippet(json_buf@, k)),
        },
{
    if json_buf.len() >= 0x20000000 {
        return Err(JsonError::FileTooLong { len: json_buf.len() });
    }
    let ghost s = json_buf@;
    let mut json = slice_iter::SliceIter::new(json_buf);
    ignore_ws(&mut json);
    proof {
        model::lemma_skip_ws_bounds(s, 0);
        assert(model::skip_ws(s, json.pos()) == json.pos());
    }
    match parser::parse_value(&mut json) {
        Ok(v) => Ok(v),
        Err(e) => {
            let rem_len = json.remaining();
            let snippet: String;
            if rem_len >= 500 {
                let head = json.peek_many_ref(500).unwrap();
                let mut text = trusted::lossy_string(head);
                text.append("\u{2026}");
                proof {
                    assert(s.subrange(json.pos(), s.len() as int).take(500) =~= s.subrange(
                        json.pos(),
                        json.pos() + 500,
                    ));
                    assert("\u{2026}"@ =~= seq!['\u{2026}']) by {
                        reveal_strlit("\u{2026}");
                    }
                }
                snippet = text;
            } else {
                let rest = json.peek_many_ref(rem_len).unwrap();
                snippet = trusted::lossy_string(rest);
                proof {
                    assert(s.subrange(json.pos(), s.len() as int) =~= s.subrange(
                        json.pos(),
                        json.pos() + rem_len,
                    ));
                }
            }
            Err(JsonError::ParseError(e, snippet))
        },
    }
}

/// Owns the parsed tree; created with a `Null` root, filled by
/// `parse_slice`.
pub struct JsonDocument {
    pub root: JsonValue,
}

impl JsonDocument {
    /// A document with nothing parsed into it yet.
    pub fn init() -> (r: Self)
        ensures
            r.root == JsonValue::Null,
    {
        Self { root: JsonValue::Null }
    }

    /// Parses `slice` and stores the result as this document's root; the
    /// root is left unchanged when parsing fails.
    pub fn parse_slice<'a>(&'a mut self, slice: &[u8]) -> (r: Result<&'a JsonValue, JsonError>)
        ensures
            slice@.len() >= model::size_cap() ==> (r matches Err(JsonError::FileTooLong { len })
                && len == slice@.len() && final(self).root == old(self).root),
            slice@.len() < model::size_cap() ==> match model::spec_parse(slice@) {
                Ok((sv, k)) => (r matches Ok(v) && *v == final(self).root && value_view(
                    final(self).root,
                ) == sv),
                Err((se, k)) => (r matches Err(e) && e matches JsonError::ParseError(pe, snip)
                    && pe@ == se && snip@ == model::spec_snippet(slice@, k) && final(self).root
                    == old(self).root),
            },
    {
        match parse(slice) {
            Ok(v) => {
                self.root = v;
                Ok(&self.root)
            },
            Err(e) => Err(e),
        }
    }
}

} // verus!
