//! The recursive-descent value parser: dispatch on the next significant byte,
//! array and object element loops, and literal matching.

use vstd::prelude::*;

use crate::entries_view;
use crate::ignore_ws;
use crate::items_view;
use crate::lemma_entries_view;
use crate::lemma_entries_view_push;
use crate::lemma_entries_view_update;
use crate::lemma_items_view_push;
use crate::model::lemma_spec_string_advances;
use crate::model::lemma_spec_value_advances;
use crate::model::lemma_upsert_found;
use crate::model::lemma_upsert_missing;
use crate::model::spec_array_body;
use crate::model::spec_array_items;
use crate::model::spec_object_body;
use crate::model::spec_object_items;
use crate::model::spec_value;
use crate::model::upsert;
use crate::model::SpecValue;
use crate::number::read_number;
use crate::slice_iter::SliceIter;
use crate::string::read_string;
use crate::value_view;
use crate::JsonResult;
use crate::JsonValue;
use crate::ParseError;

verus! {

broadcast use crate::model::lemma_skip_ws_bounds;

/// Whether two byte vectors hold the same bytes.
fn bytes_eq(a: &Vec<u8>, b: &Vec<u8>) -> (r: bool)
    ensures
        r == (a@ == b@),
{
    if a.len() != b.len() {
        return false;
    }
    let mut i: usize = 0;
    while i < a.len()
        invariant
            0 <= i <= a@.len(),
            a@.len() == b@.len(),
            forall|k: int| 0 <= k < i ==> a@[k] == b@[k],
        decreases a@.len() - i,
    {
        if a[i] != b[i] {
            return false;
        }
        i = i + 1;
    }
    proof {
        assert(a@ =~= b@);
    }
    true
}

/// Inserts `(key, val)`, overwriting the value of an existing equal key.
fn insert_entry(contents: &mut Vec<(Vec<u8>, JsonValue)>, key: Vec<u8>, val: JsonValue)
    ensures
        entries_view(final(contents)@) == upsert(
            entries_view(old(contents)@),
            key@,
            value_view(val),
        ),
{
    let ghost m0 = old(contents)@;
    let mut idx: usize = 0;
    while idx < contents.len()
        invariant
            m0 == old(contents)@,
            contents@ == m0,
            0 <= idx <= m0.len(),
            forall|k: int| 0 <= k < idx ==> #[trigger] m0[k].0@ != key@,
        decreases m0.len() - idx,
    {
        if bytes_eq(&contents[idx].0, &key) {
            let ghost ki = idx as int;
            contents[idx] = (key, val);
            proof {
                lemma_entries_view(m0);
                lemma_entries_view_update(m0, ki, key, val);
                lemma_upsert_found(entries_view(m0), key@, value_view(val), ki);
            }
            return ;
        }
        idx = idx + 1;
    }
    contents.push((key, val));
    proof {
        lemma_entries_view(m0);
        lemma_entries_view_push(m0, key, val);
        lemma_upsert_missing(entries_view(m0), key@, value_view(val));
    }
}

/// Parses one JSON value beginning at the next significant byte.
pub(crate) fn parse_value(json: &mut SliceIter<u8>) -> (r: JsonResult<JsonValue>)
    requires
        old(json).wf(),
    ensures
        final(json).wf(),
        final(json).bytes() == old(json).bytes(),
        match spec_value(old(json).bytes(), old(json).pos()) {
            Ok((sv, k)) => r matches Ok(v) && value_view(v) == sv && final(json).pos() == k,
            Err((se, k)) => r matches Err(e) && e@ == se && final(json).pos() == k,
        },
    decreases old(json).bytes().len() - old(json).pos(), 0int,
{
    let ghost s = old(json).bytes();
    let ghost start = old(json).pos();
    ignore_ws(json);
    let c = match json.peek_copy() {
        Some(c) => c,
        None => {
            return Err(ParseError::UnexpectedEndOfFile);
        },
    };
    if c == 0x22 {
        match read_string(json) {
            Ok(b) => Ok(JsonValue::String(b)),
            Err(e) => Err(e),
        }
    } else if (0x30 <= c && c <= 0x39) || c == 0x2d {
        match read_number(json) {
            Ok(lit) => Ok(JsonValue::Number(lit)),
            Err(e) => Err(e),
        }
    } else if c == 0x5b {
        json.ignore_next();
        parse_array_body(json)
    } else if c == 0x7b {
        json.ignore_next();
        parse_object_body(json)
    } else {
        if let Some(four) = json.peek_many_ref(4) {
            if four[0] == 0x74 && four[1] == 0x72 && four[2] == 0x75 && four[3] == 0x65 {
                json.ignore_many(4);
                return Ok(JsonValue::Boolean(true));
            }
            if four[0] == 0x6e && four[1] == 0x75 && four[2] == 0x6c && four[3] == 0x6c {
                json.ignore_many(4);
                return Ok(JsonValue::Null);
            }
        }
        if let Some(five) = json.peek_many_ref(5) {
            if five[0] == 0x66 && five[1] == 0x61 && five[2] == 0x6c && five[3] == 0x73 && five[4]
                == 0x65 {
                json.ignore_many(5);
                return Ok(JsonValue::Boolean(false));
            }
        }
        let f = json.next();
        let found = match f {
            Some(b) => Some(b as char),
            None => None,
        };
        Err(ParseError::ExpectedNextValue { found })
    }
}

/// Parses the remainder of an array, the opening bracket already consumed.
fn parse_array_body(json: &mut SliceIter<u8>) -> (r: JsonResult<JsonValue>)
    requires
        old(json).wf(),
    ensures
        final(json).wf(),
        final(json).bytes() == old(json).bytes(),
        match spec_array_body(old(json).bytes(), old(json).pos()) {
            Ok((sv, k)) => r matches Ok(v) && value_view(v) == sv && final(json).pos() == k,
            Err((se, k)) => r matches Err(e) && e@ == se && final(json).pos() == k,
        },
    decreases old(json).bytes().len() - old(json).pos(), 2int,
{
    let ghost s = old(json).bytes();
    let ghost start = old(json).pos();
    ignore_ws(json);
    let c = match json.peek_copy() {
        Some(c) => c,
        None => {
            return Err(ParseError::UnexpectedEndOfFile);
        },
    };
    if c == 0x5d {
        json.ignore_next();
        let empty: Vec<JsonValue> = Vec::new();
        return Ok(JsonValue::Array(empty));
    }
    let mut contents: Vec<JsonValue> = Vec::new();
    loop
        invariant
            json.wf(),
            s == old(json).bytes(),
            start == old(json).pos(),
            json.bytes() == s,
            0 <= start <= json.pos() <= s.len(),
            spec_array_body(s, start) == spec_array_items(s, json.pos(), items_view(contents@)),
        decreases s.len() - json.pos(),
    {
        let ghost p0 = json.pos();
        let ghost acc0 = items_view(contents@);
        ignore_ws(json);
        let ghost j1 = json.pos();
        let v = match parse_value(json) {
            Ok(v) => v,
            Err(e) => {
                return Err(e);
            },
        };
        proof {
            lemma_spec_value_advances(s, j1);
        }
        let ghost prepush = contents@;
        contents.push(v);
        proof {
            lemma_items_view_push(prepush, v);
        }
        ignore_ws(json);
        match json.next() {
            None => {
                return Err(ParseError::ExpectedEndOfArray { found: None });
            },
            Some(t) => {
                if t == 0x5d {
                    return Ok(JsonValue::Array(contents));
                } else if t == 0x2c {
                } else {
                    return Err(ParseError::ExpectedEndOfArray { found: Some(t as char) });
                }
            },
        }
    }
}

/// Parses the remainder of an object, the opening brace already consumed.
fn parse_object_body(json: &mut SliceIter<u8>) -> (r: JsonResult<JsonValue>)
    requires
        old(json).wf(),
    ensures
        final(json).wf(),
        final(json).bytes() == old(json).bytes(),
        match spec_object_body(old(json).bytes(), old(json).pos()) {
            Ok((sv, k)) => r matches Ok(v) && value_view(v) == sv && final(json).pos() == k,
            Err((se, k)) => r matches Err(e) && e@ == se && final(json).pos() == k,
        },
    decreases old(json).bytes().len() - old(json).pos(), 2int,
{
    let ghost s = old(json).bytes();
    let ghost start = old(json).pos();
    ignore_ws(json);
    let c = match json.peek_copy() {
        Some(c) => c,
        None => {
            return Err(ParseError::UnexpectedEndOfFile);
        },
    };
    if c == 0x7d {
        json.ignore_next();
        let empty: Vec<(Vec<u8>, JsonValue)> = Vec::new();
        return Ok(JsonValue::Object(empty));
    }
    let mut contents: Vec<(Vec<u8>, JsonValue)> = Vec::new();
    loop
        invariant
            json.wf(),
            s == old(json).bytes(),
            start == old(json).pos(),
            json.bytes() == s,
            0 <= start <= json.pos() <= s.len(),
            spec_object_body(s, start) == spec_object_items(
                s,
                json.pos(),
                entries_view(contents@),
            ),
        decreases s.len() - json.pos(),
    {
        let ghost p0 = json.pos();
        let ghost acc0 = entries_view(contents@);
        ignore_ws(json);
        let ghost j1 = json.pos();
        let key = match read_string(json) {
            Ok(k) => k,
            Err(e) => {
                return Err(e);
            },
        };
        proof {
            lemma_spec_string_advances(s, j1 + 1, Seq::empty());
        }
        ignore_ws(json);
        match json.next() {
            None => {
                return Err(ParseError::ExpectedColon { found: None });
            },
            Some(t) => {
                if t != 0x3a {
                    return Err(ParseError::ExpectedColon { found: Some(t as char) });
                }
            },
        }
        let ghost m1 = json.pos();
        let v = match parse_value(json) {
            Ok(v) => v,
            Err(e) => {
                return Err(e);
            },
        };
        proof {
            lemma_spec_value_advances(s, m1);
        }
        let ghost prein = contents@;
        insert_entry(&mut contents, key, v);
        ignore_ws(json);
        match json.next() {
            None => {
                return Err(ParseError::ExpectedEndOfObject { found: None });
            },
            Some(t) => {
                if t == 0x7d {
                    return Ok(JsonValue::Object(contents));
                } else if t == 0x2c {
                } else {
                    return Err(ParseError::ExpectedEndOfObject { found: Some(t as char) });
                }
            },
        }
    }
}

} // verus!
