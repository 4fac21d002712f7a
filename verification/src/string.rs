//! The string decoder: copies runs of plain bytes with the cursor's chunked
//! scan, decodes escape sequences (including `\uXXXX` and surrogate pairs),
//! and validates that the assembled bytes are UTF-8.

use vstd::prelude::*;

use crate::model::combine_surrogates;
use crate::model::escape_step;
use crate::model::hex4_val;
use crate::model::hex_digit_val;
use crate::model::is_scalar;
use crate::model::lemma_escape_step_advances;
use crate::model::lemma_string_body_run;
use crate::model::spec_string;
use crate::model::spec_string_body;
use crate::model::utf8_encode;
use crate::slice_iter::SliceIter;
use crate::trusted::lossy_string;
use crate::trusted::utf8_is_valid;
use crate::JsonResult;
use crate::ParseError;

verus! {

/// Appends every byte of `run` to `buf`.
fn extend_bytes(buf: &mut Vec<u8>, run: &[u8])
    ensures
        final(buf)@ == old(buf)@ + run@,
{
    let mut i: usize = 0;
    while i < run.len()
        invariant
            0 <= i <= run@.len(),
            buf@ == old(buf)@ + run@.subrange(0, i as int),
        decreases run@.len() - i,
    {
        let b = run[i];
        buf.push(b);
        i = i + 1;
        proof {
            assert(old(buf)@ + run@.subrange(0, i - 1) + seq![run@[i - 1]] =~= old(buf)@
                + run@.subrange(0, i as int));
        }
    }
    proof {
        assert(old(buf)@ + run@.subrange(0, run@.len() as int) =~= old(buf)@ + run@);
    }
}

/// The value of one ASCII hex digit, case-insensitive.
fn hex_digit(b: u8) -> (r: Option<u16>)
    ensures
        r == hex_digit_val(b),
{
    if 0x30 <= b && b <= 0x39 {
        Some((b - 0x30) as u16)
    } else if 0x41 <= b && b <= 0x46 {
        Some((b - 0x41 + 10) as u16)
    } else if 0x61 <= b && b <= 0x66 {
        Some((b - 0x61 + 10) as u16)
    } else {
        None
    }
}

/// Appends the UTF-8 encoding of the scalar value `cp` to `buf`.
fn push_utf8(buf: &mut Vec<u8>, cp: u32)
    requires
        is_scalar(cp),
    ensures
        final(buf)@ == old(buf)@ + utf8_encode(cp),
{
    if cp < 0x80 {
        buf.push(cp as u8);
        assert(buf@ =~= old(buf)@ + utf8_encode(cp));
    } else if cp < 0x800 {
        buf.push((0xc0 + cp / 0x40) as u8);
        buf.push((0x80 + cp % 0x40) as u8);
        assert(buf@ =~= old(buf)@ + utf8_encode(cp));
    } else if cp < 0x10000 {
        buf.push((0xe0 + cp / 0x1000) as u8);
        buf.push((0x80 + (cp / 0x40) % 0x40) as u8);
        buf.push((0x80 + cp % 0x40) as u8);
        assert(buf@ =~= old(buf)@ + utf8_encode(cp));
    } else {
        buf.push((0xf0 + cp / 0x40000) as u8);
        buf.push((0x80 + (cp / 0x1000) % 0x40) as u8);
        buf.push((0x80 + (cp / 0x40) % 0x40) as u8);
        buf.push((0x80 + cp % 0x40) as u8);
        assert(buf@ =~= old(buf)@ + utf8_encode(cp));
    }
}

/// Reads four hex digits into one UTF-16 code unit; the cursor must hold at
/// least four bytes.
fn read_hex4(json: &mut SliceIter<u8>) -> (r: Option<u16>)
    requires
        old(json).wf(),
        old(json).pos() + 4 <= old(json).bytes().len(),
    ensures
        final(json).wf(),
        final(json).bytes() == old(json).bytes(),
        final(json).pos() == old(json).pos() + 4,
        r == hex4_val(old(json).bytes(), old(json).pos()),
{
    let b0 = json.next().unwrap();
    let b1 = json.next().unwrap();
    let b2 = json.next().unwrap();
    let b3 = json.next().unwrap();
    let v0 = hex_digit(b0);
    let v1 = hex_digit(b1);
    let v2 = hex_digit(b2);
    let v3 = hex_digit(b3);
    match (v0, v1, v2, v3) {
        (Some(h0), Some(h1), Some(h2), Some(h3)) => Some(h0 * 0x1000 + h1 * 0x100 + h2 * 0x10 + h3),
        _ => None,
    }
}

/// Decodes the escape sequence whose backslash the cursor has just consumed,
/// appending the decoded bytes to `buf`.
fn escape(json: &mut SliceIter<u8>, buf: &mut Vec<u8>) -> (r: JsonResult<()>)
    requires
        old(json).wf(),
        old(json).pos() >= 1,
        old(json).bytes()[old(json).pos() - 1] == 0x5c,
    ensures
        final(json).wf(),
        final(json).bytes() == old(json).bytes(),
        match escape_step(old(json).bytes(), old(json).pos() - 1) {
            Ok((app, j)) => r is Ok && final(buf)@ == old(buf)@ + app && final(json).pos() == j,
            Err((se, j)) => (r matches Err(e) && e@ == se && final(json).pos() == j && final(buf)@
                == old(buf)@),
        },
{
    let ghost s = old(json).bytes();
    let ghost i = old(json).pos() - 1;
    let sel = match json.next() {
        Some(v) => v,
        None => {
            return Err(ParseError::InvalidStringEscape);
        },
    };
    if sel == 0x22 || sel == 0x5c || sel == 0x2f {
        buf.push(sel);
        assert(buf@ =~= old(buf)@ + seq![s[i + 1]]);
        return Ok(());
    }
    if sel == 0x62 {
        buf.push(0x08);
        assert(buf@ =~= old(buf)@ + seq![0x08u8]);
        return Ok(());
    }
    if sel == 0x66 {
        buf.push(0x0c);
        assert(buf@ =~= old(buf)@ + seq![0x0cu8]);
        return Ok(());
    }
    if sel == 0x6e {
        buf.push(0x0a);
        assert(buf@ =~= old(buf)@ + seq![0x0au8]);
        return Ok(());
    }
    if sel == 0x72 {
        buf.push(0x0d);
        assert(buf@ =~= old(buf)@ + seq![0x0du8]);
        return Ok(());
    }
    if sel == 0x74 {
        buf.push(0x09);
        assert(buf@ =~= old(buf)@ + seq![0x09u8]);
        return Ok(());
    }
    if sel != 0x75 {
        return Err(ParseError::InvalidStringEscape);
    }
    if json.remaining() < 4 {
        return Err(ParseError::InvalidStringEscape);
    }
    let code0 = match read_hex4(json) {
        Some(v) => v,
        None => {
            return Err(ParseError::InvalidStringEscape);
        },
    };
    let mut second = false;
    if let Some(two) = json.peek_many_ref(2) {
        if two[0] == 0x5c && two[1] == 0x75 {
            second = true;
        }
    }
    if second {
        json.ignore_many(2);
        if json.remaining() < 4 {
            return Err(ParseError::InvalidStringEscape);
        }
        let code1 = match read_hex4(json) {
            Some(v) => v,
            None => {
                return Err(ParseError::InvalidStringEscape);
            },
        };
        if 0xd800 <= code0 && code0 < 0xdc00 && 0xdc00 <= code1 && code1 < 0xe000 {
            let cp: u32 = 0x10000 + (code0 as u32 - 0xd800) * 0x400 + (code1 as u32 - 0xdc00);
            assert(cp == combine_surrogates(code0, code1));
            push_utf8(buf, cp);
            Ok(())
        } else if (0xd800 <= code0 && code0 < 0xe000) || (0xd800 <= code1 && code1 < 0xe000) {
            Err(ParseError::InvalidStringEscape)
        } else {
            push_utf8(buf, code0 as u32);
            push_utf8(buf, code1 as u32);
            assert(buf@ =~= old(buf)@ + (utf8_encode(code0 as u32) + utf8_encode(code1 as u32)));
            Ok(())
        }
    } else {
        if 0xd800 <= code0 && code0 < 0xe000 {
            Err(ParseError::InvalidStringEscape)
        } else {
            push_utf8(buf, code0 as u32);
            Ok(())
        }
    }
}

/// Reads the quoted string at the cursor and returns its decoded UTF-8
/// bytes.
pub fn read_string(json: &mut SliceIter<u8>) -> (r: JsonResult<Vec<u8>>)
    requires
        old(json).wf(),
    ensures
        final(json).wf(),
        final(json).bytes() == old(json).bytes(),
        match spec_string(old(json).bytes(), old(json).pos()) {
            Ok((bytes, k)) => r matches Ok(v) && v@ == bytes && final(json).pos() == k,
            Err((se, k)) => r matches Err(e) && e@ == se && final(json).pos() == k,
        },
{
    let ghost s = old(json).bytes();
    let ghost start = old(json).pos();
    match json.next() {
        Some(c) => {
            if c != 0x22 {
                return Err(ParseError::StringQuote { found: Some(c as char) });
            }
        },
        None => {
            return Err(ParseError::StringQuote { found: None });
        },
    }
    let mut buf: Vec<u8> = Vec::new();
    loop
        invariant
            json.wf(),
            s == old(json).bytes(),
            start == old(json).pos(),
            json.bytes() == s,
            0 <= start < s.len() && s[start] == 0x22,
            start + 1 <= json.pos() <= s.len(),
            spec_string_body(s, start + 1, Seq::empty()) == spec_string_body(
                s,
                json.pos(),
                buf@,
            ),
        decreases s.len() - json.pos(),
    {
        let ghost pos0 = json.pos();
        let ghost buf0 = buf@;
        let run = json.take_while_chunked(0x22, 0x5c);
        extend_bytes(&mut buf, run);
        proof {
            lemma_string_body_run(s, pos0, json.pos(), buf0);
        }
        let ghost posr = json.pos();
        let ghost bufr = buf@;
        match json.next() {
            None => {
                return Err(ParseError::UnexpectedEndOfFile);
            },
            Some(term) => {
                if term == 0x22 {
                    if utf8_is_valid(&buf) {
                        return Ok(buf);
                    } else {
                        let rendition = lossy_string(buf.as_slice());
                        return Err(ParseError::InvalidUtf8 { string: rendition });
                    }
                } else if term == 0x5c {
                    let ghost bs = json.pos() - 1;
                    match escape(json, &mut buf) {
                        Ok(()) => {
                            proof {
                                lemma_escape_step_advances(s, bs);
                            }
                        },
                        Err(e) => {
                            return Err(e);
                        },
                    }
                } else {
                    buf.push(term);
                    proof {
                        assert(bufr.push(s[posr]) =~= buf@);
                    }
                }
            },
        }
    }
}

} // verus!
