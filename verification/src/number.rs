//! The number decoder: copies a run of number bytes into a bounded buffer
//! and checks that the buffer is a decimal float literal.

use vstd::prelude::*;

use crate::model::digits_in;
use crate::model::is_digit;
use crate::model::is_exponent;
use crate::model::is_float_literal;
use crate::model::is_mantissa;
use crate::model::is_number_byte;
use crate::model::lemma_number_run_bounds;
use crate::model::lemma_number_run_steps;
use crate::model::number_run_end;
use crate::model::spec_number;
use crate::slice_iter::SliceIter;
use crate::JsonResult;
use crate::ParseError;

verus! {

/// Index of the first non-digit byte of `s` at or after `from`.
fn scan_digits(s: &Vec<u8>, from: usize) -> (to: usize)
    requires
        from <= s@.len(),
    ensures
        from <= to <= s@.len(),
        digits_in(s@, from as int, to as int),
        to < s@.len() ==> !is_digit(s@[to as int]),
{
    let n = s.len();
    let mut to = from;
    while to < n && s[to] >= 0x30 && s[to] <= 0x39
        invariant
            from <= to <= n == s@.len(),
            digits_in(s@, from as int, to as int),
        decreases n - to,
    {
        to = to + 1;
    }
    to
}

/// Whether `s` parses as a decimal 64-bit float literal: an optional sign,
/// then digits with at most one decimal point and at least one digit, then
/// an optional exponent.
pub fn check_float_literal(s: &Vec<u8>) -> (r: bool)
    ensures
        r == is_float_literal(s@),
{
    let n = s.len();
    let mut c: usize = 0;
    if n > 0 && (s[0] == 0x2b || s[0] == 0x2d) {
        c = 1;
    }
    let d1 = scan_digits(s, c);
    let m_end: usize;
    let have_digits: bool;
    let has_dot: bool;
    if d1 < n && s[d1] == 0x2e {
        let d2 = scan_digits(s, d1 + 1);
        m_end = d2;
        have_digits = d1 > c || d2 > d1 + 1;
        has_dot = true;
        assert(!is_digit(s@[d1 as int]));
    } else {
        m_end = d1;
        have_digits = d1 > c;
        has_dot = false;
    }
    let ghost sv = s@;
    let ghost ci = c as int;
    let ghost ni = n as int;
    let ghost mi = m_end as int;
    let ghost d1i = d1 as int;
    if !have_digits {
        proof {
            assert forall|b: int| b <= ni implies !is_mantissa(sv, ci, b) by {
                if is_mantissa(sv, ci, b) {
                    if b - ci >= 1 && digits_in(sv, ci, b) {
                        assert(is_digit(sv[ci]));
                    } else {
                        let d = choose|d: int|
                            ci <= d < b && sv[d] == 0x2e && digits_in(sv, ci, d) && digits_in(
                                sv,
                                d + 1,
                                b,
                            );
                        if d > ci {
                            assert(is_digit(sv[ci]));
                        } else {
                            assert(sv[ci] == 0x2e);
                            assert(has_dot);
                            assert(is_digit(sv[ci + 1]));
                        }
                    }
                }
            }
        }
        return false;
    }
    proof {
        if has_dot {
            assert(is_mantissa(sv, ci, mi));
        } else {
            assert(is_mantissa(sv, ci, mi));
        }
    }
    if m_end == n {
        return true;
    }
    // Any mantissa starting at `c` must end at `m_end`: its digits and
    // single optional dot are exactly the ones the scans found.
    proof {
        assert forall|b: int| mi < b <= ni implies !is_mantissa(sv, ci, b) by {
            if b - ci >= 1 && digits_in(sv, ci, b) {
                if has_dot {
                    assert(is_digit(sv[d1i]));
                } else {
                    assert(is_digit(sv[mi]));
                }
            } else if is_mantissa(sv, ci, b) {
                let d = choose|d: int|
                    ci <= d < b && sv[d] == 0x2e && digits_in(sv, ci, d) && digits_in(sv, d + 1, b);
                if d < d1i {
                    assert(is_digit(sv[d]));
                } else if d > d1i {
                    assert(is_digit(sv[d1i]));
                } else {
                    assert(has_dot);
                    assert(is_digit(sv[mi]));
                }
            }
        }
    }
    let mk = s[m_end];
    if !(mk == 0x65 || mk == 0x45) {
        proof {
            // The byte after the mantissa is neither a digit, a dot, nor an
            // exponent marker, so no larger mantissa and no exponent split
            // can exist.
            assert forall|p: int| ci <= p < ni && (sv[p] == 0x65 || sv[p] == 0x45) implies
                !is_mantissa(sv, ci, p) by {
                if p < mi && is_mantissa(sv, ci, p) {
                    if digits_in(sv, ci, p) && p - ci >= 1 {
                        if p < d1i {
                            assert(is_digit(sv[p]));
                        } else {
                            assert(has_dot && p > d1i);
                            assert(is_digit(sv[p]));
                        }
                    } else {
                        let d = choose|d: int|
                            ci <= d < p && sv[d] == 0x2e && digits_in(sv, ci, d) && digits_in(
                                sv,
                                d + 1,
                                p,
                            );
                        if d < d1i {
                            assert(is_digit(sv[d]));
                        } else if d > d1i {
                            assert(is_digit(sv[d1i]));
                        } else {
                            assert(has_dot && p > d1i);
                            assert(is_digit(sv[p]));
                        }
                    }
                }
            }
        }
        return false;
    }
    let mut j = m_end + 1;
    if j < n && (s[j] == 0x2b || s[j] == 0x2d) {
        j = j + 1;
    }
    let d3 = scan_digits(s, j);
    let ghost ji = j as int;
    proof {
        // As above: `m_end` is the only admissible exponent-marker position.
        assert forall|p: int| ci <= p < ni && p != mi implies !(is_mantissa(sv, ci, p) && (sv[p]
            == 0x65 || sv[p] == 0x45)) by {
            if p < mi && is_mantissa(sv, ci, p) && (sv[p] == 0x65 || sv[p] == 0x45) {
                if digits_in(sv, ci, p) && p - ci >= 1 {
                    if p < d1i {
                        assert(is_digit(sv[p]));
                    } else {
                        assert(has_dot && p > d1i);
                        assert(is_digit(sv[p]));
                    }
                } else {
                    let d = choose|d: int|
                        ci <= d < p && sv[d] == 0x2e && digits_in(sv, ci, d) && digits_in(
                            sv,
                            d + 1,
                            p,
                        );
                    if d < d1i {
                        assert(is_digit(sv[d]));
                    } else if d > d1i {
                        assert(is_digit(sv[d1i]));
                    } else {
                        assert(has_dot && p > d1i);
                        assert(is_digit(sv[p]));
                    }
                }
            }
        }
    }
    if d3 == n && d3 > j {
        assert(is_exponent(sv, mi + 1, ni));
        return true;
    }
    proof {
        if is_exponent(sv, mi + 1, ni) {
            assert(ji < ni && is_digit(sv[ji]));
        }
    }
    false
}

/// Reads the number literal at the cursor: the run of number bytes, at most
/// 320 of them, which must form a float literal.
pub fn read_number(json: &mut SliceIter<u8>) -> (r: JsonResult<Vec<u8>>)
    requires
        old(json).wf(),
    ensures
        final(json).wf(),
        final(json).bytes() == old(json).bytes(),
        match spec_number(old(json).bytes(), old(json).pos()) {
            Ok((lit, k)) => r matches Ok(v) && v@ == lit && final(json).pos() == k,
            Err((se, k)) => r matches Err(e) && e@ == se && final(json).pos() == k,
        },
{
    let ghost s = old(json).bytes();
    let ghost start = old(json).pos();
    let mut buf: Vec<u8> = Vec::new();
    loop
        invariant
            json.wf(),
            s == old(json).bytes(),
            start == old(json).pos(),
            json.bytes() == s,
            0 <= start <= json.pos() <= s.len(),
            json.pos() == start + buf@.len(),
            buf@ == s.subrange(start, json.pos()),
            buf@.len() <= 320,
            forall|k: int| start <= k < json.pos() ==> is_number_byte(s[k]),
        ensures
            json.wf(),
            json.bytes() == s,
            0 <= start <= json.pos() <= s.len(),
            json.pos() == start + buf@.len(),
            buf@ == s.subrange(start, json.pos()),
            buf@.len() <= 320,
            forall|k: int| start <= k < json.pos() ==> is_number_byte(s[k]),
            json.pos() == s.len() || !is_number_byte(s[json.pos()]),
        decreases s.len() - json.pos() + 1,
    {
        let nb = json.peek_copy();
        let more = match nb {
            Some(b) => b == 0x2e || b == 0x65 || b == 0x45 || b == 0x2d || b == 0x2b || (0x30 <= b
                && b <= 0x39),
            None => false,
        };
        if !more {
            break ;
        }
        if buf.len() >= 320 {
            proof {
                lemma_number_run_steps(s, start, json.pos());
                lemma_number_run_steps(s, json.pos(), json.pos() + 1);
                lemma_number_run_bounds(s, json.pos() + 1);
            }
            return Err(ParseError::InvalidNumberLiteral);
        }
        let b = json.next().unwrap();
        buf.push(b);
        proof {
            assert(buf@ =~= s.subrange(start, json.pos()));
        }
    }
    proof {
        lemma_number_run_steps(s, start, json.pos());
        lemma_number_run_bounds(s, json.pos());
        assert(number_run_end(s, start) == json.pos());
    }
    if check_float_literal(&buf) {
        Ok(buf)
    } else {
        Err(ParseError::InvalidNumberLiteral)
    }
}

} // verus!
