//! Mathematical model of parsed JSON documents and of the parse itself.
//!
//! `SpecValue` is the abstract value tree. The spec functions in this module
//! define, byte for byte, what the executable parser returns on every input:
//! which value is produced, which error is reported, and where the cursor
//! stands afterwards.

use vstd::prelude::*;

verus! {

/// Abstract JSON value. Object entries are kept in insertion order with
/// unique keys (the parser collapses duplicate keys, last write wins).
/// Strings hold their UTF-8 bytes; numbers hold the bytes of a decimal
/// floating-point literal.
pub enum SpecValue {
    Object(Seq<(Seq<u8>, SpecValue)>),
    Array(Seq<SpecValue>),
    String(Seq<u8>),
    Number(Seq<u8>),
    Boolean(bool),
    Null,
}

/// Abstract form of a parse error, mirroring `ParseError` variant for variant.
pub enum SpecError {
    ExpectedEndOfArray { found: Option<char> },
    ExpectedEndOfObject { found: Option<char> },
    ExpectedNextValue { found: Option<char> },
    ExpectedColon { found: Option<char> },
    InvalidNumberLiteral,
    InvalidStringEscape,
    InvalidUtf8 { string: Seq<char> },
    StringQuote { found: Option<char> },
    UnexpectedEndOfFile,
}

/// Outcome of one parsing phase: the parsed artifact and the cursor position
/// after it, or an error and the position at which parsing stopped.
pub type SpecParsed<T> = Result<(T, int), (SpecError, int)>;

/// The sequence of characters that lossy UTF-8 decoding yields for `bytes`
/// (invalid sequences become replacement characters). The result is fixed by
/// the bytes alone; its definition is delegated to the runtime decoder.
pub uninterp spec fn utf8_lossy_of(bytes: Seq<u8>) -> Seq<char>;

// ---------------------------------------------------------------------------
// Whitespace
// ---------------------------------------------------------------------------
/// Whitespace in JSON text: space, line feed, carriage return, tab.
pub open spec fn is_ws(b: u8) -> bool {
    b == 0x20 || b == 0x0a || b == 0x0d || b == 0x09
}

/// Index of the first byte at or after `i` that is not JSON whitespace
/// (or the end of the input).
pub open spec fn skip_ws(s: Seq<u8>, i: int) -> int
    decreases s.len() - i,
{
    if 0 <= i < s.len() && is_ws(s[i]) {
        skip_ws(s, i + 1)
    } else {
        i
    }
}

pub broadcast proof fn lemma_skip_ws_bounds(s: Seq<u8>, i: int)
    ensures
        #[trigger] skip_ws(s, i) >= i,
        i <= s.len() ==> skip_ws(s, i) <= s.len(),
        forall|k: int| i <= k < skip_ws(s, i) ==> is_ws(s[k]),
        0 <= skip_ws(s, i) < s.len() ==> !is_ws(s[skip_ws(s, i)]),
    decreases s.len() - i,
{
    if 0 <= i < s.len() && is_ws(s[i]) {
        lemma_skip_ws_bounds(s, i + 1);
    }
}

// ---------------------------------------------------------------------------
// Number literals
// ---------------------------------------------------------------------------
/// Bytes that may occur in a JSON number run: digits, '.', 'e', 'E', '-', '+'.
pub open spec fn is_number_byte(b: u8) -> bool {
    (0x30 <= b <= 0x39) || b == 0x2e || b == 0x65 || b == 0x45 || b == 0x2d || b == 0x2b
}

/// Index just past the run of number bytes starting at `i`.
pub open spec fn number_run_end(s: Seq<u8>, i: int) -> int
    decreases s.len() - i,
{
    if 0 <= i < s.len() && is_number_byte(s[i]) {
        number_run_end(s, i + 1)
    } else {
        i
    }
}

pub broadcast proof fn lemma_number_run_bounds(s: Seq<u8>, i: int)
    ensures
        #[trigger] number_run_end(s, i) >= i,
        i <= s.len() ==> number_run_end(s, i) <= s.len(),
        forall|k: int| i <= k < number_run_end(s, i) ==> is_number_byte(s[k]),
        0 <= number_run_end(s, i) < s.len() ==> !is_number_byte(s[number_run_end(s, i)]),
    decreases s.len() - i,
{
    if 0 <= i < s.len() && is_number_byte(s[i]) {
        lemma_number_run_bounds(s, i + 1);
    }
}

/// `skip_ws` is the unique fixed point of single whitespace steps.
pub proof fn lemma_skip_ws_from(s: Seq<u8>, i: int, j: int)
    requires
        0 <= i <= j <= s.len(),
        forall|k: int| i <= k < j ==> is_ws(s[k]),
        j == s.len() || !is_ws(s[j]),
    ensures
        skip_ws(s, i) == j,
    decreases j - i,
{
    if i < j {
        lemma_skip_ws_from(s, i + 1, j);
    }
}

/// A run of number bytes from `i` to `j` leaves the run end unchanged.
pub proof fn lemma_number_run_steps(s: Seq<u8>, i: int, j: int)
    requires
        0 <= i <= j <= s.len(),
        forall|k: int| i <= k < j ==> is_number_byte(s[k]),
    ensures
        number_run_end(s, i) == number_run_end(s, j),
    decreases j - i,
{
    if i < j {
        lemma_number_run_steps(s, i + 1, j);
    }
}

pub open spec fn is_digit(b: u8) -> bool {
    0x30 <= b <= 0x39
}

pub open spec fn is_sign(b: u8) -> bool {
    b == 0x2b || b == 0x2d
}

pub open spec fn is_exp_marker(b: u8) -> bool {
    b == 0x65 || b == 0x45
}

/// Every byte of `s` in the half-open range `[a, b)` is a decimal digit.
pub open spec fn digits_in(s: Seq<u8>, a: int, b: int) -> bool {
    forall|k: int| a <= k < b ==> is_digit(#[trigger] s[k])
}

/// `s[a..b)` is a float mantissa: nonempty digits, or digits around exactly
/// one decimal point with at least one digit present on either side overall.
pub open spec fn is_mantissa(s: Seq<u8>, a: int, b: int) -> bool {
    (b - a >= 1 && digits_in(s, a, b)) || (b - a >= 2 && exists|d: int|
        a <= d < b && s[d] == 0x2e && digits_in(s, a, d) && digits_in(s, d + 1, b))
}

/// `s[a..b)` is a float exponent body: an optional sign, then one or more
/// digits.
pub open spec fn is_exponent(s: Seq<u8>, a: int, b: int) -> bool {
    if a < b && is_sign(s[a]) {
        b - (a + 1) >= 1 && digits_in(s, a + 1, b)
    } else {
        b - a >= 1 && digits_in(s, a, b)
    }
}

/// `s` parses as a decimal 64-bit float literal: an optional sign, a
/// mantissa, and an optional exponent introduced by `e` or `E`.
pub open spec fn is_float_literal(s: Seq<u8>) -> bool {
    let c: int = if s.len() > 0 && is_sign(s[0]) {
        1
    } else {
        0
    };
    is_mantissa(s, c, s.len() as int) || exists|p: int|
        c <= p < s.len() && is_exp_marker(#[trigger] s[p]) && is_mantissa(s, c, p)
            && is_exponent(s, p + 1, s.len() as int)
}

/// The number decoder: takes the run of number bytes at `i`, rejecting runs
/// longer than 320 bytes and runs that are not a valid float literal.
pub open spec fn spec_number(s: Seq<u8>, i: int) -> SpecParsed<Seq<u8>> {
    let end = number_run_end(s, i);
    if end - i > 320 {
        Err((SpecError::InvalidNumberLiteral, i + 320))
    } else if is_float_literal(s.subrange(i, end)) {
        Ok((s.subrange(i, end), end))
    } else {
        Err((SpecError::InvalidNumberLiteral, end))
    }
}

// ---------------------------------------------------------------------------
// UTF-8
// ---------------------------------------------------------------------------
/// A UTF-8 continuation byte.
pub open spec fn is_cont(b: u8) -> bool {
    0x80 <= b < 0xc0
}

/// `s` is well-formed UTF-8, following the byte-range table of RFC 3629.
pub open spec fn is_utf8(s: Seq<u8>) -> bool
    decreases s.len(),
{
    if s.len() == 0 {
        true
    } else {
        let b0 = s[0];
        if b0 < 0x80 {
            is_utf8(s.skip(1))
        } else if 0xc2 <= b0 <= 0xdf {
            s.len() >= 2 && is_cont(s[1]) && is_utf8(s.skip(2))
        } else if b0 == 0xe0 {
            s.len() >= 3 && 0xa0 <= s[1] <= 0xbf && is_cont(s[2]) && is_utf8(s.skip(3))
        } else if 0xe1 <= b0 <= 0xec || b0 == 0xee || b0 == 0xef {
            s.len() >= 3 && is_cont(s[1]) && is_cont(s[2]) && is_utf8(s.skip(3))
        } else if b0 == 0xed {
            s.len() >= 3 && 0x80 <= s[1] <= 0x9f && is_cont(s[2]) && is_utf8(s.skip(3))
        } else if b0 == 0xf0 {
            s.len() >= 4 && 0x90 <= s[1] <= 0xbf && is_cont(s[2]) && is_cont(s[3]) && is_utf8(
                s.skip(4),
            )
        } else if 0xf1 <= b0 <= 0xf3 {
            s.len() >= 4 && is_cont(s[1]) && is_cont(s[2]) && is_cont(s[3]) && is_utf8(s.skip(4))
        } else if b0 == 0xf4 {
            s.len() >= 4 && 0x80 <= s[1] <= 0x8f && is_cont(s[2]) && is_cont(s[3]) && is_utf8(
                s.skip(4),
            )
        } else {
            false
        }
    }
}

/// A Unicode scalar value: any code point except the UTF-16 surrogate range.
pub open spec fn is_scalar(cp: u32) -> bool {
    cp < 0xd800 || (0xe000 <= cp <= 0x10ffff)
}

/// The UTF-8 encoding of the scalar value `cp`, one to four bytes.
pub open spec fn utf8_encode(cp: u32) -> Seq<u8>
    recommends
        is_scalar(cp),
{
    if cp < 0x80 {
        seq![cp as u8]
    } else if cp < 0x800 {
        seq![(0xc0 + cp / 0x40) as u8, (0x80 + cp % 0x40) as u8]
    } else if cp < 0x10000 {
        seq![
            (0xe0 + cp / 0x1000) as u8,
            (0x80 + (cp / 0x40) % 0x40) as u8,
            (0x80 + cp % 0x40) as u8,
        ]
    } else {
        seq![
            (0xf0 + cp / 0x40000) as u8,
            (0x80 + (cp / 0x1000) % 0x40) as u8,
            (0x80 + (cp / 0x40) % 0x40) as u8,
            (0x80 + cp % 0x40) as u8,
        ]
    }
}

// ---------------------------------------------------------------------------
// UTF-16 code units and string escapes
// ---------------------------------------------------------------------------
pub open spec fn is_surrogate(u: u16) -> bool {
    0xd800 <= u < 0xe000
}

pub open spec fn is_high_surrogate(u: u16) -> bool {
    0xd800 <= u < 0xdc00
}

pub open spec fn is_low_surrogate(u: u16) -> bool {
    0xdc00 <= u < 0xe000
}

/// The scalar value encoded by a UTF-16 surrogate pair.
pub open spec fn combine_surrogates(hi: u16, lo: u16) -> u32
    recommends
        is_high_surrogate(hi),
        is_low_surrogate(lo),
{
    (0x10000 + (hi - 0xd800) * 0x400 + (lo - 0xdc00)) as u32
}

/// Value of one ASCII hex digit, case-insensitive.
pub open spec fn hex_digit_val(b: u8) -> Option<u16> {
    if 0x30 <= b <= 0x39 {
        Some((b - 0x30) as u16)
    } else if 0x41 <= b <= 0x46 {
        Some((b - 0x41 + 10) as u16)
    } else if 0x61 <= b <= 0x66 {
        Some((b - 0x61 + 10) as u16)
    } else {
        None
    }
}

/// The 16-bit value of the four hex digits `s[i..i+4)`, if they all are hex
/// digits and lie inside `s`.
pub open spec fn hex4_val(s: Seq<u8>, i: int) -> Option<u16> {
    if 0 <= i && i + 4 <= s.len() && hex_digit_val(s[i]) is Some && hex_digit_val(s[i + 1]) is Some
        && hex_digit_val(s[i + 2]) is Some && hex_digit_val(s[i + 3]) is Some {
        Some(
            (hex_digit_val(s[i]).unwrap() * 0x1000 + hex_digit_val(s[i + 1]).unwrap() * 0x100
                + hex_digit_val(s[i + 2]).unwrap() * 0x10 + hex_digit_val(s[i + 3]).unwrap()) as u16,
        )
    } else {
        None
    }
}

/// Bytes appended for one or two UTF-16 code units read from a `\u` escape:
/// a surrogate pair yields one scalar; two independent non-surrogate units
/// yield two scalars; any unpaired surrogate is rejected.
pub open spec fn decode_units(u0: u16, u1: Option<u16>) -> Option<Seq<u8>> {
    match u1 {
        None => if !is_surrogate(u0) {
            Some(utf8_encode(u0 as u32))
        } else {
            None
        },
        Some(u1v) => if is_high_surrogate(u0) && is_low_surrogate(u1v) {
            Some(utf8_encode(combine_surrogates(u0, u1v)))
        } else if is_surrogate(u0) || is_surrogate(u1v) {
            None
        } else {
            Some(utf8_encode(u0 as u32) + utf8_encode(u1v as u32))
        },
    }
}

/// One escape sequence, with the backslash at `s[i]`: the bytes it decodes to
/// and the position after it, or the error and the position where the decoder
/// stopped.
pub open spec fn escape_step(s: Seq<u8>, i: int) -> SpecParsed<Seq<u8>> {
    if i + 1 >= s.len() {
        Err((SpecError::InvalidStringEscape, i + 1))
    } else {
        let e = s[i + 1];
        if e == 0x22 || e == 0x5c || e == 0x2f {
            Ok((seq![e], i + 2))
        } else if e == 0x62 {
            Ok((seq![0x08u8], i + 2))
        } else if e == 0x66 {
            Ok((seq![0x0cu8], i + 2))
        } else if e == 0x6e {
            Ok((seq![0x0au8], i + 2))
        } else if e == 0x72 {
            Ok((seq![0x0du8], i + 2))
        } else if e == 0x74 {
            Ok((seq![0x09u8], i + 2))
        } else if e == 0x75 {
            if i + 6 > s.len() {
                Err((SpecError::InvalidStringEscape, i + 2))
            } else {
                match hex4_val(s, i + 2) {
                    None => Err((SpecError::InvalidStringEscape, i + 6)),
                    Some(h1) => {
                        if i + 8 <= s.len() && s[i + 6] == 0x5c && s[i + 7] == 0x75 {
                            if i + 12 > s.len() {
                                Err((SpecError::InvalidStringEscape, i + 8))
                            } else {
                                match hex4_val(s, i + 8) {
                                    None => Err((SpecError::InvalidStringEscape, i + 12)),
                                    Some(h2) => match decode_units(h1, Some(h2)) {
                                        Some(bytes) => Ok((bytes, i + 12)),
                                        None => Err((SpecError::InvalidStringEscape, i + 12)),
                                    },
                                }
                            }
                        } else {
                            match decode_units(h1, None) {
                                Some(bytes) => Ok((bytes, i + 6)),
                                None => Err((SpecError::InvalidStringEscape, i + 6)),
                            }
                        }
                    },
                }
            }
        } else {
            Err((SpecError::InvalidStringEscape, i + 2))
        }
    }
}

pub broadcast proof fn lemma_escape_step_advances(s: Seq<u8>, i: int)
    ensures
        (#[trigger] escape_step(s, i)) matches Ok((bytes, j)) ==> i + 2 <= j <= s.len(),
{
}

/// Larger of `x` and `lo`; used to record that a parsing phase advanced.
pub open spec fn at_least(x: int, lo: int) -> int {
    if x < lo {
        lo
    } else {
        x
    }
}

/// The body of a string, scanned from `i`, with `acc` the bytes decoded so
/// far. Plain bytes are copied; escapes are decoded; the closing quote ends
/// the string, whereupon the collected bytes must be valid UTF-8.
pub open spec fn spec_string_body(s: Seq<u8>, i: int, acc: Seq<u8>) -> SpecParsed<Seq<u8>>
    decreases s.len() - i,
{
    if !(0 <= i <= s.len()) {
        Err((SpecError::UnexpectedEndOfFile, i))
    } else if i >= s.len() {
        Err((SpecError::UnexpectedEndOfFile, i))
    } else if s[i] == 0x22 {
        if is_utf8(acc) {
            Ok((acc, i + 1))
        } else {
            Err((SpecError::InvalidUtf8 { string: utf8_lossy_of(acc) }, i + 1))
        }
    } else if s[i] == 0x5c {
        match escape_step(s, i) {
            Ok((bytes, j)) => {
                proof {
                    lemma_escape_step_advances(s, i);
                }
                spec_string_body(s, at_least(j, i + 2), acc + bytes)
            },
            Err(e) => Err(e),
        }
    } else {
        spec_string_body(s, i + 1, acc.push(s[i]))
    }
}

/// Copying a run of plain bytes (no quote, no backslash) commutes with the
/// string-body scan.
pub proof fn lemma_string_body_run(s: Seq<u8>, i: int, j: int, acc: Seq<u8>)
    requires
        0 <= i <= j <= s.len(),
        forall|k: int| i <= k < j ==> s[k] != 0x22 && s[k] != 0x5c,
    ensures
        spec_string_body(s, i, acc) == spec_string_body(s, j, acc + s.subrange(i, j)),
    decreases j - i,
{
    if i < j {
        lemma_string_body_run(s, i + 1, j, acc.push(s[i]));
        assert(acc.push(s[i]) + s.subrange(i + 1, j) =~= acc + s.subrange(i, j));
    } else {
        assert(acc + s.subrange(i, i) =~= acc);
    }
}

/// A complete string: an opening quote at `i`, then the body.
pub open spec fn spec_string(s: Seq<u8>, i: int) -> SpecParsed<Seq<u8>> {
    if 0 <= i < s.len() && s[i] == 0x22 {
        spec_string_body(s, i + 1, Seq::empty())
    } else {
        let found: Option<char> = if 0 <= i < s.len() {
            Some(s[i] as char)
        } else {
            None
        };
        let j: int = if 0 <= i < s.len() {
            i + 1
        } else {
            i
        };
        Err((SpecError::StringQuote { found }, j))
    }
}

pub broadcast proof fn lemma_spec_string_advances(s: Seq<u8>, i: int, acc: Seq<u8>)
    ensures
        (#[trigger] spec_string_body(s, i, acc)) matches Ok((b, j)) ==> i < j <= s.len(),
    decreases s.len() - i,
{
    if 0 <= i < s.len() {
        if s[i] == 0x5c {
            match escape_step(s, i) {
                Ok((bytes, j)) => {
                    lemma_escape_step_advances(s, i);
                    lemma_spec_string_advances(s, at_least(j, i + 2), acc + bytes);
                },
                Err(_) => {},
            }
        } else if s[i] != 0x22 {
            lemma_spec_string_advances(s, i + 1, acc.push(s[i]));
        }
    }
}

// ---------------------------------------------------------------------------
// Objects
// ---------------------------------------------------------------------------
/// Insert `(k, v)` into the entry sequence: replace the first entry with an
/// equal key, or append if no key matches. Last write wins.
pub open spec fn upsert(
    m: Seq<(Seq<u8>, SpecValue)>,
    k: Seq<u8>,
    v: SpecValue,
) -> Seq<(Seq<u8>, SpecValue)>
    decreases m.len(),
{
    if m.len() == 0 {
        seq![(k, v)]
    } else if m[0].0 == k {
        seq![(k, v)] + m.skip(1)
    } else {
        seq![m[0]] + upsert(m.skip(1), k, v)
    }
}

/// The value stored under key `k`, if any.
pub open spec fn lookup(m: Seq<(Seq<u8>, SpecValue)>, k: Seq<u8>) -> Option<SpecValue>
    decreases m.len(),
{
    if m.len() == 0 {
        None
    } else if m[0].0 == k {
        Some(m[0].1)
    } else {
        lookup(m.skip(1), k)
    }
}

/// When the first `idx` keys differ from `k` and the key at `idx` equals
/// `k`, `upsert` replaces exactly the entry at `idx`.
pub proof fn lemma_upsert_found(m: Seq<(Seq<u8>, SpecValue)>, k: Seq<u8>, v: SpecValue, idx: int)
    requires
        0 <= idx < m.len(),
        m[idx].0 == k,
        forall|j: int| 0 <= j < idx ==> m[j].0 != k,
    ensures
        upsert(m, k, v) == m.update(idx, (k, v)),
    decreases idx,
{
    if idx == 0 {
        assert(upsert(m, k, v) =~= m.update(0, (k, v)));
    } else {
        assert(m.skip(1)[idx - 1].0 == k);
        assert(forall|j: int| 0 <= j < idx - 1 ==> m.skip(1)[j].0 != k);
        lemma_upsert_found(m.skip(1), k, v, idx - 1);
        assert(upsert(m, k, v) =~= m.update(idx, (k, v)));
    }
}

/// When no key equals `k`, `upsert` appends the new entry.
pub proof fn lemma_upsert_missing(m: Seq<(Seq<u8>, SpecValue)>, k: Seq<u8>, v: SpecValue)
    requires
        forall|j: int| 0 <= j < m.len() ==> m[j].0 != k,
    ensures
        upsert(m, k, v) == m.push((k, v)),
    decreases m.len(),
{
    if m.len() == 0 {
        assert(upsert(m, k, v) =~= m.push((k, v)));
    } else {
        assert(forall|j: int| 0 <= j < m.skip(1).len() ==> m.skip(1)[j].0 != k);
        lemma_upsert_missing(m.skip(1), k, v);
        assert(upsert(m, k, v) =~= m.push((k, v)));
    }
}

// ---------------------------------------------------------------------------
// The value grammar: recursive descent over the input
// ---------------------------------------------------------------------------
/// One JSON value starting at the first significant byte at or after `i`:
/// a string, a number, an array, an object, or one of the three literals.
pub open spec fn spec_value(s: Seq<u8>, i: int) -> SpecParsed<SpecValue>
    decreases s.len() - i, 0int,
{
    if !(0 <= i <= s.len()) {
        Err((SpecError::UnexpectedEndOfFile, i))
    } else {
        let j = skip_ws(s, i);
        proof {
            lemma_skip_ws_bounds(s, i);
        }
        if j >= s.len() {
            Err((SpecError::UnexpectedEndOfFile, j))
        } else {
            let c = s[j];
            if c == 0x22 {
                match spec_string(s, j) {
                    Ok((bytes, k)) => Ok((SpecValue::String(bytes), k)),
                    Err(e) => Err(e),
                }
            } else if is_digit(c) || c == 0x2d {
                match spec_number(s, j) {
                    Ok((lit, k)) => Ok((SpecValue::Number(lit), k)),
                    Err(e) => Err(e),
                }
            } else if c == 0x5b {
                spec_array_body(s, j + 1)
            } else if c == 0x7b {
                spec_object_body(s, j + 1)
            } else if j + 4 <= s.len() && s[j] == 0x74 && s[j + 1] == 0x72 && s[j + 2] == 0x75 && s[j
                + 3] == 0x65 {
                Ok((SpecValue::Boolean(true), j + 4))
            } else if j + 4 <= s.len() && s[j] == 0x6e && s[j + 1] == 0x75 && s[j + 2] == 0x6c && s[j
                + 3] == 0x6c {
                Ok((SpecValue::Null, j + 4))
            } else if j + 5 <= s.len() && s[j] == 0x66 && s[j + 1] == 0x61 && s[j + 2] == 0x6c && s[j
                + 3] == 0x73 && s[j + 4] == 0x65 {
                Ok((SpecValue::Boolean(false), j + 5))
            } else {
                Err((SpecError::ExpectedNextValue { found: Some(c as char) }, j + 1))
            }
        }
    }
}

/// An array after its opening bracket: either an immediate `]`, or one or
/// more comma-separated values.
pub open spec fn spec_array_body(s: Seq<u8>, i: int) -> SpecParsed<SpecValue>
    decreases s.len() - i, 2int,
{
    if !(0 <= i <= s.len()) {
        Err((SpecError::UnexpectedEndOfFile, i))
    } else {
        let j = skip_ws(s, i);
        proof {
            lemma_skip_ws_bounds(s, i);
        }
        if j >= s.len() {
            Err((SpecError::UnexpectedEndOfFile, j))
        } else if s[j] == 0x5d {
            Ok((SpecValue::Array(Seq::empty()), j + 1))
        } else {
            spec_array_items(s, j, Seq::empty())
        }
    }
}

/// The element loop of an array: one value, then `]` to finish or `,` to
/// continue.
pub open spec fn spec_array_items(s: Seq<u8>, i: int, acc: Seq<SpecValue>) -> SpecParsed<SpecValue>
    decreases s.len() - i, 1int,
{
    if !(0 <= i <= s.len()) {
        Err((SpecError::UnexpectedEndOfFile, i))
    } else {
        let j = skip_ws(s, i);
        proof {
            lemma_skip_ws_bounds(s, i);
        }
        match spec_value(s, j) {
            Err(e) => Err(e),
            Ok((v, k0)) => {
                let k = at_least(k0, j + 1);
                let m = skip_ws(s, k);
                proof {
                    lemma_skip_ws_bounds(s, k);
                }
                let items = acc.push(v);
                if m >= s.len() {
                    Err((SpecError::ExpectedEndOfArray { found: None }, m))
                } else if s[m] == 0x5d {
                    Ok((SpecValue::Array(items), m + 1))
                } else if s[m] == 0x2c {
                    spec_array_items(s, m + 1, items)
                } else {
                    Err((SpecError::ExpectedEndOfArray { found: Some(s[m] as char) }, m + 1))
                }
            },
        }
    }
}

/// An object after its opening brace: either an immediate `}`, or one or
/// more comma-separated `"key": value` entries.
pub open spec fn spec_object_body(s: Seq<u8>, i: int) -> SpecParsed<SpecValue>
    decreases s.len() - i, 2int,
{
    if !(0 <= i <= s.len()) {
        Err((SpecError::UnexpectedEndOfFile, i))
    } else {
        let j = skip_ws(s, i);
        proof {
            lemma_skip_ws_bounds(s, i);
        }
        if j >= s.len() {
            Err((SpecError::UnexpectedEndOfFile, j))
        } else if s[j] == 0x7d {
            Ok((SpecValue::Object(Seq::empty()), j + 1))
        } else {
            spec_object_items(s, j, Seq::empty())
        }
    }
}

/// The entry loop of an object: a string key, a colon, a value, then `}` to
/// finish or `,` to continue. A repeated key overwrites the earlier entry.
pub open spec fn spec_object_items(
    s: Seq<u8>,
    i: int,
    acc: Seq<(Seq<u8>, SpecValue)>,
) -> SpecParsed<SpecValue>
    decreases s.len() - i, 1int,
{
    if !(0 <= i <= s.len()) {
        Err((SpecError::UnexpectedEndOfFile, i))
    } else {
        let j = skip_ws(s, i);
        proof {
            lemma_skip_ws_bounds(s, i);
        }
        match spec_string(s, j) {
            Err(e) => Err(e),
            Ok((key, k0)) => {
                let k = at_least(k0, j + 1);
                let m = skip_ws(s, k);
                proof {
                    lemma_skip_ws_bounds(s, k);
                }
                if m >= s.len() {
                    Err((SpecError::ExpectedColon { found: None }, m))
                } else if s[m] != 0x3a {
                    Err((SpecError::ExpectedColon { found: Some(s[m] as char) }, m + 1))
                } else {
                    match spec_value(s, m + 1) {
                        Err(e) => Err(e),
                        Ok((v, q0)) => {
                            let q = at_least(q0, m + 2);
                            let t = skip_ws(s, q);
                            proof {
                                lemma_skip_ws_bounds(s, q);
                            }
                            let entries = upsert(acc, key, v);
                            if t >= s.len() {
                                Err((SpecError::ExpectedEndOfObject { found: None }, t))
                            } else if s[t] == 0x7d {
                                Ok((SpecValue::Object(entries), t + 1))
                            } else if s[t] == 0x2c {
                                spec_object_items(s, t + 1, entries)
                            } else {
                                Err(
                                    (
                                        SpecError::ExpectedEndOfObject {
                                            found: Some(s[t] as char),
                                        },
                                        t + 1,
                                    ),
                                )
                            }
                        },
                    }
                }
            },
        }
    }
}

/// Every parsing phase leaves the cursor after its starting point and inside
/// the input.
pub proof fn lemma_spec_value_advances(s: Seq<u8>, i: int)
    requires
        0 <= i <= s.len(),
    ensures
        spec_value(s, i) matches Ok((v, k)) ==> i < k <= s.len(),
    decreases s.len() - i, 3int,
{
    broadcast use lemma_skip_ws_bounds, lemma_spec_string_advances;

    let j = skip_ws(s, i);
    if j < s.len() {
        let c = s[j];
        if c == 0x5b {
            lemma_spec_array_body_advances(s, j + 1);
        } else if c == 0x7b {
            lemma_spec_object_body_advances(s, j + 1);
        } else if is_digit(c) || c == 0x2d {
            lemma_number_run_bounds(s, j);
        }
    }
}

pub proof fn lemma_spec_array_body_advances(s: Seq<u8>, i: int)
    requires
        0 <= i <= s.len(),
    ensures
        spec_array_body(s, i) matches Ok((v, k)) ==> i < k <= s.len(),
    decreases s.len() - i, 5int,
{
    broadcast use lemma_skip_ws_bounds;

    let j = skip_ws(s, i);
    if j < s.len() && s[j] != 0x5d {
        lemma_spec_array_items_advances(s, j, Seq::empty());
    }
}

pub proof fn lemma_spec_array_items_advances(s: Seq<u8>, i: int, acc: Seq<SpecValue>)
    requires
        0 <= i <= s.len(),
    ensures
        spec_array_items(s, i, acc) matches Ok((v, k)) ==> i < k <= s.len(),
    decreases s.len() - i, 4int,
{
    broadcast use lemma_skip_ws_bounds;

    let j = skip_ws(s, i);
    lemma_spec_value_advances(s, j);
    match spec_value(s, j) {
        Err(_) => {},
        Ok((v, k0)) => {
            let k = at_least(k0, j + 1);
            let m = skip_ws(s, k);
            if m < s.len() && s[m] == 0x2c {
                lemma_spec_array_items_advances(s, m + 1, acc.push(v));
            }
        },
    }
}

pub proof fn lemma_spec_object_body_advances(s: Seq<u8>, i: int)
    requires
        0 <= i <= s.len(),
    ensures
        spec_object_body(s, i) matches Ok((v, k)) ==> i < k <= s.len(),
    decreases s.len() - i, 5int,
{
    broadcast use lemma_skip_ws_bounds;

    let j = skip_ws(s, i);
    if j < s.len() && s[j] != 0x7d {
        lemma_spec_object_items_advances(s, j, Seq::empty());
    }
}

pub proof fn lemma_spec_object_items_advances(s: Seq<u8>, i: int, acc: Seq<(Seq<u8>, SpecValue)>)
    requires
        0 <= i <= s.len(),
    ensures
        spec_object_items(s, i, acc) matches Ok((v, k)) ==> i < k <= s.len(),
    decreases s.len() - i, 4int,
{
    broadcast use lemma_skip_ws_bounds, lemma_spec_string_advances;

    let j = skip_ws(s, i);
    match spec_string(s, j) {
        Err(_) => {},
        Ok((key, k0)) => {
            let k = at_least(k0, j + 1);
            let m = skip_ws(s, k);
            if m < s.len() && s[m] == 0x3a {
                lemma_spec_value_advances(s, m + 1);
                match spec_value(s, m + 1) {
                    Err(_) => {},
                    Ok((v, q0)) => {
                        let q = at_least(q0, m + 2);
                        let t = skip_ws(s, q);
                        if t < s.len() && s[t] == 0x2c {
                            lemma_spec_object_items_advances(s, t + 1, upsert(acc, key, v));
                        }
                    },
                }
            }
        },
    }
}

// ---------------------------------------------------------------------------
// Well-formedness of parsed trees
// ---------------------------------------------------------------------------
/// No two object entries share a key.
pub open spec fn keys_unique(entries: Seq<(Seq<u8>, SpecValue)>) -> bool {
    forall|i: int, j: int| 0 <= i < j < entries.len() ==> entries[i].0 != entries[j].0
}

/// A well-formed tree: object keys are unique and valid UTF-8, strings are
/// valid UTF-8, and numbers are float literals of at most 320 bytes.
pub open spec fn wf_value(v: SpecValue) -> bool
    decreases v, 1int,
{
    match v {
        SpecValue::Object(entries) => keys_unique(entries) && wf_entries(entries),
        SpecValue::Array(items) => wf_items(items),
        SpecValue::String(b) => is_utf8(b),
        SpecValue::Number(lit) => is_float_literal(lit) && lit.len() <= 320 && (is_digit(lit[0])
            || lit[0] == 0x2d),
        SpecValue::Boolean(_) => true,
        SpecValue::Null => true,
    }
}

pub open spec fn wf_items(s: Seq<SpecValue>) -> bool
    decreases s, 0int,
{
    s.len() == 0 || (wf_value(s[0]) && wf_items(s.drop_first()))
}

pub open spec fn wf_entries(s: Seq<(Seq<u8>, SpecValue)>) -> bool
    decreases s, 0int,
{
    s.len() == 0 || (is_utf8(s[0].0) && wf_value(s[0].1) && wf_entries(s.drop_first()))
}

pub proof fn lemma_wf_items_push(s: Seq<SpecValue>, v: SpecValue)
    requires
        wf_items(s),
        wf_value(v),
    ensures
        wf_items(s.push(v)),
    decreases s.len(),
{
    if s.len() == 0 {
        assert(s.push(v).drop_first() =~= Seq::<SpecValue>::empty());
        assert(s.push(v)[0] == v);
        assert(wf_items(Seq::<SpecValue>::empty()));
        assert(wf_items(s.push(v)));
    } else {
        lemma_wf_items_push(s.drop_first(), v);
        assert(s.push(v).drop_first() =~= s.drop_first().push(v));
        assert(s.push(v)[0] == s[0]);
        assert(wf_items(s.push(v)));
    }
}

pub proof fn lemma_wf_entries_push(s: Seq<(Seq<u8>, SpecValue)>, e: (Seq<u8>, SpecValue))
    requires
        wf_entries(s),
        is_utf8(e.0),
        wf_value(e.1),
    ensures
        wf_entries(s.push(e)),
    decreases s.len(),
{
    if s.len() == 0 {
        assert(s.push(e).drop_first() =~= Seq::<(Seq<u8>, SpecValue)>::empty());
        assert(s.push(e)[0] == e);
        assert(wf_entries(Seq::<(Seq<u8>, SpecValue)>::empty()));
        assert(wf_entries(s.push(e)));
    } else {
        lemma_wf_entries_push(s.drop_first(), e);
        assert(s.push(e).drop_first() =~= s.drop_first().push(e));
        assert(s.push(e)[0] == s[0]);
        assert(wf_entries(s.push(e)));
    }
}

/// Inserting a well-formed entry preserves well-formedness and key
/// uniqueness; every key of the result is the inserted key or one of the old
/// keys.
pub proof fn lemma_upsert_wf(m: Seq<(Seq<u8>, SpecValue)>, k: Seq<u8>, v: SpecValue)
    requires
        wf_entries(m),
        keys_unique(m),
        is_utf8(k),
        wf_value(v),
    ensures
        wf_entries(upsert(m, k, v)),
        keys_unique(upsert(m, k, v)),
        forall|j: int|
            0 <= j < upsert(m, k, v).len() ==> (#[trigger] upsert(m, k, v)[j].0) == k || exists|t: int|
                0 <= t < m.len() && m[t].0 == upsert(m, k, v)[j].0,
    decreases m.len(),
{
    let u = upsert(m, k, v);
    if m.len() == 0 {
        assert(u =~= seq![(k, v)]);
        assert(u.drop_first() =~= Seq::<(Seq<u8>, SpecValue)>::empty());
        assert(u[0] == (k, v));
        assert(wf_entries(Seq::<(Seq<u8>, SpecValue)>::empty()));
        assert(wf_entries(u));
    } else if m[0].0 == k {
        assert(u =~= seq![(k, v)] + m.skip(1));
        assert(u.drop_first() =~= m.skip(1));
        assert(wf_entries(m.skip(1)) && wf_value(m[0].1) && is_utf8(m[0].0)) by {
            assert(m.drop_first() =~= m.skip(1));
        }
        assert(u[0] == (k, v));
        assert(wf_entries(u));
        assert forall|i: int, j: int| 0 <= i < j < u.len() implies u[i].0 != u[j].0 by {
            if i == 0 {
                assert(u[j].0 == m[j].0);
                assert(m[0].0 != m[j].0);
            } else {
                assert(u[i].0 == m[i].0 && u[j].0 == m[j].0);
            }
        }
        assert forall|j: int| 0 <= j < u.len() implies (#[trigger] u[j].0) == k || exists|t: int|
            0 <= t < m.len() && m[t].0 == u[j].0 by {
            if j > 0 {
                assert(m[j].0 == u[j].0);
            }
        }
    } else {
        assert(m.drop_first() =~= m.skip(1));
        assert(wf_entries(m.skip(1)));
        assert(keys_unique(m.skip(1))) by {
            assert(forall|i: int, j: int|
                0 <= i < j < m.skip(1).len() ==> m.skip(1)[i].0 == m[i + 1].0 && m.skip(1)[j].0
                    == m[j + 1].0);
        }
        lemma_upsert_wf(m.skip(1), k, v);
        let u1 = upsert(m.skip(1), k, v);
        assert(u =~= seq![m[0]] + u1);
        assert(u.drop_first() =~= u1);
        assert(u[0] == m[0]);
        assert(wf_value(m[0].1) && is_utf8(m[0].0)) by {
            assert(m.drop_first() =~= m.skip(1));
        }
        assert(wf_entries(u));
        assert forall|j: int| 0 <= j < u.len() implies (#[trigger] u[j].0) == k || exists|t: int|
            0 <= t < m.len() && m[t].0 == u[j].0 by {
            if j == 0 {
                assert(m[0].0 == u[0].0);
            } else {
                assert(u[j] == u1[j - 1]);
                if u1[j - 1].0 != k {
                    let t1 = choose|t: int| 0 <= t < m.skip(1).len() && m.skip(1)[t].0 == u1[j
                        - 1].0;
                    assert(m[t1 + 1].0 == u[j].0);
                }
            }
        }
        assert forall|i: int, j: int| 0 <= i < j < u.len() implies u[i].0 != u[j].0 by {
            if i == 0 {
                assert(u[j] == u1[j - 1]);
                if u1[j - 1].0 == k {
                } else {
                    let t1 = choose|t: int| 0 <= t < m.skip(1).len() && m.skip(1)[t].0 == u1[j
                        - 1].0;
                    assert(m[t1 + 1].0 == u[j].0);
                    assert(m[0].0 != m[t1 + 1].0);
                }
            } else {
                assert(u[i] == u1[i - 1] && u[j] == u1[j - 1]);
            }
        }
    }
}

/// A string the decoder accepts is valid UTF-8.
pub proof fn lemma_spec_string_body_utf8(s: Seq<u8>, i: int, acc: Seq<u8>)
    ensures
        spec_string_body(s, i, acc) matches Ok((b, k)) ==> is_utf8(b),
    decreases s.len() - i,
{
    if 0 <= i < s.len() {
        if s[i] == 0x5c {
            match escape_step(s, i) {
                Ok((bytes, j)) => {
                    lemma_escape_step_advances(s, i);
                    lemma_spec_string_body_utf8(s, at_least(j, i + 2), acc + bytes);
                },
                Err(_) => {},
            }
        } else if s[i] != 0x22 {
            lemma_spec_string_body_utf8(s, i + 1, acc.push(s[i]));
        }
    }
}

/// Every tree the parser accepts is well formed.
pub proof fn lemma_spec_value_wf(s: Seq<u8>, i: int)
    requires
        0 <= i <= s.len(),
    ensures
        spec_value(s, i) matches Ok((v, k)) ==> wf_value(v),
    decreases s.len() - i, 3int,
{
    broadcast use lemma_skip_ws_bounds;

    let j = skip_ws(s, i);
    if j < s.len() {
        let c = s[j];
        if c == 0x22 {
            if 0 <= j < s.len() && s[j] == 0x22 {
                lemma_spec_string_body_utf8(s, j + 1, Seq::empty());
            }
        } else if c == 0x5b {
            lemma_spec_array_body_wf(s, j + 1);
        } else if c == 0x7b {
            lemma_spec_object_body_wf(s, j + 1);
        } else if is_digit(c) || c == 0x2d {
            lemma_number_run_bounds(s, j);
        }
    }
}

pub proof fn lemma_spec_array_body_wf(s: Seq<u8>, i: int)
    requires
        0 <= i <= s.len(),
    ensures
        spec_array_body(s, i) matches Ok((v, k)) ==> wf_value(v),
    decreases s.len() - i, 5int,
{
    broadcast use lemma_skip_ws_bounds;

    let j = skip_ws(s, i);
    if j < s.len() && s[j] != 0x5d {
        lemma_spec_array_items_wf(s, j, Seq::empty());
    }
}

pub proof fn lemma_spec_array_items_wf(s: Seq<u8>, i: int, acc: Seq<SpecValue>)
    requires
        0 <= i <= s.len(),
        wf_items(acc),
    ensures
        spec_array_items(s, i, acc) matches Ok((v, k)) ==> wf_value(v),
    decreases s.len() - i, 4int,
{
    broadcast use lemma_skip_ws_bounds;

    let j = skip_ws(s, i);
    lemma_spec_value_advances(s, j);
    lemma_spec_value_wf(s, j);
    match spec_value(s, j) {
        Err(_) => {},
        Ok((v, k0)) => {
            let k = at_least(k0, j + 1);
            let m = skip_ws(s, k);
            lemma_wf_items_push(acc, v);
            if m < s.len() && s[m] == 0x2c {
                lemma_spec_array_items_wf(s, m + 1, acc.push(v));
            }
        },
    }
}

pub proof fn lemma_spec_object_body_wf(s: Seq<u8>, i: int)
    requires
        0 <= i <= s.len(),
    ensures
        spec_object_body(s, i) matches Ok((v, k)) ==> wf_value(v),
    decreases s.len() - i, 5int,
{
    broadcast use lemma_skip_ws_bounds;

    let j = skip_ws(s, i);
    if j < s.len() && s[j] != 0x7d {
        lemma_spec_object_items_wf(s, j, Seq::empty());
    }
}

pub proof fn lemma_spec_object_items_wf(s: Seq<u8>, i: int, acc: Seq<(Seq<u8>, SpecValue)>)
    requires
        0 <= i <= s.len(),
        wf_entries(acc),
        keys_unique(acc),
    ensures
        spec_object_items(s, i, acc) matches Ok((v, k)) ==> wf_value(v),
    decreases s.len() - i, 4int,
{
    broadcast use lemma_skip_ws_bounds, lemma_spec_string_advances;

    let j = skip_ws(s, i);
    match spec_string(s, j) {
        Err(_) => {},
        Ok((key, k0)) => {
            if 0 <= j < s.len() && s[j] == 0x22 {
                lemma_spec_string_body_utf8(s, j + 1, Seq::empty());
            }
            let k = at_least(k0, j + 1);
            let m = skip_ws(s, k);
            if m < s.len() && s[m] == 0x3a {
                lemma_spec_value_advances(s, m + 1);
                lemma_spec_value_wf(s, m + 1);
                match spec_value(s, m + 1) {
                    Err(_) => {},
                    Ok((v, q0)) => {
                        let q = at_least(q0, m + 2);
                        let t = skip_ws(s, q);
                        lemma_upsert_wf(acc, key, v);
                        if t < s.len() && s[t] == 0x2c {
                            lemma_spec_object_items_wf(s, t + 1, upsert(acc, key, v));
                        }
                    },
                }
            }
        },
    }
}

// ---------------------------------------------------------------------------
// The whole parse
// ---------------------------------------------------------------------------
/// Inputs of this many bytes or more are rejected before parsing begins.
pub open spec fn size_cap() -> int {
    0x20000000
}

/// The parse of a whole input buffer: one value read from the front; bytes
/// after it are ignored.
pub open spec fn spec_parse(s: Seq<u8>) -> SpecParsed<SpecValue> {
    spec_value(s, 0)
}

/// Every successfully parsed tree is well formed: object keys are unique
/// and valid UTF-8, strings are valid UTF-8, and numbers are bounded float
/// literals.
pub proof fn lemma_parse_wf(s: Seq<u8>)
    ensures
        spec_parse(s) matches Ok((v, k)) ==> wf_value(v),
{
    lemma_spec_value_wf(s, 0);
}

/// Whitespace ahead of a value never changes what is parsed: the parse from
/// `i` equals the parse from the first significant byte.
pub proof fn lemma_leading_ws_ignored(s: Seq<u8>, i: int)
    requires
        0 <= i <= s.len(),
    ensures
        spec_value(s, i) == spec_value(s, skip_ws(s, i)),
{
    broadcast use lemma_skip_ws_bounds;

    let j = skip_ws(s, i);
    assert(skip_ws(s, j) == j);
}

/// Parsing is a function of the input bytes alone: two parses of the same
/// input, each against a fresh document, yield the same abstract outcome —
/// the same value tree, or the same error at the same position.
pub proof fn lemma_parse_deterministic(
    s: Seq<u8>,
    r1: SpecParsed<SpecValue>,
    r2: SpecParsed<SpecValue>,
)
    requires
        r1 == spec_parse(s),
        r2 == spec_parse(s),
    ensures
        r1 == r2,
{
}

/// Inserting under a key and then looking that key up yields the inserted
/// value: the last write wins.
pub proof fn lemma_upsert_last_wins(m: Seq<(Seq<u8>, SpecValue)>, k: Seq<u8>, v: SpecValue)
    ensures
        lookup(upsert(m, k, v), k) == Some(v),
    decreases m.len(),
{
    if m.len() != 0 && m[0].0 != k {
        lemma_upsert_last_wins(m.skip(1), k, v);
        assert((seq![m[0]] + upsert(m.skip(1), k, v)).skip(1) =~= upsert(m.skip(1), k, v));
    }
}

/// Inserting under one key leaves every other key's value unchanged.
pub proof fn lemma_upsert_preserves_others(
    m: Seq<(Seq<u8>, SpecValue)>,
    k: Seq<u8>,
    v: SpecValue,
    k2: Seq<u8>,
)
    requires
        k2 != k,
    ensures
        lookup(upsert(m, k, v), k2) == lookup(m, k2),
    decreases m.len(),
{
    let u = upsert(m, k, v);
    if m.len() == 0 {
        assert(u == seq![(k, v)]);
        assert(u.skip(1) =~= Seq::<(Seq<u8>, SpecValue)>::empty());
        assert(lookup(u, k2) == lookup(u.skip(1), k2));
        assert(lookup(u.skip(1), k2) == None::<SpecValue>);
    } else if m[0].0 == k {
        assert(u == seq![(k, v)] + m.skip(1));
        assert(u[0] == (k, v));
        assert(u.skip(1) =~= m.skip(1));
        assert(lookup(u, k2) == lookup(m.skip(1), k2));
        assert(lookup(m, k2) == lookup(m.skip(1), k2));
    } else {
        lemma_upsert_preserves_others(m.skip(1), k, v, k2);
        assert(u == seq![m[0]] + upsert(m.skip(1), k, v));
        assert(u[0] == m[0]);
        assert(u.skip(1) =~= upsert(m.skip(1), k, v));
        if m[0].0 == k2 {
            assert(lookup(u, k2) == Some(u[0].1));
            assert(lookup(m, k2) == Some(m[0].1));
        } else {
            assert(lookup(u, k2) == lookup(upsert(m.skip(1), k, v), k2));
            assert(lookup(m, k2) == lookup(m.skip(1), k2));
        }
    }
}

/// The diagnostic snippet reported with a parse error at position `i`: the
/// unconsumed remainder, capped at 500 bytes with an ellipsis when truncated,
/// decoded lossily.
pub open spec fn spec_snippet(s: Seq<u8>, i: int) -> Seq<char> {
    let rem = s.subrange(i, s.len() as int);
    if rem.len() >= 500 {
        utf8_lossy_of(rem.take(500)) + seq!['\u{2026}']
    } else {
        utf8_lossy_of(rem)
    }
}

} // verus!

