use rust_json_parse::number::check_float_literal;
use rust_json_parse::parse;
use rust_json_parse::slice_iter::take_static;
use rust_json_parse::slice_iter::SliceIter;
use rust_json_parse::JsonValue;

fn string_bytes(input: &[u8]) -> Vec<u8> {
    match parse(input).unwrap() {
        JsonValue::String(b) => b,
        other => panic!("expected string, got {:?}", other),
    }
}

#[test]
fn unicode_escape_decodes_to_ascii() {
    assert_eq!(string_bytes(b"\"\\u0041\""), b"A".to_vec());
}

#[test]
fn surrogate_pair_decodes_to_one_scalar() {
    // U+1F995 encodes as the four bytes f0 9f a6 95.
    assert_eq!(
        string_bytes(b"\"\\uD83E\\uDD95\""),
        vec![0xf0, 0x9f, 0xa6, 0x95]
    );
}

#[test]
fn control_range_escape_decodes_to_raw_byte() {
    assert_eq!(string_bytes(b"\"\\u0003\""), vec![0x03]);
}

#[test]
fn two_independent_units_decode_separately() {
    assert_eq!(string_bytes(b"\"\\u0041\\u0042\""), b"AB".to_vec());
}

#[test]
fn simple_escapes_decode_to_control_bytes() {
    assert_eq!(
        string_bytes(b"\"\\\"\\\\\\/\\b\\f\\n\\r\\t\""),
        vec![0x22, 0x5c, 0x2f, 0x08, 0x0c, 0x0a, 0x0d, 0x09]
    );
}

#[test]
fn two_byte_and_three_byte_escapes() {
    // U+00E9 is c3 a9; U+3ED8 is e3 bb 98.
    assert_eq!(string_bytes(b"\"\\u00E9\""), vec![0xc3, 0xa9]);
    assert_eq!(string_bytes(b"\"\\u3ED8\""), vec![0xe3, 0xbb, 0x98]);
}

#[test]
fn lowercase_hex_digits_are_accepted() {
    assert_eq!(string_bytes(b"\"\\u00e9\""), vec![0xc3, 0xa9]);
}

#[test]
fn long_plain_run_crosses_chunk_boundaries() {
    // Exercises the chunked scan on runs longer than one chunk and with
    // unaligned tails.
    for n in [1usize, 7, 8, 9, 15, 16, 17, 31, 64, 100] {
        let body = "a".repeat(n);
        let text = format!("\"{}\"", body);
        assert_eq!(string_bytes(text.as_bytes()), body.as_bytes().to_vec());
    }
}

#[test]
fn float_literal_grammar() {
    let yes = ["1", "1.", ".5", "1.5", "-1.5e10", "1e5", "1E+5", "1.e5", "+1", "-0.0e-0"];
    for t in yes {
        assert!(check_float_literal(&t.as_bytes().to_vec()), "{}", t);
        assert!(t.parse::<f64>().is_ok(), "{}", t);
    }
    let no = ["", ".", "-", "+", "1.2.3", "1e", "e5", "1e+", "--1", "1..2", "1ee5", "."];
    for t in no {
        assert!(!check_float_literal(&t.as_bytes().to_vec()), "{}", t);
        assert!(t.parse::<f64>().is_err(), "{}", t);
    }
}

#[test]
fn cursor_peek_and_next() {
    let data = [1u8, 2, 3];
    let mut it = SliceIter::new(&data);
    assert_eq!(it.peek_copy(), Some(1));
    assert_eq!(it.next(), Some(1));
    assert_eq!(it.next(), Some(2));
    assert_eq!(it.peek_copy(), Some(3));
    assert_eq!(it.next(), Some(3));
    assert_eq!(it.next(), None);
    assert_eq!(it.peek_copy(), None);
}

#[test]
fn cursor_peek_many_and_ignore() {
    let data = *b"abcdef";
    let mut it = SliceIter::new(&data);
    assert_eq!(it.peek_many_ref(3), Some(&b"abc"[..]));
    assert_eq!(it.peek_many_ref(7), None);
    it.ignore_many(4);
    assert_eq!(it.peek_copy(), Some(b'e'));
    it.ignore_many(10);
    assert_eq!(it.peek_copy(), None);
}

#[test]
fn cursor_chunked_scan_stops_at_markers() {
    let data = *b"aaaaaaaaaaaaaaaaaaaa\\rest";
    let mut it = SliceIter::new(&data);
    let run = it.take_while_chunked(b'"', b'\\');
    assert_eq!(run, &b"aaaaaaaaaaaaaaaaaaaa"[..]);
    assert_eq!(it.next(), Some(b'\\'));
}

#[test]
fn cursor_chunked_scan_runs_to_the_end() {
    let data = *b"abcdefgh";
    let mut it = SliceIter::new(&data);
    let run = it.take_while_chunked(b'"', b'\\');
    assert_eq!(run, &b"abcdefgh"[..]);
    assert_eq!(it.next(), None);
}

#[test]
fn take_static_reads_fixed_arrays() {
    let data = *b"wxyz";
    let mut it = SliceIter::new(&data);
    let four: Option<[u8; 4]> = take_static(&mut it);
    assert_eq!(four, Some(*b"wxyz"));
    let more: Option<[u8; 1]> = take_static(&mut it);
    assert_eq!(more, None);
}

#[test]
fn take_static_consumes_short_remainder() {
    let data = *b"wx";
    let mut it = SliceIter::new(&data);
    let four: Option<[u8; 4]> = take_static(&mut it);
    assert_eq!(four, None);
    assert_eq!(it.next(), None);
}
