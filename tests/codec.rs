use cep_codec::codec::{decode_word, encode_word, parse_record, render_field};
use cep_codec::driver::convert;

fn input_of(lines: &[&str]) -> Vec<u8> {
    let mut v = Vec::new();
    for l in lines {
        v.extend_from_slice(l.as_bytes());
        v.push(b'\n');
    }
    v
}

#[test]
fn parses_and_encodes_example_line() {
    let v = parse_record(b"01310000").ok().unwrap();
    assert_eq!(v, 1310000);
    assert_eq!(v, 0x0013_fd30);
    assert_eq!(encode_word(v), [0x30, 0xfd, 0x13, 0x00]);
}

#[test]
fn converts_example_line() {
    let r = convert(b"01310000\n");
    assert_eq!(r.output, vec![0x30, 0xfd, 0x13, 0x00]);
    assert_eq!(r.records, 1);
    assert!(r.failure.is_none());
}

#[test]
fn empty_input_gives_empty_output() {
    let r = convert(b"");
    assert!(r.output.is_empty());
    assert_eq!(r.records, 0);
    assert!(r.failure.is_none());
}

#[test]
fn letters_are_rejected_and_carried_in_the_error() {
    let e = parse_record(b"ABCDEFGH").err().unwrap();
    assert_eq!(e.raw_line, b"ABCDEFGH".to_vec());
}

#[test]
fn bad_line_aborts_the_run_after_earlier_words() {
    let input = input_of(&["00000001", "00000002", "ABCDEFGH", "00000004"]);
    let r = convert(&input);
    assert_eq!(r.records, 2);
    assert_eq!(r.output, vec![1, 0, 0, 0, 2, 0, 0, 0]);
    let failure = r.failure.unwrap();
    assert_eq!(failure.raw_line, b"ABCDEFGH\n".to_vec());
}

#[test]
fn bad_first_line_gives_no_output() {
    let r = convert(b"ABCDEFGH\n01310000\n");
    assert!(r.output.is_empty());
    assert_eq!(r.records, 0);
    assert!(r.failure.is_some());
}

#[test]
fn output_is_four_bytes_per_line() {
    let input = input_of(&["12345678", "00000000", "99999999", "01310000", "40000000"]);
    let r = convert(&input);
    assert_eq!(r.records, 5);
    assert_eq!(r.output.len(), 4 * 5);
    assert!(r.failure.is_none());
}

#[test]
fn words_round_trip_to_the_fields() {
    let fields = ["12345678", "00000000", "99999999", "01310000", "00000042"];
    let r = convert(&input_of(&fields));
    for (i, f) in fields.iter().enumerate() {
        let w = [r.output[4 * i], r.output[4 * i + 1], r.output[4 * i + 2], r.output[4 * i + 3]];
        let v = decode_word(w);
        assert_eq!(render_field(v), f.as_bytes().to_vec());
    }
}

#[test]
fn words_keep_input_order() {
    let input = input_of(&["00000003", "00000001", "00000002", "00000001"]);
    let r = convert(&input);
    assert_eq!(r.output, vec![3, 0, 0, 0, 1, 0, 0, 0, 2, 0, 0, 0, 1, 0, 0, 0]);
}

#[test]
fn rerun_gives_identical_bytes() {
    let input = input_of(&["12345678", "87654321", "00000001"]);
    let a = convert(&input);
    let b = convert(&input);
    assert_eq!(a.output, b.output);
    assert_eq!(a.records, b.records);
}

#[test]
fn trailing_content_is_ignored() {
    assert_eq!(parse_record(b"01310000;SP;Sao Paulo").ok(), Some(1310000));
    assert_eq!(parse_record(b"0131000012").ok(), Some(1310000));
    let r = convert(b"01310000 anything\r\n00000255");
    assert_eq!(r.output, vec![0x30, 0xfd, 0x13, 0x00, 0xff, 0, 0, 0]);
    assert_eq!(r.records, 2);
}

#[test]
fn short_lines_are_rejected() {
    assert!(parse_record(b"").is_err());
    assert!(parse_record(b"0131000").is_err());
    assert!(parse_record(b"0131000\n").is_err());
    let r = convert(b"01310000\n\n");
    assert_eq!(r.records, 1);
    assert_eq!(r.failure.unwrap().raw_line, b"\n".to_vec());
}

#[test]
fn signs_and_separators_are_rejected() {
    assert!(parse_record(b"+1310000").is_err());
    assert!(parse_record(b"-1310000").is_err());
    assert!(parse_record(b"0131-000").is_err());
    assert!(parse_record(b" 1310000").is_err());
}

#[test]
fn largest_field_fits() {
    assert_eq!(parse_record(b"99999999").ok(), Some(99_999_999));
    assert_eq!(encode_word(99_999_999), [0xff, 0xe0, 0xf5, 0x05]);
}

#[test]
fn encoding_is_little_endian_for_every_width() {
    assert_eq!(encode_word(0), [0, 0, 0, 0]);
    assert_eq!(encode_word(0xdead_beef), [0xef, 0xbe, 0xad, 0xde]);
    assert_eq!(encode_word(u32::MAX), [0xff, 0xff, 0xff, 0xff]);
    assert_eq!(encode_word(0x0014_0170), [0x70, 0x01, 0x14, 0x00]);
    assert_eq!(decode_word([0xef, 0xbe, 0xad, 0xde]), 0xdead_beef);
}

#[test]
fn rendering_pads_with_zeros() {
    assert_eq!(render_field(0), b"00000000".to_vec());
    assert_eq!(render_field(1310000), b"01310000".to_vec());
    assert_eq!(render_field(99_999_999), b"99999999".to_vec());
}
