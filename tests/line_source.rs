use cep_codec::lines::{LineSource, Pull};

fn line(p: Pull) -> Vec<u8> {
    match p {
        Pull::Line(l) => l,
        Pull::NeedInput => panic!("expected a line, got a request for input"),
        Pull::End => panic!("expected a line, got the end"),
    }
}

#[test]
fn lines_come_out_whole_across_chunks() {
    let mut s = LineSource::new();
    assert!(matches!(s.next_line(), Pull::NeedInput));
    s.feed(b"0131");
    assert!(matches!(s.next_line(), Pull::NeedInput));
    s.feed(b"0000\n1234");
    assert_eq!(line(s.next_line()), b"01310000\n".to_vec());
    assert!(matches!(s.next_line(), Pull::NeedInput));
    s.feed(b"5678\n\n");
    assert_eq!(line(s.next_line()), b"12345678\n".to_vec());
    assert_eq!(line(s.next_line()), b"\n".to_vec());
    assert!(matches!(s.next_line(), Pull::NeedInput));
    assert!(!s.is_ended());
    s.feed(b"");
    assert!(s.is_ended());
    assert!(matches!(s.next_line(), Pull::End));
    assert!(matches!(s.next_line(), Pull::End));
}

#[test]
fn last_line_without_newline_comes_at_the_end() {
    let mut s = LineSource::new();
    s.feed(b"01310000");
    assert!(matches!(s.next_line(), Pull::NeedInput));
    s.feed(b"");
    assert_eq!(line(s.next_line()), b"01310000".to_vec());
    assert!(matches!(s.next_line(), Pull::End));
}

#[test]
fn empty_stream_ends_at_once() {
    let mut s = LineSource::new();
    s.feed(b"");
    assert!(matches!(s.next_line(), Pull::End));
}
