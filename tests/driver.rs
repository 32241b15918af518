use cep_codec::driver::{Action, Driver, Event, FatalError, IoError, IoOperation, Phase};

fn io_error(operation: IoOperation) -> IoError {
    IoError { operation, cause: String::from("disk full") }
}

#[test]
fn run_of_good_lines_ends_done() {
    let mut d = Driver::new();
    assert_eq!(d.phase(), Phase::Reading);
    match d.step(Event::Line(b"01310000\n".to_vec())) {
        Action::Append(w) => assert_eq!(w, [0x30, 0xfd, 0x13, 0x00]),
        _ => panic!("expected a word to append"),
    }
    assert_eq!(d.records(), 1);
    assert!(matches!(d.step(Event::Line(b"00000001".to_vec())), Action::Append([1, 0, 0, 0])));
    assert!(matches!(d.step(Event::EndOfInput), Action::Flush));
    assert_eq!(d.phase(), Phase::Flushing);
    assert!(matches!(d.step(Event::Flushed), Action::Stop));
    assert_eq!(d.phase(), Phase::Done);
    let s = d.finish(1500).ok().unwrap();
    assert_eq!(s.records, 2);
    assert_eq!(s.elapsed_micros, 1500);
}

#[test]
fn empty_run_reports_zero_records() {
    let mut d = Driver::new();
    assert!(matches!(d.step(Event::EndOfInput), Action::Flush));
    assert!(matches!(d.step(Event::Flushed), Action::Stop));
    let s = d.finish(0).ok().unwrap();
    assert_eq!(s.records, 0);
}

#[test]
fn bad_line_aborts_then_flushes_then_fails() {
    let mut d = Driver::new();
    assert!(matches!(d.step(Event::Line(b"00000007\n".to_vec())), Action::Append(_)));
    assert!(matches!(d.step(Event::Line(b"ABCDEFGH\n".to_vec())), Action::Flush));
    assert_eq!(d.phase(), Phase::Aborting);
    assert_eq!(d.records(), 1);
    assert!(matches!(d.step(Event::Flushed), Action::Stop));
    assert_eq!(d.phase(), Phase::Failed);
    match d.finish(10) {
        Err(FatalError::Parse(e)) => assert_eq!(e.raw_line, b"ABCDEFGH\n".to_vec()),
        _ => panic!("expected a parse error"),
    }
}

#[test]
fn write_failure_aborts_the_run() {
    let mut d = Driver::new();
    assert!(matches!(d.step(Event::Line(b"00000007\n".to_vec())), Action::Append(_)));
    assert!(matches!(d.step(Event::IoFailed(io_error(IoOperation::Write))), Action::Flush));
    assert_eq!(d.phase(), Phase::Aborting);
    assert!(matches!(d.step(Event::Flushed), Action::Stop));
    match d.finish(0) {
        Err(FatalError::Io(e)) => assert_eq!(e.operation, IoOperation::Write),
        _ => panic!("expected an io error"),
    }
}

#[test]
fn flush_failure_fails_the_run() {
    let mut d = Driver::new();
    assert!(matches!(d.step(Event::EndOfInput), Action::Flush));
    assert!(matches!(d.step(Event::IoFailed(io_error(IoOperation::Flush))), Action::Stop));
    assert_eq!(d.phase(), Phase::Failed);
    match d.finish(0) {
        Err(FatalError::Io(e)) => assert_eq!(e.operation, IoOperation::Flush),
        _ => panic!("expected an io error"),
    }
}

#[test]
fn flush_failure_after_abort_keeps_the_first_error() {
    let mut d = Driver::new();
    assert!(matches!(d.step(Event::Line(b"ABCDEFGH".to_vec())), Action::Flush));
    assert!(matches!(d.step(Event::IoFailed(io_error(IoOperation::Flush))), Action::Stop));
    assert!(matches!(d.finish(0), Err(FatalError::Parse(_))));
}

#[test]
fn events_that_do_not_apply_change_nothing() {
    let mut d = Driver::new();
    assert!(matches!(d.step(Event::Flushed), Action::Pull));
    assert_eq!(d.phase(), Phase::Reading);
    assert!(matches!(d.step(Event::EndOfInput), Action::Flush));
    assert!(matches!(d.step(Event::Line(b"00000001".to_vec())), Action::Flush));
    assert_eq!(d.records(), 0);
    assert!(matches!(d.step(Event::Flushed), Action::Stop));
    assert!(matches!(d.step(Event::Line(b"00000001".to_vec())), Action::Stop));
    assert!(matches!(d.step(Event::EndOfInput), Action::Stop));
    assert_eq!(d.phase(), Phase::Done);
    assert_eq!(d.records(), 0);
}
