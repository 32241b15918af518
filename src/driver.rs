//! Driver: the decisions of a conversion run, as a state machine.
//!
//! The caller owns the input stream and the output sink. It performs each
//! `Action` the driver asks for and reports what happened as an `Event`.
use vstd::prelude::*;
use crate::lines::{
    is_terminated_line, joined, lemma_split_joined, lemma_split_lines_len, lemma_split_lines_step,
    split_lines, LineSource, Pull,
};
use crate::codec::{
    encode_word, encoded, field_value, has_field, lemma_encoded_len, lemma_encoded_word,
    lemma_record_round_trip, padded_digits, parse_record, word_bytes, word_value, ParseError,
    FIELD_WIDTH, WORD_SIZE,
};

verus! {

/// The stream operation that failed.
#[derive(Clone, Copy, Debug, PartialEq, Eq, Structural)]
pub enum IoOperation {
    Open,
    Read,
    Write,
    Flush,
}

/// A failure to open, read, write or flush one of the streams.
pub struct IoError {
    pub operation: IoOperation,
    pub cause: String,
}

/// What ends a run early.
pub enum FatalError {
    Parse(ParseError),
    Io(IoError),
}

/// Where a run stands.
#[derive(Clone, Copy, Debug, PartialEq, Eq, Structural)]
pub enum Phase {
    /// Pulling lines and appending their words.
    Reading,
    /// A fatal error stopped the loop; the output is being flushed.
    Aborting,
    /// The input has ended; the output is being flushed.
    Flushing,
    /// Terminal: every line was converted and the output flushed.
    Done,
    /// Terminal: the run stopped on a fatal error.
    Failed,
}

/// What the caller reports back to the driver.
pub enum Event {
    /// The line source produced a line.
    Line(Vec<u8>),
    /// The line source reported the end of the input.
    EndOfInput,
    /// The output sink has been flushed.
    Flushed,
    /// A read, write or flush failed.
    IoFailed(IoError),
}

/// What the driver asks the caller to do next.
pub enum Action {
    /// Pull the next line from the line source.
    Pull,
    /// Append these four bytes to the output sink, then pull the next line.
    Append([u8; 4]),
    /// Flush the output sink.
    Flush,
    /// The run is over.
    Stop,
}

/// Record count and elapsed wall-clock time of a run.
pub struct Summary {
    pub records: u64,
    pub elapsed_micros: u64,
}

pub open spec fn all_records(lines: Seq<Seq<u8>>) -> bool {
    forall|i: int| 0 <= i < lines.len() ==> has_field(#[trigger] lines[i])
}

/// The state of one run: its phase, the records converted so far and the
/// fatal error that stopped it, if any. `new` leaves the initial state and
/// starts reading.
pub struct Driver {
    phase: Phase,
    records: u64,
    error: Option<FatalError>,
    lines: Ghost<Seq<Seq<u8>>>,
}

impl Driver {
    pub closed spec fn phase_of(&self) -> Phase {
        self.phase
    }

    pub closed spec fn records_of(&self) -> nat {
        self.records as nat
    }

    pub closed spec fn error_of(&self) -> Option<FatalError> {
        self.error
    }

    /// The lines received so far, in order.
    pub closed spec fn lines(&self) -> Seq<Seq<u8>> {
        self.lines@
    }

    /// The bytes that the driver has asked to append so far.
    pub open spec fn output(&self) -> Seq<u8> {
        encoded(self.lines().take(self.records_of() as int))
    }

    /// The records are the leading lines received; a parse error holds the
    /// line after them, which carries no record.
    pub closed spec fn wf(&self) -> bool {
        &&& self.records <= self.lines@.len()
        &&& all_records(self.lines@.take(self.records as int))
        &&& match self.phase {
            Phase::Reading | Phase::Flushing | Phase::Done => {
                &&& self.error is None
                &&& self.records == self.lines@.len()
            },
            Phase::Aborting | Phase::Failed => self.error is Some,
        }
        &&& match self.error {
            Some(FatalError::Parse(e)) => {
                &&& self.records + 1 == self.lines@.len()
                &&& !has_field(self.lines@.last())
                &&& e.raw_line@ == self.lines@.last()
            },
            Some(FatalError::Io(_)) => self.records == self.lines@.len(),
            None => true,
        }
    }

    pub open spec fn is_terminal(&self) -> bool {
        self.phase_of() is Done || self.phase_of() is Failed
    }

    /// A run that has received no line yet.
    pub fn new() -> (r: Driver)
        ensures
            r.wf(),
            r.phase_of() == Phase::Reading,
            r.records_of() == 0,
            r.lines() == Seq::<Seq<u8>>::empty(),
    {
        Driver { phase: Phase::Reading, records: 0, error: None, lines: Ghost(Seq::empty()) }
    }

    pub fn phase(&self) -> (r: Phase)
        ensures
            r == self.phase_of(),
    {
        self.phase
    }

    /// Number of records converted so far.
    pub fn records(&self) -> (r: u64)
        ensures
            r as nat == self.records_of(),
    {
        self.records
    }

    /// Decides what follows `event`.
    ///
    /// While reading, a line with a record is counted and its word is to be
    /// appended; a line without one, or a failed read or write, aborts the run
    /// and the output is flushed. The end of the input leads to a flush. A
    /// flush ends the run: as done after the end of the input, as failed
    /// after an abort. A failed flush fails the run; the first fatal error is
    /// the one kept.
    pub fn step(&mut self, event: Event) -> (action: Action)
        requires
            old(self).wf(),
            event is Line ==> old(self).records_of() < u64::MAX,
        ensures
            final(self).wf(),
            match (old(self).phase_of(), event) {
                (Phase::Reading, Event::Line(l)) => {
                    &&& final(self).lines() == old(self).lines().push(l@)
                    &&& if has_field(l@) {
                        &&& final(self).phase_of() == Phase::Reading
                        &&& final(self).records_of() == old(self).records_of() + 1
                        &&& action matches Action::Append(w) && w@ == word_bytes(field_value(l@))
                    } else {
                        &&& final(self).phase_of() == Phase::Aborting
                        &&& final(self).records_of() == old(self).records_of()
                        &&& final(self).error_of() == Some(FatalError::Parse(ParseError { raw_line: l }))
                        &&& action is Flush
                    }
                },
                (Phase::Reading, Event::EndOfInput) => {
                    &&& final(self).lines() == old(self).lines()
                    &&& final(self).records_of() == old(self).records_of()
                    &&& final(self).phase_of() == Phase::Flushing
                    &&& action is Flush
                },
                (Phase::Reading, Event::IoFailed(e)) => {
                    &&& final(self).lines() == old(self).lines()
                    &&& final(self).records_of() == old(self).records_of()
                    &&& final(self).phase_of() == Phase::Aborting
                    &&& final(self).error_of() == Some(FatalError::Io(e))
                    &&& action is Flush
                },
                (Phase::Flushing, Event::Flushed) => {
                    &&& final(self).lines() == old(self).lines()
                    &&& final(self).records_of() == old(self).records_of()
                    &&& final(self).phase_of() == Phase::Done
                    &&& action is Stop
                },
                (Phase::Flushing, Event::IoFailed(e)) => {
                    &&& final(self).lines() == old(self).lines()
                    &&& final(self).records_of() == old(self).records_of()
                    &&& final(self).phase_of() == Phase::Failed
                    &&& final(self).error_of() == Some(FatalError::Io(e))
                    &&& action is Stop
                },
                (Phase::Aborting, Event::Flushed) | (Phase::Aborting, Event::IoFailed(_)) => {
                    &&& final(self).lines() == old(self).lines()
                    &&& final(self).records_of() == old(self).records_of()
                    &&& final(self).phase_of() == Phase::Failed
                    &&& final(self).error_of() == old(self).error_of()
                    &&& action is Stop
                },
                (p, _) => {
                    &&& *final(self) == *old(self)
                    &&& if p is Done || p is Failed {
                        action is Stop
                    } else if p is Reading {
                        action is Pull
                    } else {
                        action is Flush
                    }
                },
            },
    {
        match event {
            Event::Line(l) => {
                if self.phase != Phase::Reading {
                    return self.repeat();
                }
                let ghost before = self.lines@;
                self.lines = Ghost(self.lines@.push(l@));
                proof {
                    assert(before.take(self.records as int) =~= before);
                    assert(self.lines@.take(self.records as int) =~= before);
                }
                match parse_record(l.as_slice()) {
                    Ok(v) => {
                        proof {
                            assert(self.lines@.take(self.records + 1) =~= self.lines@);
                        }
                        self.records = self.records + 1;
                        proof {
                            assert forall|i: int| 0 <= i < self.lines@.len() implies has_field(
                                #[trigger] self.lines@[i],
                            ) by {
                                if i < before.len() {
                                    assert(before.take(before.len() as int)[i] == before[i]);
                                }
                            }
                        }
                        Action::Append(encode_word(v))
                    },
                    Err(_) => {
                        self.phase = Phase::Aborting;
                        self.error = Some(FatalError::Parse(ParseError { raw_line: l }));
                        Action::Flush
                    },
                }
            },
            Event::EndOfInput => {
                if self.phase != Phase::Reading {
                    return self.repeat();
                }
                self.phase = Phase::Flushing;
                Action::Flush
            },
            Event::Flushed => {
                if self.phase == Phase::Flushing {
                    self.phase = Phase::Done;
                    Action::Stop
                } else if self.phase == Phase::Aborting {
                    self.phase = Phase::Failed;
                    Action::Stop
                } else {
                    self.repeat()
                }
            },
            Event::IoFailed(e) => {
                if self.phase == Phase::Reading {
                    self.phase = Phase::Aborting;
                    self.error = Some(FatalError::Io(e));
                    Action::Flush
                } else if self.phase == Phase::Flushing {
                    self.phase = Phase::Failed;
                    self.error = Some(FatalError::Io(e));
                    Action::Stop
                } else if self.phase == Phase::Aborting {
                    self.phase = Phase::Failed;
                    Action::Stop
                } else {
                    self.repeat()
                }
            },
        }
    }

    /// The action that stands while an event that does not apply is ignored.
    fn repeat(&self) -> (action: Action)
        ensures
            match self.phase_of() {
                Phase::Done | Phase::Failed => action is Stop,
                Phase::Reading => action is Pull,
                _ => action is Flush,
            },
    {
        match self.phase {
            Phase::Done | Phase::Failed => Action::Stop,
            Phase::Reading => Action::Pull,
            _ => Action::Flush,
        }
    }

    /// Ends a terminal run: its summary when it is done, its fatal error when
    /// it failed.
    pub fn finish(self, elapsed_micros: u64) -> (r: Result<Summary, FatalError>)
        requires
            self.wf(),
            self.is_terminal(),
        ensures
            self.phase_of() is Done ==> (r matches Ok(s) && s.records as nat == self.records_of()
                && s.elapsed_micros == elapsed_micros),
            self.phase_of() is Failed ==> (r matches Err(e) && Some(e) == self.error_of()),
    {
        match self.error {
            Some(e) => Err(e),
            None => Ok(Summary { records: self.records, elapsed_micros }),
        }
    }
}

/// The words appended so far are four bytes per record, in input order.
pub proof fn lemma_driver_output(d: Driver, i: int)
    requires
        d.wf(),
        0 <= i < d.records_of(),
    ensures
        d.output().len() == 4 * d.records_of(),
        d.output().subrange(4 * i, 4 * i + 4) == word_bytes(field_value(d.lines()[i])),
{
    lemma_encoded_len(d.lines().take(d.records_of() as int));
    lemma_encoded_word(d.lines().take(d.records_of() as int), i);
}

/// The result of converting a whole input held in memory.
pub struct Conversion {
    /// The words of the records before the first line without one.
    pub output: Vec<u8>,
    /// Number of records converted.
    pub records: u64,
    /// The first line without a record, if there is one.
    pub failure: Option<ParseError>,
}

/// `r` is what converting `input` gives: the words of the leading lines
/// that carry a record, up to the first line that does not.
pub open spec fn converts(input: Seq<u8>, r: Conversion) -> bool {
    let lines = split_lines(input);
    &&& r.records <= lines.len()
    &&& all_records(lines.take(r.records as int))
    &&& r.output@ == encoded(lines.take(r.records as int))
    &&& match r.failure {
        None => r.records == lines.len(),
        Some(e) => {
            &&& r.records < lines.len()
            &&& !has_field(lines[r.records as int])
            &&& e.raw_line@ == lines[r.records as int]
        },
    }
}

/// Converting the same input again gives byte-identical output, the same
/// count and the same failing line: nothing but the input decides them.
pub proof fn lemma_conversion_deterministic(input: Seq<u8>, a: Conversion, b: Conversion)
    requires
        converts(input, a),
        converts(input, b),
    ensures
        a.output@ == b.output@,
        a.records == b.records,
        a.failure is None <==> b.failure is None,
        a.failure is Some ==> a.failure->Some_0.raw_line@ == b.failure->Some_0.raw_line@,
{
    let lines = split_lines(input);
    if a.records < b.records {
        assert(lines.take(b.records as int)[a.records as int] == lines[a.records as int]);
    }
    if b.records < a.records {
        assert(lines.take(a.records as int)[b.records as int] == lines[b.records as int]);
    }
}

/// A conversion writes four bytes per record; when every line carries a
/// record, all of them are converted.
pub proof fn lemma_conversion_length(input: Seq<u8>, r: Conversion)
    requires
        converts(input, r),
    ensures
        r.output@.len() == WORD_SIZE * r.records,
        all_records(split_lines(input)) ==> r.records == split_lines(input).len() && r.failure is None,
{
    let lines = split_lines(input);
    lemma_encoded_len(lines.take(r.records as int));
    if all_records(lines) && r.failure is Some {
        assert(has_field(lines[r.records as int]));
    }
}

/// Word `i` of a conversion's output is the encoding of input line `i`.
pub proof fn lemma_conversion_order(input: Seq<u8>, r: Conversion, i: int)
    requires
        converts(input, r),
        0 <= i < r.records,
    ensures
        r.output@.subrange(WORD_SIZE * i, WORD_SIZE * i + WORD_SIZE) == word_bytes(
            field_value(split_lines(input)[i]),
        ),
{
    let done = split_lines(input).take(r.records as int);
    lemma_encoded_word(done, i);
    assert(done[i] == split_lines(input)[i]);
}

/// Decoding word `i` of a conversion's output and rendering it as eight
/// zero-padded digits gives back the first eight bytes of input line `i`.
pub proof fn lemma_conversion_round_trip(input: Seq<u8>, r: Conversion, i: int)
    requires
        converts(input, r),
        0 <= i < r.records,
    ensures
        padded_digits(
            word_value(r.output@.subrange(WORD_SIZE * i, WORD_SIZE * i + WORD_SIZE)),
            FIELD_WIDTH as nat,
        ) == split_lines(input)[i].take(FIELD_WIDTH as int),
{
    let done = split_lines(input).take(r.records as int);
    assert(done[i] == split_lines(input)[i]);
    assert(has_field(done[i]));
    lemma_record_round_trip(done, i);
}

/// Converting `N` newline-terminated lines that all carry a record succeeds
/// with `N` records and `4 * N` bytes; word `i` is the encoding of line `i`,
/// and decoding it and rendering it as eight digits gives back the line's
/// first eight bytes.
pub proof fn lemma_run_of_records(lines: Seq<Seq<u8>>, r: Conversion)
    requires
        forall|i: int| 0 <= i < lines.len() ==> is_terminated_line(#[trigger] lines[i]),
        all_records(lines),
        converts(joined(lines), r),
    ensures
        r.failure is None,
        r.records == lines.len(),
        r.output@.len() == WORD_SIZE * lines.len(),
        forall|i: int|
            0 <= i < lines.len() ==> r.output@.subrange(WORD_SIZE * i, WORD_SIZE * i + WORD_SIZE)
                == word_bytes(field_value(#[trigger] lines[i])),
        forall|i: int|
            0 <= i < lines.len() ==> padded_digits(
                word_value(r.output@.subrange(WORD_SIZE * i, WORD_SIZE * i + WORD_SIZE)),
                FIELD_WIDTH as nat,
            ) == (#[trigger] lines[i]).take(FIELD_WIDTH as int),
{
    lemma_split_joined(lines);
    lemma_conversion_length(joined(lines), r);
    assert forall|i: int| 0 <= i < lines.len() implies r.output@.subrange(
        WORD_SIZE * i,
        WORD_SIZE * i + WORD_SIZE,
    ) == word_bytes(field_value(#[trigger] lines[i])) && padded_digits(
        word_value(r.output@.subrange(WORD_SIZE * i, WORD_SIZE * i + WORD_SIZE)),
        FIELD_WIDTH as nat,
    ) == lines[i].take(FIELD_WIDTH as int) by {
        lemma_conversion_order(joined(lines), r, i);
        lemma_conversion_round_trip(joined(lines), r, i);
    }
}

/// Converting newline-terminated lines whose line `k` is the first without a
/// record fails on line `k`, after exactly the words of lines `0..k`, in
/// order; no later line is converted.
pub proof fn lemma_run_stops_at_first_bad_line(lines: Seq<Seq<u8>>, k: int, r: Conversion)
    requires
        forall|i: int| 0 <= i < lines.len() ==> is_terminated_line(#[trigger] lines[i]),
        0 <= k < lines.len(),
        all_records(lines.take(k)),
        !has_field(lines[k]),
        converts(joined(lines), r),
    ensures
        r.records == k,
        r.failure matches Some(e) && e.raw_line@ == lines[k],
        r.output@ == encoded(lines.take(k)),
        r.output@.len() == WORD_SIZE * k,
{
    lemma_split_joined(lines);
    if r.records < k {
        assert(lines.take(k)[r.records as int] == lines[r.records as int]);
    }
    if r.records > k {
        assert(lines.take(r.records as int)[k] == lines[k]);
    }
    lemma_conversion_length(joined(lines), r);
}

spec fn phase_rank(p: Phase) -> nat {
    match p {
        Phase::Reading => 2,
        Phase::Aborting | Phase::Flushing => 1,
        Phase::Done | Phase::Failed => 0,
    }
}

/// Runs the line source, the driver and an in-memory sink over `input`.
///
/// The output holds the words of the leading lines that carry a record, in
/// order; conversion stops at the first line that does not, which is
/// returned as the failure.
pub fn convert(input: &[u8]) -> (r: Conversion)
    ensures
        converts(input@, r),
{
    let input_len = input.len();
    let mut source = LineSource::new();
    source.feed(input);
    let empty: [u8; 0] = [];
    source.feed(&empty);
    proof {
        assert(source.pending() =~= input@);
        assert(Seq::<Seq<u8>>::empty() + split_lines(input@) =~= split_lines(input@));
        lemma_split_lines_len(input@);
    }
    let mut driver = Driver::new();
    let mut output: Vec<u8> = Vec::new();
    let mut action = Action::Pull;
    loop
        invariant
            driver.wf(),
            source.wf(),
            source.ended(),
            split_lines(input@) == driver.lines() + split_lines(source.pending()),
            split_lines(input@).len() <= input@.len(),
            input_len == input@.len(),
            !(driver.error_of() matches Some(FatalError::Io(_))),
            (driver.phase_of() is Flushing || driver.phase_of() is Done) ==> source.pending().len() == 0,
            match driver.phase_of() {
                Phase::Reading => action is Pull || action is Append,
                Phase::Aborting | Phase::Flushing => action is Flush,
                Phase::Done | Phase::Failed => action is Stop,
            },
            match action {
                Action::Append(w) => output@ + w@ == driver.output(),
                _ => output@ == driver.output(),
            },
        ensures
            driver.wf(),
            driver.is_terminal(),
            split_lines(input@) == driver.lines() + split_lines(source.pending()),
            !(driver.error_of() matches Some(FatalError::Io(_))),
            driver.phase_of() is Done ==> source.pending().len() == 0,
            output@ == driver.output(),
        decreases source.pending().len(), phase_rank(driver.phase_of()),
    {
        match action {
            Action::Stop => {
                break;
            },
            Action::Flush => {
                action = driver.step(Event::Flushed);
            },
            _ => {
                if let Action::Append(w) = action {
                    output.push(w[0]);
                    output.push(w[1]);
                    output.push(w[2]);
                    output.push(w[3]);
                    assert(output@ =~= driver.output());
                }
                let ghost lines_before = driver.lines();
                let ghost p = source.pending();
                let event = match source.next_line() {
                    Pull::Line(l) => Event::Line(l),
                    _ => Event::EndOfInput,
                };
                proof {
                    if p.len() > 0 {
                        lemma_split_lines_step(p);
                        assert(split_lines(p).len() > 0);
                        assert(driver.records_of() == lines_before.len());
                        assert(lines_before.len() < input@.len());
                        
                    }
                }
                action = driver.step(event);
                proof {
                    if p.len() > 0 {
                        let n = crate::lines::first_line_len(p) as int;
                        assert(driver.lines() + split_lines(source.pending()) =~= lines_before
                            + split_lines(p));
                        let k = driver.records_of() as int;
                        if k == lines_before.len() + 1 {
                            lemma_encoded_len(lines_before);
                            assert(driver.lines().take(k) =~= driver.lines());
                            assert(driver.lines().drop_last() =~= lines_before);
                            assert(lines_before.take(k - 1) =~= lines_before);
                        } else {
                            assert(driver.lines().take(k) =~= lines_before.take(k));
                        }
                    }
                }
            },
        }
    }
    let records = driver.records();
    let ghost lines = driver.lines();
    let ghost all = split_lines(input@);
    proof {
        if driver.phase_of() is Done {
            assert(split_lines(source.pending()) =~= Seq::<Seq<u8>>::empty());
            assert(all =~= lines);
        } else {
            assert(all.take(records as int) =~= lines.take(records as int));
            assert(all[records as int] == lines[records as int]);
        }
    }
    let failure = match driver.finish(0) {
        Ok(_) => None,
        Err(FatalError::Parse(e)) => Some(e),
        Err(FatalError::Io(_)) => {
            proof {
                assert(false);
            }
            None
        },
    };
    Conversion { output, records, failure }
}

} // verus!
