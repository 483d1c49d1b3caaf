use vstd::prelude::*;
use vstd::std_specs::iter::IteratorSpec;
use crate::interpreter::{empty_vm, execute_spec, execute_state, ExecError, Vm, VmModel};
use crate::record::{empty_record, Record, RecordModel};
use crate::transition::{next_state, transition, Operation, ParseState, State};

verus! {

/// What can go wrong while parsing, for one character.
#[derive(Clone, Copy, Debug, PartialEq, Eq, Structural)]
pub enum ErrorKind {
    /// The character has no transition in the current state; the machine
    /// went back to `State::Start` and skipped it.
    UnexpectedCharacter(char),
    /// The timestamp token was not a base-10 `i64`; the line yields no record.
    MalformedTimestamp,
    /// A token without a partner was dropped when the line was closed.
    UnbalancedTokens,
}

/// An error together with the index of the character (counted in chars, from
/// zero) at which it was found.
#[derive(Clone, Copy, Debug, PartialEq, Eq, Structural)]
pub struct ParseError {
    pub position: usize,
    pub kind: ErrorKind,
}

pub open spec fn error_kind(e: ExecError) -> ErrorKind {
    match e {
        ExecError::MalformedTimestamp => ErrorKind::MalformedTimestamp,
        ExecError::UnbalancedTokens => ErrorKind::UnbalancedTokens,
    }
}

/// The whole state of the parser between two characters. `stamped` tells
/// whether the current line has been given a timestamp.
pub struct ParserModel {
    pub state: State,
    pub vm: VmModel,
    pub record: RecordModel,
    pub stamped: bool,
}

/// The parser after one character, with the record it completed and the error
/// it found, if any.
pub struct Step {
    pub parser: ParserModel,
    pub record: Option<RecordModel>,
    pub error: Option<ErrorKind>,
}

pub open spec fn initial_parser() -> ParserModel {
    ParserModel { state: State::Start, vm: empty_vm(), record: empty_record(), stamped: false }
}

/// One character through the machine: the transition picks the operation,
/// the interpreter performs it. A record is emitted when attributes are
/// finalized on a line that has a timestamp; every `\n` starts a new record.
pub open spec fn feed_spec(p: ParserModel, c: char) -> Step {
    let ps = transition(p.state, c);
    let (vm, record, result) = execute_spec(p.vm, p.record, ps.op, c);
    let stamped = if ps.op == Operation::FinalizeTimestamp {
        result is Ok
    } else {
        p.stamped
    };
    let error = if ps.unexpected {
        Some(ErrorKind::UnexpectedCharacter(c))
    } else {
        match result {
            Ok(_) => None,
            Err(e) => Some(error_kind(e)),
        }
    };
    let emitted = if ps.op == Operation::FinalizeAttributes && stamped {
        Some(record)
    } else {
        None
    };
    if c == '\n' {
        Step {
            parser: ParserModel { state: ps.state, vm, record: empty_record(), stamped: false },
            record: emitted,
            error,
        }
    } else {
        Step { parser: ParserModel { state: ps.state, vm, record, stamped }, record: emitted, error }
    }
}

pub open spec fn option_seq<T>(o: Option<T>) -> Seq<T> {
    match o {
        Some(x) => seq![x],
        None => Seq::empty(),
    }
}

/// The parser after a sequence of characters, with the records and errors
/// produced on the way, in order.
pub struct Run {
    pub parser: ParserModel,
    pub records: Seq<RecordModel>,
    pub errors: Seq<ParseError>,
}

pub open spec fn run(p: ParserModel, s: Seq<char>) -> Run
    decreases s.len(),
{
    if s.len() == 0 {
        Run { parser: p, records: Seq::empty(), errors: Seq::empty() }
    } else {
        let prev = run(p, s.drop_last());
        let step = feed_spec(prev.parser, s.last());
        Run {
            parser: step.parser,
            records: prev.records + option_seq(step.record),
            errors: prev.errors + option_seq(step.error).map_values(
                |k: ErrorKind| ParseError { position: (s.len() - 1) as usize, kind: k },
            ),
        }
    }
}

/// The records that parsing `s` from the start yields.
pub open spec fn parse_records(s: Seq<char>) -> Seq<RecordModel> {
    run(initial_parser(), s).records
}

/// The errors that parsing `s` from the start reports.
pub open spec fn parse_errors(s: Seq<char>) -> Seq<ParseError> {
    run(initial_parser(), s).errors
}

pub open spec fn option_view(o: Option<Record>) -> Option<RecordModel> {
    match o {
        Some(r) => Some(r@),
        None => None,
    }
}

/// What one character produced.
pub struct Feed {
    pub record: Option<Record>,
    pub error: Option<ErrorKind>,
}

/// A parser that takes its input one character at a time.
pub struct Parser {
    state: State,
    vm: Vm,
    record: Record,
    stamped: bool,
}

impl View for Parser {
    type V = ParserModel;

    closed spec fn view(&self) -> ParserModel {
        ParserModel { state: self.state, vm: self.vm@, record: self.record@, stamped: self.stamped }
    }
}

impl Parser {
    pub closed spec fn wf(&self) -> bool {
        self.record.wf()
    }

    pub fn new() -> (r: Parser)
        ensures
            r.wf(),
            r@ == initial_parser(),
    {
        Parser { state: State::Start, vm: Vm::new(), record: Record::new(), stamped: false }
    }

    /// Feeds one character.
    pub fn feed(&mut self, c: char) -> (r: Feed)
        requires
            old(self).wf(),
        ensures
            final(self).wf(),
            final(self)@ == feed_spec(old(self)@, c).parser,
            option_view(r.record) == feed_spec(old(self)@, c).record,
            r.error == feed_spec(old(self)@, c).error,
            r.record matches Some(rec) ==> rec.wf(),
    {
        let current = ParseState { state: self.state, op: Operation::Skip, unexpected: false };
        let ps = next_state(c, &current);
        let result = execute_state(&mut self.vm, &mut self.record, ps, c);
        self.state = ps.state;
        if ps.op == Operation::FinalizeTimestamp {
            self.stamped = result.is_ok();
        }
        let error = if ps.unexpected {
            Some(ErrorKind::UnexpectedCharacter(c))
        } else {
            match result {
                Ok(_) => None,
                Err(ExecError::MalformedTimestamp) => Some(ErrorKind::MalformedTimestamp),
                Err(ExecError::UnbalancedTokens) => Some(ErrorKind::UnbalancedTokens),
            }
        };
        // Attributes are only finalized on `\n`, which also ends the record.
        let emit = ps.op == Operation::FinalizeAttributes && self.stamped;
        let mut record: Option<Record> = None;
        if c == '\n' {
            let mut done = Record::new();
            std::mem::swap(&mut done, &mut self.record);
            self.stamped = false;
            if emit {
                record = Some(done);
            }
        }
        Feed { record, error }
    }
}

/// Records and errors of a whole input.
pub struct Parsed {
    pub records: Vec<Record>,
    pub errors: Vec<ParseError>,
}

/// Parses `input` from the start state. Records come in input order; a line
/// that is not closed by `\n` yields none.
pub fn parse(input: &str) -> (r: Parsed)
    ensures
        r.records@.map_values(|x: Record| x@) == parse_records(input@),
        r.errors@ == parse_errors(input@),
        forall|i: int| 0 <= i < r.records@.len() ==> #[trigger] r.records@[i].wf(),
{
    broadcast use vstd::string::axiom_spec_iter, vstd::string::next_postcondition;

    let n = input.unicode_len();
    let mut parser = Parser::new();
    let mut records: Vec<Record> = Vec::new();
    let mut errors: Vec<ParseError> = Vec::new();
    let mut chars = input.chars();
    let mut i: usize = 0;
    loop
        invariant
            n == input@.len(),
            i <= n,
            chars.obeys_prophetic_iter_laws(),
            chars.remaining() == input@.skip(i as int),
            parser.wf(),
            parser@ == run(initial_parser(), input@.take(i as int)).parser,
            records@.map_values(|x: Record| x@) == run(initial_parser(), input@.take(i as int)).records,
            errors@ == run(initial_parser(), input@.take(i as int)).errors,
            forall|j: int| 0 <= j < records@.len() ==> #[trigger] records@[j].wf(),
        ensures
            records@.map_values(|x: Record| x@) == parse_records(input@),
            errors@ == parse_errors(input@),
            forall|j: int| 0 <= j < records@.len() ==> #[trigger] records@[j].wf(),
        decreases n - i,
    {
        let ghost prefix = input@.take(i as int);
        match chars.next() {
            Some(c) => {
                let ghost next = input@.take(i + 1);
                assert(next.drop_last() == prefix);
                assert(next.last() == c);
                let fed = parser.feed(c);
                let ghost old_records = records@;
                match fed.record {
                    Some(rec) => {
                        records.push(rec);
                    },
                    None => {},
                }
                assert(records@.map_values(|x: Record| x@) =~= old_records.map_values(
                    |x: Record| x@,
                ) + option_seq(feed_spec(run(initial_parser(), prefix).parser, c).record));
                let ghost old_errors = errors@;
                match fed.error {
                    Some(kind) => {
                        errors.push(ParseError { position: i, kind });
                    },
                    None => {},
                }
                assert(errors@ =~= old_errors + option_seq(
                    feed_spec(run(initial_parser(), prefix).parser, c).error,
                ).map_values(|k: ErrorKind| ParseError { position: (next.len() - 1) as usize, kind: k }));
                i = i + 1;
            },
            None => {
                assert(input@.take(i as int) == input@);
                break ;
            },
        }
    }
    Parsed { records, errors }
}

} // verus!
