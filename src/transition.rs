use vstd::prelude::*;

verus! {

/// Position of the state machine within a line.
#[derive(Clone, Copy, Debug, PartialEq, Eq, Structural)]
pub enum State {
    /// Start of input, or resynchronising after an unexpected character.
    Start,
    /// Inside the leading digit run of a line.
    Timestamp,
    /// Just after a `\n` that closed a line with attributes.
    TimestampOrEnd,
    /// Inside a key.
    Key,
    /// Just after `=`: a value or an opening quote comes next.
    ValueOrQuotedValue,
    /// Inside an unquoted value.
    Value,
    /// Inside a quoted value.
    QuotedValue,
    /// After the closing quote of a value.
    QuotedValueEnd,
    /// Just after a `\n` that closed a line without attributes.
    LineEnd,
    /// Inside a run of spaces before a key.
    Whitespace,
}

/// What the interpreter does with the current character.
#[derive(Clone, Copy, Debug, PartialEq, Eq, Structural)]
pub enum Operation {
    Accumulate,
    FinalizeTimestamp,
    PushToken,
    FinalizeAttributes,
    Skip,
}

/// Output of the transition function for one character. `unexpected` is set
/// when the character has no transition of its own in the current state and
/// the machine falls back to `State::Start`.
#[derive(Clone, Copy, Debug, PartialEq, Eq, Structural)]
pub struct ParseState {
    pub state: State,
    pub op: Operation,
    pub unexpected: bool,
}

pub open spec fn is_digit(c: char) -> bool {
    '0' <= c && c <= '9'
}

/// The states in which a timestamp may begin.
pub open spec fn is_line_start_state(s: State) -> bool {
    s == State::Start || s == State::LineEnd || s == State::Timestamp || s == State::TimestampOrEnd
}

pub open spec fn step_to(state: State, op: Operation) -> ParseState {
    ParseState { state, op, unexpected: false }
}

/// The transition table of the machine. Inside quotes a `,` belongs to the
/// value; elsewhere in a value it ends it.
pub open spec fn transition(state: State, c: char) -> ParseState {
    match state {
        State::Start | State::LineEnd | State::Timestamp | State::TimestampOrEnd => {
            if c == '\n' {
                step_to(State::LineEnd, Operation::Skip)
            } else if is_digit(c) {
                step_to(State::Timestamp, Operation::Accumulate)
            } else if c == ' ' {
                step_to(State::Whitespace, Operation::FinalizeTimestamp)
            } else {
                ParseState { state: State::Start, op: Operation::Skip, unexpected: true }
            }
        },
        State::Whitespace => {
            if c == ' ' {
                step_to(State::Whitespace, Operation::Skip)
            } else {
                step_to(State::Key, Operation::Accumulate)
            }
        },
        State::Key => {
            if c == '=' {
                step_to(State::ValueOrQuotedValue, Operation::PushToken)
            } else {
                step_to(State::Key, Operation::Accumulate)
            }
        },
        State::ValueOrQuotedValue => {
            if c == '"' {
                step_to(State::QuotedValue, Operation::Skip)
            } else {
                step_to(State::Value, Operation::Accumulate)
            }
        },
        State::Value | State::QuotedValue | State::QuotedValueEnd => {
            if c == '"' {
                step_to(State::QuotedValueEnd, Operation::Skip)
            } else if c == '\n' {
                step_to(State::TimestampOrEnd, Operation::FinalizeAttributes)
            } else if c == ',' && state != State::QuotedValue {
                step_to(State::Whitespace, Operation::PushToken)
            } else {
                step_to(state, Operation::Accumulate)
            }
        },
    }
}

/// The state the machine is in before the first character.
pub fn initial_state() -> (r: ParseState)
    ensures
        r == step_to(State::Start, Operation::Skip),
{
    ParseState { state: State::Start, op: Operation::Skip, unexpected: false }
}

fn plain(state: State, op: Operation) -> (r: ParseState)
    ensures
        r == step_to(state, op),
{
    ParseState { state, op, unexpected: false }
}

/// Computes the next state and the operation to perform for `input`.
pub fn next_state(input: char, this_state: &ParseState) -> (r: ParseState)
    ensures
        r == transition(this_state.state, input),
{
    match this_state.state {
        State::Start | State::LineEnd | State::Timestamp | State::TimestampOrEnd => {
            if input == '\n' {
                plain(State::LineEnd, Operation::Skip)
            } else if '0' <= input && input <= '9' {
                plain(State::Timestamp, Operation::Accumulate)
            } else if input == ' ' {
                plain(State::Whitespace, Operation::FinalizeTimestamp)
            } else {
                ParseState { state: State::Start, op: Operation::Skip, unexpected: true }
            }
        },
        State::Whitespace => {
            if input == ' ' {
                plain(State::Whitespace, Operation::Skip)
            } else {
                plain(State::Key, Operation::Accumulate)
            }
        },
        State::Key => {
            if input == '=' {
                plain(State::ValueOrQuotedValue, Operation::PushToken)
            } else {
                plain(State::Key, Operation::Accumulate)
            }
        },
        State::ValueOrQuotedValue => {
            if input == '"' {
                plain(State::QuotedValue, Operation::Skip)
            } else {
                plain(State::Value, Operation::Accumulate)
            }
        },
        State::Value | State::QuotedValue | State::QuotedValueEnd => {
            if input == '"' {
                plain(State::QuotedValueEnd, Operation::Skip)
            } else if input == '\n' {
                plain(State::TimestampOrEnd, Operation::FinalizeAttributes)
            } else if input == ',' && this_state.state != State::QuotedValue {
                plain(State::Whitespace, Operation::PushToken)
            } else {
                plain(this_state.state, Operation::Accumulate)
            }
        },
    }
}

} // verus!
