//! A character-level finite-state-machine parser for log lines of the form
//! `<timestamp>  <key>=<value>, <key>="<value>", ...` terminated by `\n`.
//!
//! The transition table (`transition`), the interpreter that applies one
//! operation to the tokenizer buffers (`interpreter`), the record type
//! (`record`) and the driver that turns a whole input into records (`parser`)
//! are all verified against the spec functions they declare. `grammar` states
//! what a well-formed line is and proves what parsing such lines yields.
pub mod transition;

pub use transition::{initial_state, next_state, Operation, ParseState, State};
pub mod record;

pub use record::{Attributes, Record};
pub mod interpreter;

pub use interpreter::{execute_state, parse_timestamp, ExecError, Vm};
pub mod parser;

pub use parser::{parse, ErrorKind, Feed, ParseError, Parsed, Parser};
pub mod grammar;
