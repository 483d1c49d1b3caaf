use logfsm::{
    execute_state, initial_state, next_state, parse_timestamp, Attributes, ExecError, Operation,
    ParseState, Parser, Record, State, Vm,
};

fn ps(state: State, op: Operation) -> ParseState {
    ParseState { state, op, unexpected: false }
}

#[test]
fn initial_state_is_start() {
    assert_eq!(initial_state(), ps(State::Start, Operation::Skip));
}

#[test]
fn transitions_from_line_start() {
    for s in [State::Start, State::LineEnd, State::Timestamp, State::TimestampOrEnd] {
        let cur = ps(s, Operation::Skip);
        assert_eq!(next_state('\n', &cur), ps(State::LineEnd, Operation::Skip));
        assert_eq!(next_state('7', &cur), ps(State::Timestamp, Operation::Accumulate));
        assert_eq!(next_state(' ', &cur), ps(State::Whitespace, Operation::FinalizeTimestamp));
        assert_eq!(
            next_state('x', &cur),
            ParseState { state: State::Start, op: Operation::Skip, unexpected: true }
        );
    }
}

#[test]
fn transitions_inside_attributes() {
    let ws = ps(State::Whitespace, Operation::Skip);
    assert_eq!(next_state(' ', &ws), ps(State::Whitespace, Operation::Skip));
    assert_eq!(next_state('k', &ws), ps(State::Key, Operation::Accumulate));
    let key = ps(State::Key, Operation::Accumulate);
    assert_eq!(next_state('=', &key), ps(State::ValueOrQuotedValue, Operation::PushToken));
    assert_eq!(next_state('\n', &key), ps(State::Key, Operation::Accumulate));
    let eq = ps(State::ValueOrQuotedValue, Operation::PushToken);
    assert_eq!(next_state('"', &eq), ps(State::QuotedValue, Operation::Skip));
    assert_eq!(next_state('v', &eq), ps(State::Value, Operation::Accumulate));
    for s in [State::Value, State::QuotedValue, State::QuotedValueEnd] {
        let cur = ps(s, Operation::Accumulate);
        assert_eq!(next_state('"', &cur), ps(State::QuotedValueEnd, Operation::Skip));
        assert_eq!(
            next_state('\n', &cur),
            ps(State::TimestampOrEnd, Operation::FinalizeAttributes)
        );
        assert_eq!(next_state('=', &cur), ps(s, Operation::Accumulate));
    }
    for s in [State::Value, State::QuotedValueEnd] {
        let cur = ps(s, Operation::Accumulate);
        assert_eq!(next_state(',', &cur), ps(State::Whitespace, Operation::PushToken));
    }
    let quoted = ps(State::QuotedValue, Operation::Accumulate);
    assert_eq!(next_state(',', &quoted), ps(State::QuotedValue, Operation::Accumulate));
}

#[test]
fn timestamp_parsing() {
    assert_eq!(parse_timestamp("1234"), Some(1234));
    assert_eq!(parse_timestamp("0"), Some(0));
    assert_eq!(parse_timestamp("-17"), Some(-17));
    assert_eq!(parse_timestamp("+17"), Some(17));
    assert_eq!(parse_timestamp("9223372036854775807"), Some(i64::MAX));
    assert_eq!(parse_timestamp("-9223372036854775808"), Some(i64::MIN));
    assert_eq!(parse_timestamp("9223372036854775808"), None);
    assert_eq!(parse_timestamp(""), None);
    assert_eq!(parse_timestamp("-"), None);
    assert_eq!(parse_timestamp("12a"), None);
}

#[test]
fn interpreter_operations() {
    let mut vm = Vm::new();
    let mut record = Record::new();
    assert_eq!(record.timestamp, -1);
    for c in "42".chars() {
        assert_eq!(execute_state(&mut vm, &mut record, ps(State::Timestamp, Operation::Accumulate), c), Ok(()));
    }
    assert_eq!(vm.acc, "42");
    let fin = ps(State::Whitespace, Operation::FinalizeTimestamp);
    assert_eq!(execute_state(&mut vm, &mut record, fin, ' '), Ok(()));
    assert_eq!(record.timestamp, 42);
    assert_eq!(vm.acc, "");
    assert_eq!(execute_state(&mut vm, &mut record, fin, ' '), Err(ExecError::MalformedTimestamp));
    assert_eq!(record.timestamp, 42);

    let acc = ps(State::Key, Operation::Accumulate);
    execute_state(&mut vm, &mut record, acc, 'k').unwrap();
    execute_state(&mut vm, &mut record, ps(State::ValueOrQuotedValue, Operation::PushToken), '=').unwrap();
    assert_eq!(vm.stack, vec!["k".to_string()]);
    execute_state(&mut vm, &mut record, acc, 'v').unwrap();
    let done = ps(State::TimestampOrEnd, Operation::FinalizeAttributes);
    assert_eq!(execute_state(&mut vm, &mut record, done, '\n'), Ok(()));
    assert!(vm.stack.is_empty());
    assert_eq!(record.attributes.get("k").map(|v| v.as_str()), Some("v"));
}

#[test]
fn unbalanced_tokens_are_dropped() {
    let mut vm = Vm::new();
    let mut record = Record::new();
    vm.stack.push("a".to_string());
    vm.stack.push("b".to_string());
    vm.acc.push('c');
    let done = ps(State::TimestampOrEnd, Operation::FinalizeAttributes);
    assert_eq!(execute_state(&mut vm, &mut record, done, '\n'), Err(ExecError::UnbalancedTokens));
    assert!(vm.stack.is_empty());
    assert!(vm.acc.is_empty());
    assert_eq!(record.attributes.len(), 1);
    assert_eq!(record.attributes.get("b").map(|v| v.as_str()), Some("c"));
}

#[test]
fn attributes_insert_replaces() {
    let mut a = Attributes::new();
    a.insert("k".to_string(), "1".to_string());
    a.insert("j".to_string(), "2".to_string());
    a.insert("k".to_string(), "3".to_string());
    assert_eq!(a.len(), 2);
    assert_eq!(a.get("k").map(|v| v.as_str()), Some("3"));
    assert_eq!(a.get("j").map(|v| v.as_str()), Some("2"));
    assert_eq!(a.get("z"), None);
}

#[test]
fn streaming_parser() {
    let mut p = Parser::new();
    let mut out = Vec::new();
    for c in "1  a=b\n2  c=\"d\"\n".chars() {
        let fed = p.feed(c);
        assert!(fed.error.is_none());
        if let Some(r) = fed.record {
            out.push(r);
        }
    }
    assert_eq!(out.len(), 2);
    assert_eq!(out[1].timestamp, 2);
    assert_eq!(out[1].attributes.get("c").map(|v| v.as_str()), Some("d"));
}
