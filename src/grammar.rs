use vstd::prelude::*;
use crate::interpreter::{
    all_digits, digits_value, drain_pairs, empty_vm, lemma_digits_value_grows, VmModel,
};
use crate::parser::{
    feed_spec, initial_parser, option_seq, parse_errors, parse_records, run, ParserModel,
};
use crate::record::{empty_record, RecordModel};
use crate::transition::{is_line_start_state, step_to, transition, Operation, State};

verus! {

/// One attribute as written on a line: key, value, and whether the value is
/// written between double quotes.
pub type AttrText = (Seq<char>, Seq<char>, bool);

pub open spec fn spaces(n: nat) -> Seq<char> {
    Seq::new(n, |i: int| ' ')
}

pub open spec fn newlines(n: nat) -> Seq<char> {
    Seq::new(n, |i: int| '\n')
}

/// A key: not empty, not starting with a space, without `=` or `\n`.
pub open spec fn valid_key(k: Seq<char>) -> bool {
    &&& k.len() > 0
    &&& k[0] != ' '
    &&& forall|i: int| 0 <= i < k.len() ==> #[trigger] k[i] != '=' && k[i] != '\n'
}

/// A value: without `"` or `\n`. An unquoted one is not empty and holds no
/// `,`; a quoted one may hold `,`.
pub open spec fn valid_value(v: Seq<char>, quoted: bool) -> bool {
    &&& quoted || v.len() > 0
    &&& forall|i: int|
        0 <= i < v.len() ==> #[trigger] v[i] != '"' && v[i] != '\n' && (quoted || v[i] != ',')
}

pub open spec fn valid_attr(a: AttrText) -> bool {
    valid_key(a.0) && valid_value(a.1, a.2)
}

pub open spec fn attr_text(a: AttrText) -> Seq<char> {
    a.0 + seq!['='] + if a.2 {
        seq!['"'] + a.1 + seq!['"']
    } else {
        a.1
    }
}

/// The attributes written one after another, separated by `, `.
pub open spec fn attrs_text(attrs: Seq<AttrText>) -> Seq<char>
    decreases attrs.len(),
{
    if attrs.len() == 0 {
        Seq::empty()
    } else if attrs.len() == 1 {
        attr_text(attrs[0])
    } else {
        attrs_text(attrs.drop_last()) + seq![',', ' '] + attr_text(attrs.last())
    }
}

/// A whole line: digits, `gap` spaces, the attributes, and `\n`.
pub open spec fn line_text(digits: Seq<char>, gap: nat, attrs: Seq<AttrText>) -> Seq<char> {
    digits + spaces(gap) + attrs_text(attrs) + seq!['\n']
}

/// The lines of the grammar: a timestamp that fits an `i64`, at least one
/// space, and at least one attribute.
pub open spec fn valid_line(digits: Seq<char>, gap: nat, attrs: Seq<AttrText>) -> bool {
    &&& digits.len() > 0
    &&& all_digits(digits)
    &&& digits_value(digits) <= i64::MAX
    &&& gap >= 1
    &&& attrs.len() >= 1
    &&& forall|i: int| 0 <= i < attrs.len() ==> valid_attr(#[trigger] attrs[i])
}

/// Inserts the key/value pairs into `m` from the last to the first, so that
/// the first occurrence of a key prevails.
pub open spec fn assign_from_last(attrs: Seq<AttrText>, m: Map<Seq<char>, Seq<char>>) -> Map<
    Seq<char>,
    Seq<char>,
>
    decreases attrs.len(),
{
    if attrs.len() == 0 {
        m
    } else {
        assign_from_last(attrs.drop_last(), m.insert(attrs.last().0, attrs.last().1))
    }
}

proof fn lemma_assign_domain(attrs: Seq<AttrText>, m: Map<Seq<char>, Seq<char>>, k: Seq<char>)
    ensures
        assign_from_last(attrs, m).contains_key(k) <==> (m.contains_key(k) || exists|i: int|
            0 <= i < attrs.len() && #[trigger] attrs[i].0 == k),
    decreases attrs.len(),
{
    if attrs.len() > 0 {
        let init = attrs.drop_last();
        let last = attrs.last();
        lemma_assign_domain(init, m.insert(last.0, last.1), k);
        if exists|i: int| 0 <= i < attrs.len() && #[trigger] attrs[i].0 == k {
            let i = choose|i: int| 0 <= i < attrs.len() && #[trigger] attrs[i].0 == k;
            if i < attrs.len() - 1 {
                assert(init[i].0 == k);
            }
        }
        if exists|i: int| 0 <= i < init.len() && #[trigger] init[i].0 == k {
            let i = choose|i: int| 0 <= i < init.len() && #[trigger] init[i].0 == k;
            assert(attrs[i].0 == k);
        }
        if k == last.0 {
            assert(attrs[attrs.len() - 1].0 == k);
        }
    }
}

proof fn lemma_assign_untouched(attrs: Seq<AttrText>, m: Map<Seq<char>, Seq<char>>, k: Seq<char>)
    requires
        forall|i: int| 0 <= i < attrs.len() ==> #[trigger] attrs[i].0 != k,
    ensures
        assign_from_last(attrs, m)[k] == m[k],
    decreases attrs.len(),
{
    if attrs.len() > 0 {
        let init = attrs.drop_last();
        let last = attrs.last();
        assert forall|i: int| 0 <= i < init.len() implies #[trigger] init[i].0 != k by {
            assert(attrs[i].0 != k);
        }
        assert(attrs[attrs.len() - 1].0 != k);
        lemma_assign_untouched(init, m.insert(last.0, last.1), k);
    }
}

proof fn lemma_assign_first(attrs: Seq<AttrText>, m: Map<Seq<char>, Seq<char>>, i: int)
    requires
        0 <= i < attrs.len(),
        forall|j: int| 0 <= j < i ==> #[trigger] attrs[j].0 != attrs[i].0,
    ensures
        assign_from_last(attrs, m)[attrs[i].0] == attrs[i].1,
    decreases attrs.len(),
{
    let init = attrs.drop_last();
    let last = attrs.last();
    let m2 = m.insert(last.0, last.1);
    if i < attrs.len() - 1 {
        assert(init[i] == attrs[i]);
        assert forall|j: int| 0 <= j < i implies #[trigger] init[j].0 != init[i].0 by {
            assert(attrs[j].0 != attrs[i].0);
        }
        lemma_assign_first(init, m2, i);
    } else {
        assert forall|j: int| 0 <= j < init.len() implies #[trigger] init[j].0 != last.0 by {
            assert(attrs[j].0 != attrs[i].0);
        }
        lemma_assign_untouched(init, m2, last.0);
    }
}

/// The record a line of the grammar stands for.
pub open spec fn line_record(digits: Seq<char>, attrs: Seq<AttrText>) -> RecordModel {
    RecordModel {
        timestamp: digits_value(digits) as i64,
        attributes: assign_from_last(attrs, Map::empty()),
    }
}

/// The tokens the attributes leave on the stack: key, value, key, value, ...
pub open spec fn tokens_of(attrs: Seq<AttrText>) -> Seq<Seq<char>>
    decreases attrs.len(),
{
    if attrs.len() == 0 {
        Seq::empty()
    } else {
        tokens_of(attrs.drop_last()).push(attrs.last().0).push(attrs.last().1)
    }
}

/// A parser at the beginning of a line, with nothing pending.
pub open spec fn at_line_start(p: ParserModel) -> bool {
    &&& is_line_start_state(p.state)
    &&& p.vm == empty_vm()
    &&& p.record == empty_record()
    &&& !p.stamped
}

/// Running `s` from `p` leads to `q` and produces neither records nor errors.
pub open spec fn silent(p: ParserModel, s: Seq<char>, q: ParserModel) -> bool {
    &&& run(p, s).parser == q
    &&& run(p, s).records.len() == 0
    &&& run(p, s).errors.len() == 0
}

proof fn lemma_run_append(p: ParserModel, a: Seq<char>, b: Seq<char>)
    ensures
        run(p, a + b).parser == run(run(p, a).parser, b).parser,
        run(p, a + b).records == run(p, a).records + run(run(p, a).parser, b).records,
        run(p, a + b).errors.len() == run(p, a).errors.len() + run(run(p, a).parser, b).errors.len(),
    decreases b.len(),
{
    if b.len() == 0 {
        assert(a + b == a);
        assert(run(p, a).records + Seq::<RecordModel>::empty() == run(p, a).records);
    } else {
        lemma_run_append(p, a, b.drop_last());
        assert((a + b).drop_last() == a + b.drop_last());
        assert((a + b).last() == b.last());
        let q = run(p, a).parser;
        assert(run(p, a + b).records =~= run(p, a).records + run(q, b).records);
    }
}

proof fn lemma_step(p: ParserModel, c: char)
    ensures
        run(p, seq![c]).parser == feed_spec(p, c).parser,
        run(p, seq![c]).records == option_seq(feed_spec(p, c).record),
        run(p, seq![c]).errors.len() == option_seq(feed_spec(p, c).error).len(),
{
    reveal_with_fuel(run, 2);
    assert(seq![c].drop_last() =~= Seq::<char>::empty());
    assert(Seq::<RecordModel>::empty() + option_seq(feed_spec(p, c).record) == option_seq(
        feed_spec(p, c).record,
    ));
}

proof fn lemma_silent_append(p: ParserModel, a: Seq<char>, q: ParserModel, b: Seq<char>, r: ParserModel)
    requires
        silent(p, a, q),
        silent(q, b, r),
    ensures
        silent(p, a + b, r),
{
    lemma_run_append(p, a, b);
}

/// Characters that all keep the machine accumulating in `target` add to the
/// current token and change nothing else.
proof fn lemma_accumulate(p: ParserModel, seg: Seq<char>, target: State)
    requires
        seg.len() > 0 ==> transition(p.state, seg[0]) == step_to(target, Operation::Accumulate),
        forall|i: int|
            0 <= i < seg.len() ==> transition(target, #[trigger] seg[i]) == step_to(
                target,
                Operation::Accumulate,
            ) && seg[i] != '\n',
    ensures
        silent(
            p,
            seg,
            ParserModel {
                state: if seg.len() == 0 {
                    p.state
                } else {
                    target
                },
                vm: VmModel { acc: p.vm.acc + seg, ..p.vm },
                ..p
            },
        ),
    decreases seg.len(),
{
    if seg.len() == 0 {
        assert(p.vm.acc + seg == p.vm.acc);
    } else {
        let init = seg.drop_last();
        lemma_accumulate(p, init, target);
        assert(p.vm.acc + init + seq![seg.last()] == p.vm.acc + seg);
        if init.len() > 0 {
            assert(init[0] == seg[0]);
        }
        let q = run(p, init).parser;
        let c = seg[seg.len() - 1];
        assert(transition(target, c) == step_to(target, Operation::Accumulate) && c != '\n');
        assert(transition(q.state, c) == step_to(target, Operation::Accumulate));
        assert((p.vm.acc + init).push(c) == p.vm.acc + seg);
        lemma_step(q, c);
        assert(init + seq![seg.last()] == seg);
        lemma_run_append(p, init, seq![seg.last()]);
    }
}

/// Spaces after a space change nothing.
proof fn lemma_skip_spaces(p: ParserModel, n: nat)
    requires
        p.state == State::Whitespace,
    ensures
        silent(p, spaces(n), p),
    decreases n,
{
    if n > 0 {
        lemma_skip_spaces(p, (n - 1) as nat);
        assert(spaces(n).drop_last() == spaces((n - 1) as nat));
    }
}

/// Reading one attribute after a separator.
proof fn lemma_attr(p: ParserModel, a: AttrText)
    requires
        p.state == State::Whitespace,
        p.vm.acc.len() == 0,
        valid_attr(a),
    ensures
        silent(
            p,
            attr_text(a),
            ParserModel {
                state: if a.2 {
                    State::QuotedValueEnd
                } else {
                    State::Value
                },
                vm: VmModel { acc: a.1, stack: p.vm.stack.push(a.0) },
                ..p
            },
        ),
{
    let key = a.0;
    let value = a.1;
    assert forall|i: int| 0 <= i < key.len() implies transition(State::Key, #[trigger] key[i])
        == step_to(State::Key, Operation::Accumulate) && key[i] != '\n' by {}
    lemma_accumulate(p, key, State::Key);
    assert(p.vm.acc + key == key);
    let in_key = ParserModel { state: State::Key, vm: VmModel { acc: key, ..p.vm }, ..p };
    let eq = seq!['='];
    lemma_step(in_key, '=');
    let after_eq = ParserModel {
        state: State::ValueOrQuotedValue,
        vm: VmModel { acc: Seq::empty(), stack: p.vm.stack.push(key) },
        ..p
    };
    assert(silent(in_key, eq, after_eq));
    lemma_silent_append(p, key, in_key, eq, after_eq);
    if a.2 {
        let quote = seq!['"'];
        lemma_step(after_eq, '"');
        let in_quotes = ParserModel { state: State::QuotedValue, ..after_eq };
        assert(silent(after_eq, quote, in_quotes));
        assert forall|i: int|
            0 <= i < value.len() implies transition(State::QuotedValue, #[trigger] value[i])
            == step_to(State::QuotedValue, Operation::Accumulate) && value[i] != '\n' by {}
        lemma_accumulate(in_quotes, value, State::QuotedValue);
        assert(Seq::<char>::empty() + value == value);
        let quoted_read = ParserModel {
            state: State::QuotedValue,
            vm: VmModel { acc: value, stack: p.vm.stack.push(key) },
            ..p
        };
        let closed = ParserModel { state: State::QuotedValueEnd, ..quoted_read };
        lemma_step(quoted_read, '"');
        assert(silent(quoted_read, quote, closed));
        lemma_silent_append(after_eq, quote, in_quotes, value, quoted_read);
        lemma_silent_append(after_eq, quote + value, quoted_read, quote, closed);
        lemma_silent_append(p, key + eq, after_eq, quote + value + quote, closed);
        assert(key + eq + (quote + value + quote) == attr_text(a));
    } else {
        assert forall|i: int|
            0 <= i < value.len() implies transition(State::Value, #[trigger] value[i]) == step_to(
            State::Value,
            Operation::Accumulate,
        ) && value[i] != '\n' by {}
        lemma_accumulate(after_eq, value, State::Value);
        assert(Seq::<char>::empty() + value == value);
        lemma_silent_append(p, key + eq, after_eq, value, ParserModel {
            state: State::Value,
            vm: VmModel { acc: value, stack: p.vm.stack.push(key) },
            ..p
        });
    }
}

/// The separator `, ` closes a value and waits for the next key.
proof fn lemma_separator(q: ParserModel)
    requires
        q.state == State::Value || q.state == State::QuotedValueEnd,
    ensures
        silent(
            q,
            seq![',', ' '],
            ParserModel {
                state: State::Whitespace,
                vm: VmModel { acc: Seq::empty(), stack: q.vm.stack.push(q.vm.acc) },
                ..q
            },
        ),
{
    let ws = ParserModel {
        state: State::Whitespace,
        vm: VmModel { acc: Seq::empty(), stack: q.vm.stack.push(q.vm.acc) },
        ..q
    };
    lemma_step(q, ',');
    lemma_step(ws, ' ');
    lemma_silent_append(q, seq![','], ws, seq![' '], ws);
    assert(seq![','] + seq![' '] == seq![',', ' ']);
}

/// Reading the attributes of a line, up to its `\n`.
proof fn lemma_attrs(p: ParserModel, attrs: Seq<AttrText>)
    requires
        p.state == State::Whitespace,
        p.vm == empty_vm(),
        attrs.len() >= 1,
        forall|i: int| 0 <= i < attrs.len() ==> valid_attr(#[trigger] attrs[i]),
    ensures
        silent(
            p,
            attrs_text(attrs),
            ParserModel {
                state: if attrs.last().2 {
                    State::QuotedValueEnd
                } else {
                    State::Value
                },
                vm: VmModel {
                    acc: attrs.last().1,
                    stack: tokens_of(attrs.drop_last()).push(attrs.last().0),
                },
                ..p
            },
        ),
    decreases attrs.len(),
{
    let last = attrs.last();
    assert(valid_attr(attrs[attrs.len() - 1]));
    if attrs.len() == 1 {
        assert(tokens_of(attrs.drop_last()) == Seq::<Seq<char>>::empty());
        lemma_attr(p, last);
    } else {
        let init = attrs.drop_last();
        assert forall|i: int| 0 <= i < init.len() implies valid_attr(#[trigger] init[i]) by {
            assert(init[i] == attrs[i]);
        }
        lemma_attrs(p, init);
        let prev = init.last();
        let q = ParserModel {
            state: if prev.2 {
                State::QuotedValueEnd
            } else {
                State::Value
            },
            vm: VmModel { acc: prev.1, stack: tokens_of(init.drop_last()).push(prev.0) },
            ..p
        };
        let sep = seq![',', ' '];
        let ws = ParserModel {
            state: State::Whitespace,
            vm: VmModel { acc: Seq::empty(), stack: tokens_of(init) },
            ..p
        };
        lemma_separator(q);
        lemma_attr(ws, last);
        lemma_silent_append(p, attrs_text(init), q, sep, ws);
        lemma_silent_append(p, attrs_text(init) + sep, ws, attr_text(last), ParserModel {
            state: if last.2 {
                State::QuotedValueEnd
            } else {
                State::Value
            },
            vm: VmModel { acc: last.1, stack: tokens_of(init).push(last.0) },
            ..p
        });
    }
}

proof fn lemma_drain_tokens(attrs: Seq<AttrText>, m: Map<Seq<char>, Seq<char>>)
    ensures
        drain_pairs(tokens_of(attrs), m) == assign_from_last(attrs, m),
        tokens_of(attrs).len() == 2 * attrs.len(),
    decreases attrs.len(),
{
    if attrs.len() > 0 {
        let t = tokens_of(attrs);
        assert(t.subrange(0, t.len() - 2) == tokens_of(attrs.drop_last()));
        lemma_drain_tokens(attrs.drop_last(), m.insert(attrs.last().0, attrs.last().1));
    }
}

/// The timestamp and the spaces after it.
proof fn lemma_head(p: ParserModel, digits: Seq<char>, gap: nat)
    requires
        at_line_start(p),
        digits.len() > 0,
        all_digits(digits),
        digits_value(digits) <= i64::MAX,
        gap >= 1,
    ensures
        silent(
            p,
            digits + spaces(gap),
            ParserModel {
                state: State::Whitespace,
                vm: empty_vm(),
                record: RecordModel { timestamp: digits_value(digits) as i64, ..empty_record() },
                stamped: true,
            },
        ),
{
    // The timestamp digits.
    assert forall|i: int| 0 <= i < digits.len() implies transition(
        State::Timestamp,
        #[trigger] digits[i],
    ) == step_to(State::Timestamp, Operation::Accumulate) && digits[i] != '\n' by {
        assert(all_digits(digits));
    }
    assert(all_digits(digits));
    assert(crate::transition::is_digit(digits[0]));
    lemma_accumulate(p, digits, State::Timestamp);
    assert(Seq::<char>::empty() + digits == digits);
    let in_digits = ParserModel { state: State::Timestamp, vm: VmModel { acc: digits, ..p.vm }, ..p };
    // The first space ends the timestamp.
    lemma_digits_value_grows(digits, 0);
    assert(digits.subrange(0, 0).len() == 0);
    let space = seq![' '];
    lemma_step(in_digits, ' ');
    let ts = digits_value(digits) as i64;
    let after_head = ParserModel {
        state: State::Whitespace,
        vm: empty_vm(),
        record: RecordModel { timestamp: ts, ..empty_record() },
        stamped: true,
    };
    assert(!(digits.len() > 1 && (digits[0] == '-' || digits[0] == '+')));
    assert(silent(in_digits, space, after_head));
    lemma_silent_append(p, digits, in_digits, space, after_head);
    // The other spaces.
    lemma_skip_spaces(after_head, (gap - 1) as nat);
    assert(space + spaces((gap - 1) as nat) == spaces(gap));
    lemma_silent_append(p, digits + space, after_head, spaces((gap - 1) as nat), after_head);
    assert(digits + space + spaces((gap - 1) as nat) == digits + spaces(gap));
}

/// A line of the grammar, read from the start of a line, yields its record
/// and no error, and leaves the parser at the start of the next line.
pub proof fn lemma_line_from(p: ParserModel, digits: Seq<char>, gap: nat, attrs: Seq<AttrText>)
    requires
        at_line_start(p),
        valid_line(digits, gap, attrs),
    ensures
        run(p, line_text(digits, gap, attrs)).records == seq![line_record(digits, attrs)],
        run(p, line_text(digits, gap, attrs)).errors.len() == 0,
        run(p, line_text(digits, gap, attrs)).parser == (ParserModel {
            state: State::TimestampOrEnd,
            vm: empty_vm(),
            record: empty_record(),
            stamped: false,
        }),
{
    lemma_head(p, digits, gap);
    let ts = digits_value(digits) as i64;
    let after_head = ParserModel {
        state: State::Whitespace,
        vm: empty_vm(),
        record: RecordModel { timestamp: ts, ..empty_record() },
        stamped: true,
    };
    // The attributes.
    lemma_attrs(after_head, attrs);
    let last = attrs.last();
    let in_value = ParserModel {
        state: if last.2 {
            State::QuotedValueEnd
        } else {
            State::Value
        },
        vm: VmModel { acc: last.1, stack: tokens_of(attrs.drop_last()).push(last.0) },
        ..after_head
    };
    lemma_silent_append(p, digits + spaces(gap), after_head, attrs_text(attrs), in_value);
    // The closing newline.
    let body = digits + spaces(gap) + attrs_text(attrs);
    let nl = seq!['\n'];
    lemma_step(in_value, '\n');
    assert(in_value.vm.stack.push(in_value.vm.acc) == tokens_of(attrs));
    lemma_drain_tokens(attrs, Map::empty());
    assert(run(in_value, nl).records == seq![line_record(digits, attrs)]);
    lemma_run_append(p, body, nl);
    assert(Seq::<RecordModel>::empty() + seq![line_record(digits, attrs)] == seq![line_record(digits, attrs)]);
}

/// Parsing a single line of the grammar yields exactly one record and no
/// error. Its timestamp is the leading digit run read in base 10; its keys
/// are the declared keys, each with the value declared at its first
/// occurrence, quoted values without their quotes.
pub proof fn lemma_line(digits: Seq<char>, gap: nat, attrs: Seq<AttrText>)
    requires
        valid_line(digits, gap, attrs),
    ensures
        parse_records(line_text(digits, gap, attrs)) == seq![line_record(digits, attrs)],
        parse_errors(line_text(digits, gap, attrs)).len() == 0,
        line_record(digits, attrs).timestamp == digits_value(digits),
        forall|k: Seq<char>|
            #[trigger] line_record(digits, attrs).attributes.contains_key(k) <==> exists|i: int|
                0 <= i < attrs.len() && #[trigger] attrs[i].0 == k,
        forall|i: int|
            0 <= i < attrs.len() && (forall|j: int| 0 <= j < i ==> #[trigger] attrs[j].0 != attrs[i].0)
                ==> line_record(digits, attrs).attributes[#[trigger] attrs[i].0] == attrs[i].1,
{
    lemma_line_from(initial_parser(), digits, gap, attrs);
    lemma_digits_value_grows(digits, 0);
    assert(digits.subrange(0, 0).len() == 0);
    let m = Map::<Seq<char>, Seq<char>>::empty();
    assert forall|k: Seq<char>|
        #[trigger] line_record(digits, attrs).attributes.contains_key(k) <==> exists|i: int|
            0 <= i < attrs.len() && #[trigger] attrs[i].0 == k by {
        lemma_assign_domain(attrs, m, k);
    }
    assert forall|i: int|
        0 <= i < attrs.len() && (forall|j: int| 0 <= j < i ==> #[trigger] attrs[j].0 != attrs[i].0)
        implies line_record(digits, attrs).attributes[#[trigger] attrs[i].0] == attrs[i].1 by {
        lemma_assign_first(attrs, m, i);
    }
}

/// Blank lines read at the start of a line change nothing and produce
/// nothing.
proof fn lemma_blank_from(p: ParserModel, n: nat)
    requires
        at_line_start(p),
    ensures
        run(p, newlines(n)).records.len() == 0,
        run(p, newlines(n)).errors.len() == 0,
        at_line_start(run(p, newlines(n)).parser),
    decreases n,
{
    if n > 0 {
        let m = (n - 1) as nat;
        lemma_blank_from(p, m);
        let q = run(p, newlines(m)).parser;
        lemma_step(q, '\n');
        assert(newlines(m) + seq!['\n'] == newlines(n));
        lemma_run_append(p, newlines(m), seq!['\n']);
    }
}

/// Two lines of the grammar parsed together yield the two records that each
/// yields alone, in order.
pub proof fn lemma_two_lines(
    d1: Seq<char>,
    g1: nat,
    a1: Seq<AttrText>,
    d2: Seq<char>,
    g2: nat,
    a2: Seq<AttrText>,
)
    requires
        valid_line(d1, g1, a1),
        valid_line(d2, g2, a2),
    ensures
        parse_records(line_text(d1, g1, a1) + line_text(d2, g2, a2)) == parse_records(
            line_text(d1, g1, a1),
        ) + parse_records(line_text(d2, g2, a2)),
        parse_records(line_text(d1, g1, a1) + line_text(d2, g2, a2)) == seq![
            line_record(d1, a1),
            line_record(d2, a2),
        ],
{
    let l1 = line_text(d1, g1, a1);
    let l2 = line_text(d2, g2, a2);
    lemma_line(d1, g1, a1);
    lemma_line(d2, g2, a2);
    lemma_line_from(initial_parser(), d1, g1, a1);
    lemma_line_from(run(initial_parser(), l1).parser, d2, g2, a2);
    lemma_run_append(initial_parser(), l1, l2);
    assert(seq![line_record(d1, a1)] + seq![line_record(d2, a2)] == seq![
        line_record(d1, a1),
        line_record(d2, a2),
    ]);
}

/// Blank lines between two lines of the grammar yield no records: the input
/// parses to the records of the two lines alone.
pub proof fn lemma_blank_lines_between(
    d1: Seq<char>,
    g1: nat,
    a1: Seq<AttrText>,
    n: nat,
    d2: Seq<char>,
    g2: nat,
    a2: Seq<AttrText>,
)
    requires
        valid_line(d1, g1, a1),
        valid_line(d2, g2, a2),
    ensures
        parse_records(line_text(d1, g1, a1) + newlines(n) + line_text(d2, g2, a2))
            == parse_records(line_text(d1, g1, a1)) + parse_records(line_text(d2, g2, a2)),
{
    let l1 = line_text(d1, g1, a1);
    let l2 = line_text(d2, g2, a2);
    let start = initial_parser();
    lemma_line(d1, g1, a1);
    lemma_line(d2, g2, a2);
    lemma_line_from(start, d1, g1, a1);
    let after_first = run(start, l1).parser;
    lemma_blank_from(after_first, n);
    let after_blank = run(after_first, newlines(n)).parser;
    lemma_line_from(after_blank, d2, g2, a2);
    lemma_run_append(start, l1, newlines(n));
    lemma_run_append(start, l1 + newlines(n), l2);
    assert(run(start, l1 + newlines(n)).records =~= run(start, l1).records);
}

/// A quoted value is stored verbatim without its quotes, the delimiters
/// `,` and `=` included.
pub proof fn lemma_quoted_value_verbatim(
    digits: Seq<char>,
    gap: nat,
    key: Seq<char>,
    value: Seq<char>,
)
    requires
        digits.len() > 0,
        all_digits(digits),
        digits_value(digits) <= i64::MAX,
        gap >= 1,
        valid_key(key),
        forall|i: int| 0 <= i < value.len() ==> #[trigger] value[i] != '"' && value[i] != '\n',
    ensures
        parse_records(
            digits + spaces(gap) + key + seq!['=', '"'] + value + seq!['"', '\n'],
        ) == seq![
            RecordModel {
                timestamp: digits_value(digits) as i64,
                attributes: map![key => value],
            },
        ],
{
    let attrs = seq![(key, value, true)];
    assert(valid_attr(attrs[0]));
    lemma_line(digits, gap, attrs);
    assert(attrs_text(attrs) == attr_text((key, value, true)));
    assert(line_text(digits, gap, attrs) == digits + spaces(gap) + key + seq!['=', '"'] + value
        + seq!['"', '\n']);
    assert(attrs.drop_last() =~= Seq::<AttrText>::empty());
    assert(assign_from_last(attrs, Map::empty()) == assign_from_last(
        attrs.drop_last(),
        Map::<Seq<char>, Seq<char>>::empty().insert(key, value),
    ));
    assert(Map::<Seq<char>, Seq<char>>::empty().insert(key, value) =~= map![key => value]);
}

/// The attributes of a line followed by the separator, or nothing when there
/// are none.
pub open spec fn attrs_then_separator(attrs: Seq<AttrText>) -> Seq<char> {
    if attrs.len() == 0 {
        Seq::empty()
    } else {
        attrs_text(attrs) + seq![',', ' ']
    }
}

/// A line whose last key has no `=value` before its `\n` yields no record.
pub proof fn lemma_key_without_value(
    digits: Seq<char>,
    gap: nat,
    attrs: Seq<AttrText>,
    key: Seq<char>,
)
    requires
        digits.len() > 0,
        all_digits(digits),
        digits_value(digits) <= i64::MAX,
        gap >= 1,
        forall|i: int| 0 <= i < attrs.len() ==> valid_attr(#[trigger] attrs[i]),
        valid_key(key),
    ensures
        parse_records(
            digits + spaces(gap) + attrs_then_separator(attrs) + key + seq!['\n'],
        ).len() == 0,
{
    let start = initial_parser();
    lemma_head(start, digits, gap);
    let after_head = ParserModel {
        state: State::Whitespace,
        vm: empty_vm(),
        record: RecordModel { timestamp: digits_value(digits) as i64, ..empty_record() },
        stamped: true,
    };
    let head = digits + spaces(gap);
    let ws = ParserModel {
        state: State::Whitespace,
        vm: VmModel { acc: Seq::empty(), stack: tokens_of(attrs) },
        ..after_head
    };
    if attrs.len() == 0 {
        assert(head + attrs_then_separator(attrs) == head);
        assert(tokens_of(attrs) == Seq::<Seq<char>>::empty());
        assert(ws == after_head);
    } else {
        lemma_attrs(after_head, attrs);
        let last = attrs.last();
        let q = ParserModel {
            state: if last.2 {
                State::QuotedValueEnd
            } else {
                State::Value
            },
            vm: VmModel { acc: last.1, stack: tokens_of(attrs.drop_last()).push(last.0) },
            ..after_head
        };
        lemma_separator(q);
        lemma_silent_append(after_head, attrs_text(attrs), q, seq![',', ' '], ws);
        lemma_silent_append(start, head, after_head, attrs_text(attrs) + seq![',', ' '], ws);
        assert(head + (attrs_text(attrs) + seq![',', ' ']) == head + attrs_then_separator(attrs));
    }
    let before = head + attrs_then_separator(attrs);
    assert(silent(start, before, ws));
    assert forall|i: int| 0 <= i < key.len() implies transition(State::Key, #[trigger] key[i])
        == step_to(State::Key, Operation::Accumulate) && key[i] != '\n' by {}
    lemma_accumulate(ws, key, State::Key);
    let k = ParserModel { state: State::Key, vm: VmModel { acc: key, ..ws.vm }, ..ws };
    assert(Seq::<char>::empty() + key == key);
    lemma_silent_append(start, before, ws, key, k);
    lemma_step(k, '\n');
    lemma_run_append(start, before + key, seq!['\n']);
}

} // verus!
