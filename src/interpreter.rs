use vstd::prelude::*;
use crate::record::{Record, RecordModel};
use crate::transition::{is_digit, Operation, ParseState};

verus! {

/// The tokenizer buffers: the token being scanned and the completed tokens
/// waiting to be paired into attributes.
pub struct VmModel {
    pub acc: Seq<char>,
    pub stack: Seq<Seq<char>>,
}

pub open spec fn empty_vm() -> VmModel {
    VmModel { acc: Seq::empty(), stack: Seq::empty() }
}

/// Errors the interpreter reports for one operation.
#[derive(Clone, Copy, Debug, PartialEq, Eq, Structural)]
pub enum ExecError {
    /// The accumulated timestamp token is not a base-10 `i64`.
    MalformedTimestamp,
    /// An odd number of tokens was left when attributes were finalized; the
    /// unpaired token is dropped.
    UnbalancedTokens,
}

pub struct Vm {
    pub acc: String,
    pub stack: Vec<String>,
}

impl View for Vm {
    type V = VmModel;

    open spec fn view(&self) -> VmModel {
        VmModel { acc: self.acc@, stack: self.stack@.map_values(|t: String| t@) }
    }
}

impl Vm {
    pub fn new() -> (r: Vm)
        ensures
            r@ == empty_vm(),
    {
        let r = Vm { acc: String::new(), stack: Vec::new() };
        assert(r@.stack =~= Seq::empty());
        r
    }
}

pub open spec fn digit_value(c: char) -> int {
    (c as u32) as int - ('0' as u32) as int
}

pub open spec fn all_digits(s: Seq<char>) -> bool {
    forall|i: int| 0 <= i < s.len() ==> is_digit(#[trigger] s[i])
}

/// The number a run of decimal digits denotes.
pub open spec fn digits_value(s: Seq<char>) -> int
    decreases s.len(),
{
    if s.len() == 0 {
        0
    } else {
        10 * digits_value(s.drop_last()) + digit_value(s.last())
    }
}

/// The integer a decimal numeral with an optional sign denotes, if `s` is one.
pub open spec fn decimal_value(s: Seq<char>) -> Option<int> {
    if s.len() > 1 && (s[0] == '-' || s[0] == '+') && all_digits(s.skip(1)) {
        if s[0] == '-' {
            Some(-digits_value(s.skip(1)))
        } else {
            Some(digits_value(s.skip(1)))
        }
    } else if s.len() > 0 && all_digits(s) {
        Some(digits_value(s))
    } else {
        None
    }
}

/// `s` read as a base-10 `i64`, if it is a numeral within range.
pub open spec fn timestamp_value(s: Seq<char>) -> Option<i64> {
    match decimal_value(s) {
        Some(v) => if i64::MIN <= v <= i64::MAX {
            Some(v as i64)
        } else {
            None
        },
        None => None,
    }
}

pub(crate) proof fn lemma_digits_value_grows(s: Seq<char>, k: int)
    requires
        all_digits(s),
        0 <= k <= s.len(),
    ensures
        0 <= digits_value(s.subrange(0, k)) <= digits_value(s),
    decreases s.len(),
{
    if s.len() > 0 {
        if k == s.len() {
            assert(s.subrange(0, k) == s);
            lemma_digits_value_grows(s.drop_last(), 0);
        } else {
            lemma_digits_value_grows(s.drop_last(), k);
            assert(s.drop_last().subrange(0, k) == s.subrange(0, k));
        }
        assert(s.drop_last().subrange(0, s.len() - 1) == s.drop_last());
    } else {
        assert(s.subrange(0, k) == s);
    }
}

/// Reads `s` as a base-10 `i64`: an optional sign followed by one or more
/// digits.
pub fn parse_timestamp(s: &str) -> (r: Option<i64>)
    ensures
        r == timestamp_value(s@),
{
    let n = s.unicode_len();
    if n == 0 {
        return None;
    }
    let first = s.get_char(0);
    let negative = first == '-';
    let start: usize = if first == '-' || first == '+' { 1 } else { 0 };
    if start == n {
        return None;
    }
    let ghost body = s@.skip(start as int);
    // The largest magnitude the sign allows.
    let limit: u64 = if negative { 9223372036854775808 } else { 9223372036854775807 };
    let mut v: u64 = 0;
    let mut i: usize = start;
    while i < n
        invariant
            start <= i <= n,
            n == s@.len(),
            start < n,
            start <= 1,
            negative == (s@[0] == '-'),
            start == 1 <==> (s@[0] == '-' || s@[0] == '+'),
            body == s@.skip(start as int),
            all_digits(body.subrange(0, i - start)),
            v == digits_value(body.subrange(0, i - start)),
            v <= limit,
            limit == if negative { 9223372036854775808u64 } else { 9223372036854775807u64 },
        decreases n - i,
    {
        let c = s.get_char(i);
        if !('0' <= c && c <= '9') {
            proof {
                assert(body[i - start] == s@[i as int]);
                assert(!all_digits(body));
                if start == 0 {
                    assert(body == s@);
                } else {
                    assert(!is_digit(s@[0]));
                }
            }
            return None;
        }
        let d = (c as u32 - '0' as u32) as u64;
        assert(d <= 9 && d == digit_value(c));
        let ghost prefix = body.subrange(0, i - start);
        let ghost next = body.subrange(0, i - start + 1);
        assert(next.drop_last() == prefix);
        assert(next.last() == c);
        if v > (limit - d) / 10 {
            proof {
                assert(10 * v + d > limit) by (nonlinear_arith)
                    requires v > (limit - d) / 10, d <= 9, d <= limit;
                assert(all_digits(next));
                if all_digits(body) {
                    lemma_digits_value_grows(body, i - start + 1);
                }
                if start == 0 {
                    assert(body == s@);
                } else {
                    assert(!is_digit(s@[0]));
                }
            }
            return None;
        }
        assert(10 * v + d <= limit) by (nonlinear_arith)
            requires v <= (limit - d) / 10, d <= 9, d <= limit;
        v = v * 10 + d;
        i = i + 1;
    }
    assert(body.subrange(0, n - start) == body);
    if start == 0 {
        assert(body == s@);
    }
    if negative {
        if v == 9223372036854775808 {
            Some(i64::MIN)
        } else {
            Some(-(v as i64))
        }
    } else {
        Some(v as i64)
    }
}

/// Pairs the tokens of `stack` from its end, value on top of key, and inserts
/// each pair into `attributes` until fewer than two tokens remain.
pub open spec fn drain_pairs(stack: Seq<Seq<char>>, attributes: Map<Seq<char>, Seq<char>>) -> Map<
    Seq<char>,
    Seq<char>,
>
    decreases stack.len(),
{
    if stack.len() >= 2 {
        drain_pairs(
            stack.subrange(0, stack.len() - 2),
            attributes.insert(stack[stack.len() - 2], stack[stack.len() - 1]),
        )
    } else {
        attributes
    }
}

/// The effect of one operation on the buffers and the record, and its outcome.
pub open spec fn execute_spec(vm: VmModel, record: RecordModel, op: Operation, input: char) -> (
    VmModel,
    RecordModel,
    Result<(), ExecError>,
) {
    match op {
        Operation::Skip => (vm, record, Ok(())),
        Operation::Accumulate => (VmModel { acc: vm.acc.push(input), ..vm }, record, Ok(())),
        Operation::FinalizeTimestamp => {
            let cleared = VmModel { acc: Seq::empty(), ..vm };
            match timestamp_value(vm.acc) {
                Some(t) => (cleared, RecordModel { timestamp: t, ..record }, Ok(())),
                None => (cleared, record, Err(ExecError::MalformedTimestamp)),
            }
        },
        Operation::PushToken => (
            VmModel { acc: Seq::empty(), stack: vm.stack.push(vm.acc) },
            record,
            Ok(()),
        ),
        Operation::FinalizeAttributes => {
            let tokens = vm.stack.push(vm.acc);
            let attributes = drain_pairs(tokens, record.attributes);
            (
                empty_vm(),
                RecordModel { attributes, ..record },
                if tokens.len() % 2 == 0 {
                    Ok(())
                } else {
                    Err(ExecError::UnbalancedTokens)
                },
            )
        },
    }
}

/// Relies on `String::push`: the character is appended at the end.
#[verifier::external_body]
fn push_char(s: &mut String, c: char)
    ensures
        final(s)@ == old(s)@.push(c),
{
    s.push(c)
}

fn push_token(vm: &mut Vm)
    ensures
        final(vm)@ == (VmModel { acc: Seq::empty(), stack: old(vm)@.stack.push(old(vm)@.acc) }),
{
    let mut token = String::new();
    std::mem::swap(&mut token, &mut vm.acc);
    vm.stack.push(token);
    assert(vm@.stack =~= old(vm)@.stack.push(old(vm)@.acc));
}

/// Performs the operation of `parse_state` for `input` on the buffers and on
/// the record under construction.
pub fn execute_state(vm: &mut Vm, record: &mut Record, parse_state: ParseState, input: char) -> (r:
    Result<(), ExecError>)
    requires
        old(record).wf(),
    ensures
        final(record).wf(),
        (final(vm)@, final(record)@, r) == execute_spec(old(vm)@, old(record)@, parse_state.op, input),
{
    match parse_state.op {
        Operation::Skip => Ok(()),
        Operation::Accumulate => {
            push_char(&mut vm.acc, input);
            Ok(())
        },
        Operation::FinalizeTimestamp => {
            let parsed = parse_timestamp(vm.acc.as_str());
            vm.acc = String::new();
            match parsed {
                Some(t) => {
                    record.timestamp = t;
                    Ok(())
                },
                None => Err(ExecError::MalformedTimestamp),
            }
        },
        Operation::PushToken => {
            push_token(vm);
            Ok(())
        },
        Operation::FinalizeAttributes => {
            push_token(vm);
            let ghost tokens = vm@.stack;
            let ghost start = record@.attributes;
            while vm.stack.len() >= 2
                invariant
                    record.wf(),
                    record.timestamp == old(record).timestamp,
                    vm@.acc == Seq::<char>::empty(),
                    vm@.stack.len() % 2 == tokens.len() % 2,
                    drain_pairs(vm@.stack, record@.attributes) == drain_pairs(tokens, start),
                decreases vm.stack.len(),
            {
                let ghost before = vm@.stack;
                let value = vm.stack.pop().unwrap();
                let key = vm.stack.pop().unwrap();
                assert(vm@.stack =~= before.subrange(0, before.len() - 2));
                record.attributes.insert(key, value);
            }
            if vm.stack.len() == 1 {
                vm.stack.pop();
                assert(vm@.stack =~= Seq::empty());
                Err(ExecError::UnbalancedTokens)
            } else {
                assert(vm@.stack =~= Seq::empty());
                Ok(())
            }
        },
    }
}

} // verus!
