//! Day 18: sums and products with rules of precedence of their own.

use crate::text::{chars_of, digit_value, is_digit, remove_char, string_of, without};
use vstd::prelude::*;

verus! {

/// An expression of digits, `+`, `*` and parentheses, without blanks.
pub struct Equation {
    pub raw: String,
}

/// Whether `ch` is `+` or `*`.
pub open spec fn is_operator_char(ch: char) -> bool {
    ch == '+' || ch == '*'
}

/// The two stacks of the shunting yard: what has gone out, in reverse
/// Polish notation, and the operators that wait.
pub struct Yard {
    pub output: Seq<char>,
    pub operators: Seq<char>,
}

/// The yard with the two stacks given.
pub open spec fn yard_of(output: Seq<char>, operators: Seq<char>) -> Yard {
    Yard { output, operators }
}

/// Moves waiting operators out, last first, down to an opening
/// parenthesis, which stays.
pub open spec fn drained(yard: Yard) -> Yard
    decreases yard.operators.len(),
{
    if yard.operators.len() == 0 || yard.operators.last() == '(' {
        yard
    } else {
        drained(
            Yard {
                output: yard.output.push(yard.operators.last()),
                operators: yard.operators.drop_last(),
            },
        )
    }
}

/// After that no operator waits, or an opening parenthesis is on top.
pub proof fn lemma_drained(yard: Yard)
    ensures
        drained(yard).operators.len() == 0 || drained(yard).operators.last() == '(',
    decreases yard.operators.len(),
{
    if !(yard.operators.len() == 0 || yard.operators.last() == '(') {
        lemma_drained(
            Yard {
                output: yard.output.push(yard.operators.last()),
                operators: yard.operators.drop_last(),
            },
        );
    }
}

/// Takes an opening parenthesis off the waiting operators, if one is on top.
pub open spec fn unopened(yard: Yard) -> Yard {
    if yard.operators.len() > 0 && yard.operators.last() == '(' {
        Yard { operators: yard.operators.drop_last(), ..yard }
    } else {
        yard
    }
}

/// Moves all waiting operators out, last first.
pub open spec fn flushed(yard: Yard) -> Seq<char>
    decreases yard.operators.len(),
{
    if yard.operators.len() == 0 {
        yard.output
    } else {
        flushed(
            Yard {
                output: yard.output.push(yard.operators.last()),
                operators: yard.operators.drop_last(),
            },
        )
    }
}

/// The yard after one more character of the expression. A digit goes out.
/// An operator first moves waiting operators out: all down to a
/// parenthesis where `plus_precedence` holds, else just a `+` on top; then
/// it waits. An opening parenthesis waits. A closing one moves operators
/// out down to its opening one, which it takes away. Anything else is
/// passed over.
pub open spec fn yard_step(yard: Yard, ch: char, plus_precedence: bool) -> Yard {
    if is_digit(ch) {
        Yard { output: yard.output.push(ch), ..yard }
    } else if is_operator_char(ch) {
        let made_room = if plus_precedence {
            drained(yard)
        } else if yard.operators.len() > 0 && yard.operators.last() == '+' {
            Yard { output: yard.output.push('+'), operators: yard.operators.drop_last() }
        } else {
            yard
        };
        Yard { operators: made_room.operators.push(ch), ..made_room }
    } else if ch == '(' {
        Yard { operators: yard.operators.push(ch), ..yard }
    } else if ch == ')' {
        unopened(drained(yard))
    } else {
        yard
    }
}

/// The yard after the first `k` characters of the expression.
pub open spec fn yard_after(raw: Seq<char>, plus_precedence: bool, k: nat) -> Yard
    decreases k,
{
    if k == 0 {
        Yard { output: Seq::empty(), operators: Seq::empty() }
    } else {
        yard_step(yard_after(raw, plus_precedence, (k - 1) as nat), raw[k - 1], plus_precedence)
    }
}

/// The expression in reverse Polish notation.
pub open spec fn polish(raw: Seq<char>, plus_precedence: bool) -> Seq<char> {
    flushed(yard_after(raw, plus_precedence, raw.len()))
}

/// The stack of values after the first `k` tokens of an expression in
/// reverse Polish notation: a digit puts its value on the stack, an
/// operator takes two values off and puts their sum or product on.
pub open spec fn stack_after(tokens: Seq<char>, k: nat) -> Seq<int>
    decreases k,
{
    if k == 0 {
        Seq::empty()
    } else {
        let stack = stack_after(tokens, (k - 1) as nat);
        let token = tokens[k - 1];
        if is_digit(token) {
            stack.push(digit_value(token))
        } else if token == '+' {
            stack.drop_last().drop_last().push(stack.last() + stack[stack.len() - 2])
        } else {
            stack.drop_last().drop_last().push(stack.last() * stack[stack.len() - 2])
        }
    }
}

/// The tokens can be evaluated: each is a digit or an operator, each
/// operator finds two values on the stack, and no value overflows.
pub open spec fn can_evaluate(tokens: Seq<char>) -> bool {
    &&& forall|k: nat|
        k < tokens.len() ==> is_digit(#[trigger] tokens[k as int]) || (is_operator_char(
            tokens[k as int],
        ) && stack_after(tokens, k).len() >= 2)
    &&& forall|k: nat| k <= tokens.len() ==> all_fit(#[trigger] stack_after(tokens, k))
}

/// Every value of the stack fits in 64 bits with a sign.
pub open spec fn all_fit(stack: Seq<int>) -> bool {
    forall|i: int| 0 <= i < stack.len() ==> i64::MIN <= #[trigger] stack[i] <= i64::MAX
}

/// The value of an expression in reverse Polish notation: what is on top
/// of the stack at the end, or zero where the stack is empty.
pub open spec fn value_of(tokens: Seq<char>) -> int {
    let stack = stack_after(tokens, tokens.len());
    if stack.len() == 0 {
        0
    } else {
        stack.last()
    }
}

impl Equation {
    /// Whether `ch` is `+` or `*`.
    pub fn is_operator(ch: char) -> (is: bool)
        ensures
            is == is_operator_char(ch),
    {
        ch == '+' || ch == '*'
    }

    /// The expression in reverse Polish notation, by the shunting yard.
    pub fn to_polish(&self, plus_precedence: bool) -> (output: Vec<char>)
        ensures
            output@ == polish(self.raw@, plus_precedence),
    {
        let raw = chars_of(self.raw.as_str());
        let mut output: Vec<char> = Vec::new();
        let mut operators: Vec<char> = Vec::new();
        let mut k: usize = 0;
        while k < raw.len()
            invariant
                k <= raw.len(),
                raw@ == self.raw@,
                yard_of(output@, operators@) == yard_after(raw@, plus_precedence, k as nat),
            decreases raw.len() - k,
        {
            let ch = raw[k];
            let ghost before = yard_of(output@, operators@);
            proof {
                lemma_drained(before);
            }
            if '0' <= ch && ch <= '9' {
                output.push(ch);
            } else if Equation::is_operator(ch) {
                if plus_precedence {
                    drain(&mut output, &mut operators);
                } else {
                    if operators.len() > 0 && operators[operators.len() - 1] == '+' {
                        operators.pop();
                        output.push('+');
                    }
                }
                operators.push(ch);
            } else if ch == '(' {
                operators.push(ch);
            } else if ch == ')' {
                drain(&mut output, &mut operators);
                if operators.len() > 0 {
                    operators.pop();
                }
            }
            proof {
                let step = yard_step(before, ch, plus_precedence);
                assert(output@ =~= step.output);
                assert(operators@ =~= step.operators);
            }
            k += 1;
        }
        while operators.len() > 0
            invariant
                flushed(yard_of(output@, operators@)) == polish(self.raw@, plus_precedence),
            decreases operators.len(),
        {
            let operator = operators[operators.len() - 1];
            operators.pop();
            output.push(operator);
        }
        output
    }

    /// The value of the expression: it is brought into reverse Polish
    /// notation by the shunting yard, and then evaluated on a stack.
    pub fn calculate(&self, plus_precedence: bool) -> (value: i64)
        requires
            can_evaluate(polish(self.raw@, plus_precedence)),
        ensures
            value == value_of(polish(self.raw@, plus_precedence)),
    {
        let output = self.to_polish(plus_precedence);
        evaluate(&output)
    }
}

/// The values of a stack.
pub open spec fn stack_values(stack: Seq<i64>) -> Seq<int> {
    stack.map_values(|v: i64| v as int)
}

/// Evaluates an expression in reverse Polish notation on a stack.
pub fn evaluate(tokens: &Vec<char>) -> (value: i64)
    requires
        can_evaluate(tokens@),
    ensures
        value == value_of(tokens@),
{
    match try_evaluate(tokens) {
        Some(value) => value,
        None => 0,
    }
}

/// Evaluates an expression in reverse Polish notation on a stack, where
/// that can be done: `None` where a token is neither digit nor operator,
/// an operator does not find two values, or a value overflows.
pub fn try_evaluate(tokens: &Vec<char>) -> (value: Option<i64>)
    ensures
        match value {
            Some(v) => can_evaluate(tokens@) && v == value_of(tokens@),
            None => !can_evaluate(tokens@),
        },
{
    let mut stack: Vec<i64> = Vec::new();
    let mut k: usize = 0;
    proof {
        assert(stack_values(stack@) =~= stack_after(tokens@, 0));
    }
    while k < tokens.len()
        invariant
            k <= tokens.len(),
            stack_values(stack@) =~= stack_after(tokens@, k as nat),
            forall|j: nat|
                j < k ==> is_digit(#[trigger] tokens@[j as int]) || (is_operator_char(
                    tokens@[j as int],
                ) && stack_after(tokens@, j).len() >= 2),
            forall|j: nat| j <= k ==> all_fit(#[trigger] stack_after(tokens@, j)),
        decreases tokens.len() - k,
    {
        let token = tokens[k];
        let ghost before = stack_after(tokens@, k as nat);
        let ghost after = stack_after(tokens@, (k + 1) as nat);
        let digit = '0' <= token && token <= '9';
        proof {
            assert(stack@.len() == before.len());
            if before.len() >= 2 {
                assert(stack_values(stack@)[before.len() - 1] == stack@[before.len() - 1]);
                assert(stack_values(stack@)[before.len() - 2] == stack@[before.len() - 2]);
            }
        }
        if digit {
            stack.push((token as u32 - '0' as u32) as i64);
        } else {
            if !(token == '+' || token == '*') || stack.len() < 2 {
                assert(!(is_digit(tokens@[k as int]) || (is_operator_char(tokens@[k as int])
                    && stack_after(tokens@, k as nat).len() >= 2)));
                return None;
            }
            let a = stack[stack.len() - 1];
            let b = stack[stack.len() - 2];
            let sum = if token == '+' {
                a.checked_add(b)
            } else {
                a.checked_mul(b)
            };
            match sum {
                Some(v) => {
                    stack.pop();
                    stack.pop();
                    stack.push(v);
                },
                None => {
                    proof {
                        assert(!(i64::MIN <= after[after.len() - 1] <= i64::MAX));
                        assert(!all_fit(after));
                        assert(!all_fit(stack_after(tokens@, (k + 1) as nat)));
                    }
                    return None;
                },
            }
        }
        proof {
            assert(stack_values(stack@) =~= after);
            assert(all_fit(after)) by {
                assert forall|i: int| 0 <= i < after.len() implies i64::MIN <= #[trigger] after[i]
                    <= i64::MAX by {
                    assert(after[i] == stack@[i]);
                }
            }
        }
        k += 1;
    }
    if stack.len() == 0 {
        Some(0)
    } else {
        assert(stack_values(stack@)[stack@.len() - 1] == stack@[stack@.len() - 1]);
        Some(stack[stack.len() - 1])
    }
}

/// Moves waiting operators out, last first, down to an opening
/// parenthesis, which stays.
fn drain(output: &mut Vec<char>, operators: &mut Vec<char>)
    ensures
        yard_of(final(output)@, final(operators)@) == drained(
            yard_of(old(output)@, old(operators)@),
        ),
{
    while operators.len() > 0 && operators[operators.len() - 1] != '('
        invariant
            drained(yard_of(output@, operators@)) == drained(
                yard_of(old(output)@, old(operators)@),
            ),
        decreases operators.len(),
    {
        let operator = operators[operators.len() - 1];
        operators.pop();
        output.push(operator);
    }
}

/// The sum of the values of the first `k` expressions.
pub open spec fn sum_of_values(equations: Seq<Equation>, plus_precedence: bool, k: nat) -> int
    decreases k,
{
    if k == 0 {
        0
    } else {
        sum_of_values(equations, plus_precedence, (k - 1) as nat) + value_of(
            polish(equations[k - 1].raw@, plus_precedence),
        )
    }
}

/// The expressions can be evaluated and summed up without overflow.
pub open spec fn can_sum(equations: Seq<Equation>, plus_precedence: bool) -> bool {
    &&& forall|i: int|
        0 <= i < equations.len() ==> can_evaluate(
            polish((#[trigger] equations[i]).raw@, plus_precedence),
        )
    &&& forall|k: nat|
        k <= equations.len() ==> i64::MIN <= #[trigger] sum_of_values(
            equations,
            plus_precedence,
            k,
        ) <= i64::MAX
}

/// The sum of the values of the expressions.
fn sum_up(equations: &[Equation], plus_precedence: bool) -> (sum: i64)
    requires
        can_sum(equations@, plus_precedence),
    ensures
        sum == sum_of_values(equations@, plus_precedence, equations@.len()),
{
    let mut sum: i64 = 0;
    let mut k: usize = 0;
    while k < equations.len()
        invariant
            k <= equations.len(),
            can_sum(equations@, plus_precedence),
            sum == sum_of_values(equations@, plus_precedence, k as nat),
        decreases equations.len() - k,
    {
        proof {
            assert(i64::MIN <= sum_of_values(equations@, plus_precedence, (k + 1) as nat)
                <= i64::MAX);
        }
        sum = sum + equations[k].calculate(plus_precedence);
        k += 1;
    }
    sum
}

/// The sum of the values of the expressions, an operator giving way to a
/// `+` before it only.
pub fn part1(equations: &[Equation]) -> (sum: i64)
    requires
        can_sum(equations@, false),
    ensures
        sum == sum_of_values(equations@, false, equations@.len()),
{
    sum_up(equations, false)
}

/// The sum of the values of the expressions, an operator giving way to
/// every operator before it.
pub fn part2(equations: &[Equation]) -> (sum: i64)
    requires
        can_sum(equations@, true),
    ensures
        sum == sum_of_values(equations@, true, equations@.len()),
{
    sum_up(equations, true)
}

/// The expressions that the lines spell, blanks taken out.
pub fn read_equations(lines: &Vec<String>) -> (equations: Vec<Equation>)
    ensures
        equations.len() == lines.len(),
        forall|i: int|
            0 <= i < lines.len() ==> (#[trigger] equations[i]).raw@ == without(lines[i]@, ' '),
{
    let mut equations: Vec<Equation> = Vec::new();
    let mut i: usize = 0;
    while i < lines.len()
        invariant
            i <= lines.len(),
            equations.len() == i,
            forall|j: int|
                0 <= j < i ==> (#[trigger] equations[j]).raw@ == without(lines[j]@, ' '),
        decreases lines.len() - i,
    {
        let line = chars_of(lines[i].as_str());
        let raw = remove_char(&line, ' ');
        equations.push(Equation { raw: string_of(&raw) });
        i += 1;
    }
    equations
}

} // verus!
