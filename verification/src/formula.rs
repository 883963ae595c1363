//! Formulas: the text after `=` in a cell.
//!
//! A formula is parsed by recursive descent (`+ -` below `* /` below unary `+ -` below
//! numbers, cell references and brackets). Parsing yields a postfix program in the order in
//! which the expression is evaluated; running it with numbers gives the cell's value. The
//! program keeps the evaluator's error rules: a syntax error is placed where the parser meets
//! it, and each step that can fail at run time records whether its error is reported as
//! itself or as a syntax error (it is reported as itself only when nothing but the closing
//! brackets of the brackets open around it follows).
use vstd::prelude::*;
use crate::cell::CellError;
use crate::lexer::{Token, TokenView, column_overflows, tokenize, tokens_of, tokens_view, lex_overflows};
use crate::text::{chars_of, string_of, trim_chars, trimmed};

verus! {

/// One step of a formula program, run on a stack of numbers.
#[derive(Debug, Clone)]
pub enum Step {
    /// Push the number written as this literal.
    Push(String),
    /// Push the value of cell (row, column); `true`: an error here is reported as itself.
    Load(usize, usize, bool),
    /// Negate the top of the stack.
    Negate,
    /// Pop the right then the left operand; push their sum.
    Add,
    /// Pop the right then the left operand; push left minus right.
    Subtract,
    /// Pop the right then the left operand; push their product.
    Multiply,
    /// Pop the right then the left operand; a zero right operand is a division error
    /// (reported as itself when `true`), otherwise push left divided by right.
    Divide(bool),
    /// Pop the last `n` operands and push the value of the function `name` (in upper case)
    /// on them, in order; an error of the function is reported as itself when `true`.
    Call(String, usize, bool),
    /// The formula is malformed here: the result is a syntax error.
    Fail,
}

/// What a [`Step`] says, with a literal's text as characters.
pub enum StepView {
    Push(Seq<char>),
    Load(usize, usize, bool),
    Negate,
    Add,
    Subtract,
    Multiply,
    Divide(bool),
    Call(Seq<char>, nat, bool),
    Fail,
}

impl View for Step {
    type V = StepView;

    open spec fn view(&self) -> StepView {
        match *self {
            Step::Push(t) => StepView::Push(t@),
            Step::Load(r, c, b) => StepView::Load(r, c, b),
            Step::Negate => StepView::Negate,
            Step::Add => StepView::Add,
            Step::Subtract => StepView::Subtract,
            Step::Multiply => StepView::Multiply,
            Step::Divide(b) => StepView::Divide(b),
            Step::Call(name, n, b) => StepView::Call(name@, n as nat, b),
            Step::Fail => StepView::Fail,
        }
    }
}

/// The views of a program.
pub open spec fn program_view(p: Seq<Step>) -> Seq<StepView> {
    p.map_values(|s: Step| s@)
}

/// The outcome of parsing from some position: the steps, the position reached, and whether
/// parsing stopped at a syntax error (then the steps end with `Fail`).
pub struct Parsed {
    pub prog: Seq<StepView>,
    pub end: int,
    pub failed: bool,
}

/// An error raised when the parser stands at `q`, inside `depth` open brackets, is reported
/// as itself only when exactly `depth` closing brackets follow and nothing else.
pub open spec fn reported_at(t: Seq<TokenView>, q: int, depth: int) -> bool {
    &&& q + depth == t.len()
    &&& forall|m: int| q <= m < t.len() ==> #[trigger] t[m] is RParen
}

pub open spec fn fail_at(i: int) -> Parsed {
    Parsed { prog: seq![StepView::Fail], end: i, failed: true }
}

/// Sum and difference level: `term (('+' | '-') term)*`.
pub open spec fn parse_sum(t: Seq<TokenView>, i: int, depth: int) -> Parsed
    decreases t.len() - i, 5int,
{
    let a = parse_term(t, i, depth);
    if a.failed || !(i < a.end <= t.len()) {
        a
    } else {
        sum_rest(t, a.end, depth, a.prog)
    }
}

/// The `(('+' | '-') term)*` tail of a sum, after the steps `acc`.
pub open spec fn sum_rest(t: Seq<TokenView>, i: int, depth: int, acc: Seq<StepView>) -> Parsed
    decreases t.len() - i, 4int,
{
    if 0 <= i < t.len() && (t[i] is Plus || t[i] is Minus) {
        let b = parse_term(t, i + 1, depth);
        if b.failed {
            Parsed { prog: acc + b.prog, end: b.end, failed: true }
        } else if !(i < b.end <= t.len()) {
            Parsed { prog: acc, end: i, failed: false }
        } else {
            let op = if t[i] is Plus { StepView::Add } else { StepView::Subtract };
            sum_rest(t, b.end, depth, acc + b.prog.push(op))
        }
    } else {
        Parsed { prog: acc, end: i, failed: false }
    }
}

/// Product and quotient level: `factor (('*' | '/') factor)*`.
pub open spec fn parse_term(t: Seq<TokenView>, i: int, depth: int) -> Parsed
    decreases t.len() - i, 3int,
{
    let a = parse_factor(t, i, depth);
    if a.failed || !(i < a.end <= t.len()) {
        a
    } else {
        term_rest(t, a.end, depth, a.prog)
    }
}

/// The `(('*' | '/') factor)*` tail of a term, after the steps `acc`.
pub open spec fn term_rest(t: Seq<TokenView>, i: int, depth: int, acc: Seq<StepView>) -> Parsed
    decreases t.len() - i, 2int,
{
    if 0 <= i < t.len() && (t[i] is Star || t[i] is Slash) {
        let b = parse_factor(t, i + 1, depth);
        if b.failed {
            Parsed { prog: acc + b.prog, end: b.end, failed: true }
        } else if !(i < b.end <= t.len()) {
            Parsed { prog: acc, end: i, failed: false }
        } else {
            let op = if t[i] is Star { StepView::Multiply } else { StepView::Divide(reported_at(t, b.end, depth)) };
            term_rest(t, b.end, depth, acc + b.prog.push(op))
        }
    } else {
        Parsed { prog: acc, end: i, failed: false }
    }
}

/// Unary level: `('-' | '+') factor | atom`.
pub open spec fn parse_factor(t: Seq<TokenView>, i: int, depth: int) -> Parsed
    decreases t.len() - i, 1int,
{
    if i < 0 || i >= t.len() {
        fail_at(i)
    } else if t[i] is Minus {
        let r = parse_factor(t, i + 1, depth);
        if r.failed { r } else { Parsed { prog: r.prog.push(StepView::Negate), end: r.end, failed: false } }
    } else if t[i] is Plus {
        parse_factor(t, i + 1, depth)
    } else {
        parse_atom(t, i, depth)
    }
}

/// The arguments of a call of `name`, from token `j` on, after the steps `acc` of the `n`
/// arguments before: `sum (',' sum)* ')'`, each argument inside the call's brackets.
pub open spec fn args_rest(t: Seq<TokenView>, j: int, depth: int, name: Seq<char>, acc: Seq<StepView>, n: nat) -> Parsed
    decreases t.len() - j, 6int,
{
    let a = parse_sum(t, j, depth + 1);
    if a.failed {
        Parsed { prog: acc + a.prog, end: a.end, failed: true }
    } else if !(j < a.end <= t.len()) {
        Parsed { prog: acc.push(StepView::Fail), end: j, failed: true }
    } else if a.end < t.len() && t[a.end] is Comma {
        args_rest(t, a.end + 1, depth, name, acc + a.prog, n + 1)
    } else if a.end < t.len() && t[a.end] is RParen {
        Parsed {
            prog: acc + a.prog.push(StepView::Call(name, n + 1, reported_at(t, a.end + 1, depth))),
            end: a.end + 1,
            failed: false,
        }
    } else {
        Parsed { prog: acc + a.prog.push(StepView::Fail), end: a.end, failed: true }
    }
}

/// Atoms: a number, a cell reference, a call `NAME(args)`, or a bracketed sum.
pub open spec fn parse_atom(t: Seq<TokenView>, i: int, depth: int) -> Parsed
    decreases t.len() - i, 0int,
{
    if i < 0 || i >= t.len() {
        fail_at(i)
    } else {
        match t[i] {
            TokenView::Number(text) => Parsed { prog: seq![StepView::Push(text)], end: i + 1, failed: false },
            TokenView::CellRef(r, c) => Parsed {
                prog: seq![StepView::Load(r, c, reported_at(t, i + 1, depth))],
                end: i + 1,
                failed: false,
            },
            TokenView::Name(name) => {
                if i + 2 < t.len() && t[i + 1] is LParen && t[i + 2] is RParen {
                    Parsed {
                        prog: seq![StepView::Call(name, 0, reported_at(t, i + 3, depth))],
                        end: i + 3,
                        failed: false,
                    }
                } else if i + 1 < t.len() && t[i + 1] is LParen {
                    args_rest(t, i + 2, depth, name, Seq::empty(), 0)
                } else {
                    fail_at(i + 1)
                }
            },
            TokenView::LParen => {
                let v = parse_sum(t, i + 1, depth + 1);
                if v.failed {
                    v
                } else if 0 <= v.end < t.len() && t[v.end] is RParen {
                    Parsed { prog: v.prog, end: v.end + 1, failed: false }
                } else {
                    Parsed { prog: v.prog.push(StepView::Fail), end: v.end, failed: true }
                }
            },
            _ => fail_at(i),
        }
    }
}

/// The program of a token list: the parse of the whole list, with a syntax error when it
/// is empty or when tokens are left over.
pub open spec fn program_of_tokens(t: Seq<TokenView>) -> Seq<StepView> {
    if t.len() == 0 {
        seq![StepView::Fail]
    } else {
        let p = parse_sum(t, 0, 0);
        if !p.failed && p.end < t.len() { p.prog.push(StepView::Fail) } else { p.prog }
    }
}

/// The program of a formula text, or the error its tokens give.
pub open spec fn program_of(s: Seq<char>) -> Result<Seq<StepView>, CellError> {
    match tokens_of(s) {
        Ok(t) => Ok(program_of_tokens(t)),
        Err(e) => Err(e),
    }
}

// ---------------------------------------------------------------------------
// Facts about the parse
// ---------------------------------------------------------------------------

/// Parsing moves forward, past at least one token unless it failed, and never past the end.
pub proof fn lemma_parse_range(t: Seq<TokenView>, i: int, depth: int)
    requires
        0 <= i <= t.len(),
    ensures
        i <= parse_sum(t, i, depth).end <= t.len(),
        !parse_sum(t, i, depth).failed ==> parse_sum(t, i, depth).end > i,
        i <= parse_term(t, i, depth).end <= t.len(),
        !parse_term(t, i, depth).failed ==> parse_term(t, i, depth).end > i,
        i <= parse_factor(t, i, depth).end <= t.len(),
        !parse_factor(t, i, depth).failed ==> parse_factor(t, i, depth).end > i,
        i <= parse_atom(t, i, depth).end <= t.len(),
        !parse_atom(t, i, depth).failed ==> parse_atom(t, i, depth).end > i,
    decreases t.len() - i, 0int,
{
    if i < t.len() {
        lemma_parse_range(t, i + 1, depth);
        lemma_parse_range(t, i + 1, depth + 1);
        if let TokenView::Name(name) = t[i] {
            if i + 1 < t.len() {
                lemma_args_range(t, i + 2, depth, name, Seq::empty(), 0);
            }
        }
        let a = parse_factor(t, i, depth);
        if !a.failed && i < a.end <= t.len() {
            lemma_term_rest_range(t, a.end, depth, a.prog);
        }
        let b = parse_term(t, i, depth);
        if !b.failed && i < b.end <= t.len() {
            lemma_sum_rest_range(t, b.end, depth, b.prog);
        }
    }
}

proof fn lemma_args_range(t: Seq<TokenView>, j: int, depth: int, name: Seq<char>, acc: Seq<StepView>, n: nat)
    requires
        0 <= j <= t.len(),
    ensures
        j <= args_rest(t, j, depth, name, acc, n).end <= t.len(),
    decreases t.len() - j, 1int,
{
    lemma_parse_range(t, j, depth + 1);
    let a = parse_sum(t, j, depth + 1);
    if !a.failed && j < a.end < t.len() && t[a.end] is Comma {
        lemma_args_range(t, a.end + 1, depth, name, acc + a.prog, n + 1);
    }
}

proof fn lemma_term_rest_range(t: Seq<TokenView>, i: int, depth: int, acc: Seq<StepView>)
    requires
        0 <= i <= t.len(),
    ensures
        i <= term_rest(t, i, depth, acc).end <= t.len(),
    decreases t.len() - i, 0int,
{
    if 0 <= i < t.len() && (t[i] is Star || t[i] is Slash) {
        lemma_parse_range(t, i + 1, depth);
        let b = parse_factor(t, i + 1, depth);
        if !b.failed && i < b.end <= t.len() {
            let op = if t[i] is Star { StepView::Multiply } else { StepView::Divide(reported_at(t, b.end, depth)) };
            lemma_term_rest_range(t, b.end, depth, acc + b.prog.push(op));
        }
    }
}

proof fn lemma_sum_rest_range(t: Seq<TokenView>, i: int, depth: int, acc: Seq<StepView>)
    requires
        0 <= i <= t.len(),
    ensures
        i <= sum_rest(t, i, depth, acc).end <= t.len(),
    decreases t.len() - i, 0int,
{
    if 0 <= i < t.len() && (t[i] is Plus || t[i] is Minus) {
        lemma_parse_range(t, i + 1, depth);
        let b = parse_term(t, i + 1, depth);
        if !b.failed && i < b.end <= t.len() {
            let op = if t[i] is Plus { StepView::Add } else { StepView::Subtract };
            lemma_sum_rest_range(t, b.end, depth, acc + b.prog.push(op));
        }
    }
}

// ---------------------------------------------------------------------------
// Running a program on a stack
// ---------------------------------------------------------------------------

/// How running a program on a stack of numbers ends, counting only the stack's depth.
pub enum StackRun {
    /// A step found too few numbers on the stack.
    Underflow,
    /// A `Fail` step was reached.
    Stopped,
    /// Every step ran, leaving this many numbers.
    Finished(int),
}

/// Runs the steps `p` from a stack holding `depth` numbers: a literal or a cell pushes one
/// number, negation takes one and gives one back, an operator takes two and gives one.
pub open spec fn stack_run(p: Seq<StepView>, depth: int) -> StackRun
    decreases p.len(),
{
    if p.len() == 0 {
        StackRun::Finished(depth)
    } else {
        let rest = p.subrange(1, p.len() as int);
        match p[0] {
            StepView::Push(_) | StepView::Load(_, _, _) => stack_run(rest, depth + 1),
            StepView::Negate => if depth >= 1 { stack_run(rest, depth) } else { StackRun::Underflow },
            StepView::Fail => StackRun::Stopped,
            StepView::Call(_, n, _) => if depth >= n { stack_run(rest, depth - n + 1) } else { StackRun::Underflow },
            _ => if depth >= 2 { stack_run(rest, depth - 1) } else { StackRun::Underflow },
        }
    }
}

proof fn lemma_run_concat(p1: Seq<StepView>, p2: Seq<StepView>, depth: int)
    ensures
        match stack_run(p1, depth) {
            StackRun::Finished(d) => stack_run(p1 + p2, depth) == stack_run(p2, d),
            other => stack_run(p1 + p2, depth) == other,
        },
    decreases p1.len(),
{
    if p1.len() == 0 {
        assert(p1 + p2 == p2);
    } else {
        let rest = p1.subrange(1, p1.len() as int);
        assert((p1 + p2).subrange(1, (p1 + p2).len() as int) == rest + p2);
        assert((p1 + p2)[0] == p1[0]);
        match p1[0] {
            StepView::Push(_) | StepView::Load(_, _, _) => lemma_run_concat(rest, p2, depth + 1),
            StepView::Negate => lemma_run_concat(rest, p2, depth),
            StepView::Fail => {},
            StepView::Call(_, n, _) => lemma_run_concat(rest, p2, depth - n + 1),
            _ => lemma_run_concat(rest, p2, depth - 1),
        }
    }
}

proof fn lemma_run_single(s: StepView, depth: int)
    ensures
        stack_run(seq![s], depth) == match s {
            StepView::Push(_) | StepView::Load(_, _, _) => StackRun::Finished(depth + 1),
            StepView::Negate => if depth >= 1 { StackRun::Finished(depth) } else { StackRun::Underflow },
            StepView::Fail => StackRun::Stopped,
            StepView::Call(_, n, _) => if depth >= n { StackRun::Finished(depth - n + 1) } else { StackRun::Underflow },
            _ => if depth >= 2 { StackRun::Finished(depth - 1) } else { StackRun::Underflow },
        },
{
    let p = seq![s];
    assert(p.subrange(1, 1) == Seq::<StepView>::empty());
    assert(stack_run(Seq::<StepView>::empty(), depth + 1) == StackRun::Finished(depth + 1));
    assert(stack_run(Seq::<StepView>::empty(), depth) == StackRun::Finished(depth));
    assert(stack_run(Seq::<StepView>::empty(), depth - 1) == StackRun::Finished(depth - 1));
    if let StepView::Call(_, n, _) = s {
        assert(stack_run(Seq::<StepView>::empty(), depth - n + 1) == StackRun::Finished(depth - n + 1));
    }
}

/// `p` followed by `s` runs as `p` then `s`.
proof fn lemma_run_push(p: Seq<StepView>, s: StepView, depth: int)
    ensures
        match stack_run(p, depth) {
            StackRun::Finished(d) => stack_run(p.push(s), depth) == stack_run(seq![s], d),
            other => stack_run(p.push(s), depth) == other,
        },
{
    assert(p.push(s) == p + seq![s]);
    lemma_run_concat(p, seq![s], depth);
    if let StackRun::Finished(d) = stack_run(p, depth) {
        lemma_run_single(s, d);
    }
}

/// A parse that went through leaves one more number; one that failed stops at its `Fail`.
pub open spec fn runs_as_parsed(r: Parsed, depth: int) -> bool {
    if r.failed {
        stack_run(r.prog, depth) == StackRun::Stopped
    } else {
        stack_run(r.prog, depth) == StackRun::Finished(depth + 1)
    }
}

proof fn lemma_parse_stack(t: Seq<TokenView>, i: int, level: int, depth: int)
    requires
        0 <= i <= t.len(),
        depth >= 0,
    ensures
        runs_as_parsed(parse_atom(t, i, level), depth),
        runs_as_parsed(parse_factor(t, i, level), depth),
        runs_as_parsed(parse_term(t, i, level), depth),
        runs_as_parsed(parse_sum(t, i, level), depth),
    decreases t.len() - i, 1int,
{
    lemma_parse_range(t, i, level);
    lemma_run_single(StepView::Fail, depth);
    if i < t.len() {
        lemma_parse_stack(t, i + 1, level, depth);
        lemma_parse_stack(t, i + 1, level + 1, depth);
        let v = parse_sum(t, i + 1, level + 1);
        lemma_run_push(v.prog, StepView::Fail, depth);
        lemma_run_single(StepView::Fail, depth + 1);
        let r = parse_factor(t, i + 1, level);
        lemma_run_push(r.prog, StepView::Negate, depth);
        lemma_run_single(StepView::Negate, depth + 1);
        match t[i] {
            TokenView::Number(text) => lemma_run_single(StepView::Push(text), depth),
            TokenView::CellRef(row, col) => lemma_run_single(StepView::Load(row, col, reported_at(t, i + 1, level)), depth),
            TokenView::Name(name) => {
                lemma_run_single(StepView::Call(name, 0, reported_at(t, i + 3, level)), depth);
                if i + 1 < t.len() {
                    assert(stack_run(Seq::<StepView>::empty(), depth) == StackRun::Finished(depth));
                    lemma_args_stack(t, i + 2, level, name, Seq::empty(), 0, depth);
                }
            },
            _ => {},
        }
        assert(runs_as_parsed(parse_atom(t, i, level), depth));
        assert(runs_as_parsed(parse_factor(t, i, level), depth));
        let a = parse_factor(t, i, level);
        if !a.failed && i < a.end <= t.len() {
            lemma_term_rest_stack(t, a.end, level, a.prog, depth);
        }
        let b = parse_term(t, i, level);
        if !b.failed && i < b.end <= t.len() {
            lemma_sum_rest_stack(t, b.end, level, b.prog, depth);
        }
    }
}

proof fn lemma_args_stack(t: Seq<TokenView>, j: int, level: int, name: Seq<char>, acc: Seq<StepView>, n: nat, depth: int)
    requires
        0 <= j <= t.len(),
        depth >= 0,
        stack_run(acc, depth) == StackRun::Finished(depth + n),
    ensures
        runs_as_parsed(args_rest(t, j, level, name, acc, n), depth),
    decreases t.len() - j, 2int,
{
    lemma_parse_range(t, j, level + 1);
    lemma_parse_stack(t, j, level + 1, depth + n);
    let a = parse_sum(t, j, level + 1);
    lemma_run_concat(acc, a.prog, depth);
    lemma_run_push(acc, StepView::Fail, depth);
    lemma_run_single(StepView::Fail, depth + n);
    let call = StepView::Call(name, n + 1, reported_at(t, a.end + 1, level));
    lemma_run_concat(acc, a.prog.push(call), depth);
    lemma_run_push(a.prog, call, depth + n);
    lemma_run_single(call, depth + n + 1);
    lemma_run_concat(acc, a.prog.push(StepView::Fail), depth);
    lemma_run_push(a.prog, StepView::Fail, depth + n);
    lemma_run_single(StepView::Fail, depth + n + 1);
    if !a.failed && j < a.end < t.len() && t[a.end] is Comma {
        lemma_args_stack(t, a.end + 1, level, name, acc + a.prog, n + 1, depth);
    }
}

proof fn lemma_term_rest_stack(t: Seq<TokenView>, i: int, level: int, acc: Seq<StepView>, depth: int)
    requires
        0 <= i <= t.len(),
        depth >= 0,
        stack_run(acc, depth) == StackRun::Finished(depth + 1),
    ensures
        runs_as_parsed(term_rest(t, i, level, acc), depth),
    decreases t.len() - i, 0int,
{
    if 0 <= i < t.len() && (t[i] is Star || t[i] is Slash) {
        lemma_parse_range(t, i + 1, level);
        lemma_parse_stack(t, i + 1, level, depth + 1);
        let b = parse_factor(t, i + 1, level);
        lemma_run_concat(acc, b.prog, depth);
        if !b.failed && i < b.end <= t.len() {
            let op = if t[i] is Star { StepView::Multiply } else { StepView::Divide(reported_at(t, b.end, level)) };
            lemma_run_concat(acc, b.prog.push(op), depth);
            lemma_run_push(b.prog, op, depth + 1);
            assert(stack_run(b.prog, depth + 1) == StackRun::Finished(depth + 2));
            lemma_run_single(op, depth + 2);
            assert(stack_run(b.prog.push(op), depth + 1) == StackRun::Finished(depth + 1));
            assert(stack_run(acc + b.prog.push(op), depth) == StackRun::Finished(depth + 1));
            lemma_term_rest_stack(t, b.end, level, acc + b.prog.push(op), depth);
        }
    }
}

proof fn lemma_sum_rest_stack(t: Seq<TokenView>, i: int, level: int, acc: Seq<StepView>, depth: int)
    requires
        0 <= i <= t.len(),
        depth >= 0,
        stack_run(acc, depth) == StackRun::Finished(depth + 1),
    ensures
        runs_as_parsed(sum_rest(t, i, level, acc), depth),
    decreases t.len() - i, 0int,
{
    if 0 <= i < t.len() && (t[i] is Plus || t[i] is Minus) {
        lemma_parse_range(t, i + 1, level);
        lemma_parse_stack(t, i + 1, level, depth + 1);
        let b = parse_term(t, i + 1, level);
        lemma_run_concat(acc, b.prog, depth);
        if !b.failed && i < b.end <= t.len() {
            let op = if t[i] is Plus { StepView::Add } else { StepView::Subtract };
            lemma_run_concat(acc, b.prog.push(op), depth);
            lemma_run_push(b.prog, op, depth + 1);
            assert(stack_run(b.prog, depth + 1) == StackRun::Finished(depth + 2));
            lemma_run_single(op, depth + 2);
            assert(stack_run(b.prog.push(op), depth + 1) == StackRun::Finished(depth + 1));
            assert(stack_run(acc + b.prog.push(op), depth) == StackRun::Finished(depth + 1));
            lemma_sum_rest_stack(t, b.end, level, acc + b.prog.push(op), depth);
        }
    }
}

/// Every formula program runs on a stack of numbers without ever finding too few: it stops
/// at a `Fail` step, or ends with exactly one number, the formula's value.
pub proof fn law_programs_are_balanced(t: Seq<TokenView>)
    ensures
        stack_run(program_of_tokens(t), 0) == StackRun::Stopped
            || stack_run(program_of_tokens(t), 0) == StackRun::Finished(1),
{
    if t.len() > 0 {
        lemma_parse_stack(t, 0, 0, 0);
        let p = parse_sum(t, 0, 0);
        lemma_run_push(p.prog, StepView::Fail, 0);
    }
}

/// The step that an operator token applies to the two operands before it.
pub open spec fn applies(tok: TokenView, s: StepView) -> bool {
    match tok {
        TokenView::Plus => s is Add,
        TokenView::Minus => s is Subtract,
        TokenView::Star => s is Multiply,
        TokenView::Slash => s is Divide,
        _ => false,
    }
}

/// `*` or `/`.
pub open spec fn is_product_op(tok: TokenView) -> bool {
    tok is Star || tok is Slash
}

/// `+` or `-`.
pub open spec fn is_sum_op_token(tok: TokenView) -> bool {
    tok is Plus || tok is Minus
}

/// The tokens `a op1 b op2 c` with three numbers.
pub open spec fn three_numbers(a: Seq<char>, op1: TokenView, b: Seq<char>, op2: TokenView, c: Seq<char>) -> Seq<TokenView> {
    seq![TokenView::Number(a), op1, TokenView::Number(b), op2, TokenView::Number(c)]
}

proof fn lemma_number_factor(t: Seq<TokenView>, i: int, depth: int)
    requires
        0 <= i < t.len(),
        t[i] is Number,
    ensures
        parse_factor(t, i, depth) == (Parsed { prog: seq![StepView::Push(t[i]->Number_0)], end: i + 1, failed: false }),
{
    assert(!(t[i] is Minus) && !(t[i] is Plus));
    assert(parse_atom(t, i, depth) == (Parsed { prog: seq![StepView::Push(t[i]->Number_0)], end: i + 1, failed: false }));
}

/// Operators of one level are applied from left to right: `a op1 b op2 c`, both operators
/// `*` or `/` (or both `+` or `-`), runs as `(a op1 b) op2 c`: the program pushes `a` and
/// `b`, applies `op1`, pushes `c` and applies `op2`. So `6/2*3` is 9 and `8/4/2` is 1.
pub proof fn law_same_level_operators_associate_left(a: Seq<char>, op1: TokenView, b: Seq<char>, op2: TokenView,
    c: Seq<char>)
    requires
        (is_product_op(op1) && is_product_op(op2)) || (is_sum_op_token(op1) && is_sum_op_token(op2)),
    ensures
        ({
            let p = program_of_tokens(three_numbers(a, op1, b, op2, c));
            &&& p.len() == 5
            &&& p[0] == StepView::Push(a)
            &&& p[1] == StepView::Push(b)
            &&& applies(op1, p[2])
            &&& p[3] == StepView::Push(c)
            &&& applies(op2, p[4])
        }),
{
    let t = three_numbers(a, op1, b, op2, c);
    lemma_number_factor(t, 0, 0);
    lemma_number_factor(t, 2, 0);
    lemma_number_factor(t, 4, 0);
    let pa = seq![StepView::Push(a)];
    let pb = seq![StepView::Push(b)];
    let pc = seq![StepView::Push(c)];
    if is_product_op(op1) {
        let o1 = if op1 is Star { StepView::Multiply } else { StepView::Divide(reported_at(t, 3, 0)) };
        let o2 = if op2 is Star { StepView::Multiply } else { StepView::Divide(reported_at(t, 5, 0)) };
        assert(term_rest(t, 5, 0, pa + pb.push(o1) + pc.push(o2)) == (Parsed { prog: pa + pb.push(o1) + pc.push(o2), end: 5, failed: false }));
        assert(term_rest(t, 3, 0, pa + pb.push(o1)) == term_rest(t, 5, 0, pa + pb.push(o1) + pc.push(o2)));
        assert(parse_term(t, 0, 0) == term_rest(t, 1, 0, pa));
        assert(sum_rest(t, 5, 0, pa + pb.push(o1) + pc.push(o2)).prog == pa + pb.push(o1) + pc.push(o2));
        assert(pa + pb.push(o1) + pc.push(o2) =~= seq![StepView::Push(a), StepView::Push(b), o1, StepView::Push(c), o2]);
    } else {
        let o1 = if op1 is Plus { StepView::Add } else { StepView::Subtract };
        let o2 = if op2 is Plus { StepView::Add } else { StepView::Subtract };
        assert(parse_term(t, 0, 0) == (Parsed { prog: pa, end: 1, failed: false }));
        assert(parse_term(t, 2, 0) == (Parsed { prog: pb, end: 3, failed: false }));
        assert(parse_term(t, 4, 0) == (Parsed { prog: pc, end: 5, failed: false }));
        assert(sum_rest(t, 5, 0, pa + pb.push(o1) + pc.push(o2)) == (Parsed { prog: pa + pb.push(o1) + pc.push(o2), end: 5, failed: false }));
        assert(sum_rest(t, 3, 0, pa + pb.push(o1)) == sum_rest(t, 5, 0, pa + pb.push(o1) + pc.push(o2)));
        assert(pa + pb.push(o1) + pc.push(o2) =~= seq![StepView::Push(a), StepView::Push(b), o1, StepView::Push(c), o2]);
    }
}

/// `*` and `/` bind tighter than `+` and `-`, on either side: `a + b * c` runs as
/// `a + (b * c)` (push `a`, `b`, `c`, apply `op2`, then `op1`), and `a * b + c` as
/// `(a * b) + c` (push `a`, `b`, apply `op1`, push `c`, apply `op2`).
pub proof fn law_products_bind_tighter(a: Seq<char>, op1: TokenView, b: Seq<char>, op2: TokenView, c: Seq<char>)
    requires
        (is_sum_op_token(op1) && is_product_op(op2)) || (is_product_op(op1) && is_sum_op_token(op2)),
    ensures
        ({
            let p = program_of_tokens(three_numbers(a, op1, b, op2, c));
            &&& p.len() == 5
            &&& p[0] == StepView::Push(a)
            &&& p[1] == StepView::Push(b)
            &&& is_sum_op_token(op1) ==> p[2] == StepView::Push(c) && applies(op2, p[3]) && applies(op1, p[4])
            &&& is_product_op(op1) ==> applies(op1, p[2]) && p[3] == StepView::Push(c) && applies(op2, p[4])
        }),
{
    let t = three_numbers(a, op1, b, op2, c);
    lemma_number_factor(t, 0, 0);
    lemma_number_factor(t, 2, 0);
    lemma_number_factor(t, 4, 0);
    let pa = seq![StepView::Push(a)];
    let pb = seq![StepView::Push(b)];
    let pc = seq![StepView::Push(c)];
    if is_sum_op_token(op1) {
        let o1 = if op1 is Plus { StepView::Add } else { StepView::Subtract };
        let o2 = if op2 is Star { StepView::Multiply } else { StepView::Divide(reported_at(t, 5, 0)) };
        assert(parse_term(t, 0, 0) == (Parsed { prog: pa, end: 1, failed: false }));
        assert(term_rest(t, 5, 0, pb + pc.push(o2)) == (Parsed { prog: pb + pc.push(o2), end: 5, failed: false }));
        assert(parse_term(t, 2, 0) == term_rest(t, 3, 0, pb));
        assert(parse_term(t, 2, 0) == (Parsed { prog: pb + pc.push(o2), end: 5, failed: false }));
        assert(sum_rest(t, 5, 0, pa + (pb + pc.push(o2)).push(o1)).prog == pa + (pb + pc.push(o2)).push(o1));
        assert(pa + (pb + pc.push(o2)).push(o1) =~= seq![StepView::Push(a), StepView::Push(b), StepView::Push(c), o2, o1]);
    } else {
        let o1 = if op1 is Star { StepView::Multiply } else { StepView::Divide(reported_at(t, 3, 0)) };
        let o2 = if op2 is Plus { StepView::Add } else { StepView::Subtract };
        assert(term_rest(t, 3, 0, pa + pb.push(o1)) == (Parsed { prog: pa + pb.push(o1), end: 3, failed: false }));
        assert(parse_term(t, 0, 0) == term_rest(t, 1, 0, pa));
        assert(parse_term(t, 0, 0) == (Parsed { prog: pa + pb.push(o1), end: 3, failed: false }));
        assert(parse_term(t, 4, 0) == (Parsed { prog: pc, end: 5, failed: false }));
        assert(sum_rest(t, 5, 0, pa + pb.push(o1) + pc.push(o2)).prog == pa + pb.push(o1) + pc.push(o2));
        assert(pa + pb.push(o1) + pc.push(o2) =~= seq![StepView::Push(a), StepView::Push(b), o1, StepView::Push(c), o2]);
    }
}

/// Brackets group first: `a op1 (b op2 c)`, with numbers and any two operators, pushes `a`,
/// `b` and `c`, applies `op2` and then `op1`, so `8/(4/2)` is 4 and `6-(2-1)` is 5.
pub proof fn law_brackets_group_first(a: Seq<char>, op1: TokenView, b: Seq<char>, op2: TokenView, c: Seq<char>)
    requires
        is_product_op(op1) || is_sum_op_token(op1),
        is_product_op(op2) || is_sum_op_token(op2),
    ensures
        ({
            let t = seq![TokenView::Number(a), op1, TokenView::LParen, TokenView::Number(b), op2,
                TokenView::Number(c), TokenView::RParen];
            let p = program_of_tokens(t);
            &&& p.len() == 5
            &&& p[0] == StepView::Push(a)
            &&& p[1] == StepView::Push(b)
            &&& p[2] == StepView::Push(c)
            &&& applies(op2, p[3])
            &&& applies(op1, p[4])
        }),
{
    let t = seq![TokenView::Number(a), op1, TokenView::LParen, TokenView::Number(b), op2,
        TokenView::Number(c), TokenView::RParen];
    lemma_number_factor(t, 0, 0);
    lemma_number_factor(t, 3, 1);
    lemma_number_factor(t, 5, 1);
    let pa = seq![StepView::Push(a)];
    let pb = seq![StepView::Push(b)];
    let pc = seq![StepView::Push(c)];
    // The bracketed sum.
    let inner = if is_product_op(op2) {
        let o2 = if op2 is Star { StepView::Multiply } else { StepView::Divide(reported_at(t, 6, 1)) };
        assert(term_rest(t, 6, 1, pb + pc.push(o2)) == (Parsed { prog: pb + pc.push(o2), end: 6, failed: false }));
        assert(parse_term(t, 3, 1) == term_rest(t, 4, 1, pb));
        assert(parse_term(t, 3, 1) == (Parsed { prog: pb + pc.push(o2), end: 6, failed: false }));
        assert(parse_sum(t, 3, 1) == (Parsed { prog: pb + pc.push(o2), end: 6, failed: false }));
        pb + pc.push(o2)
    } else {
        let o2 = if op2 is Plus { StepView::Add } else { StepView::Subtract };
        assert(parse_term(t, 3, 1) == (Parsed { prog: pb, end: 4, failed: false }));
        assert(parse_term(t, 5, 1) == (Parsed { prog: pc, end: 6, failed: false }));
        assert(sum_rest(t, 6, 1, pb + pc.push(o2)) == (Parsed { prog: pb + pc.push(o2), end: 6, failed: false }));
        assert(parse_sum(t, 3, 1) == sum_rest(t, 4, 1, pb));
        assert(parse_sum(t, 3, 1) == (Parsed { prog: pb + pc.push(o2), end: 6, failed: false }));
        pb + pc.push(o2)
    };
    assert(parse_atom(t, 2, 0) == (Parsed { prog: inner, end: 7, failed: false }));
    assert(parse_factor(t, 2, 0) == (Parsed { prog: inner, end: 7, failed: false }));
    if is_product_op(op1) {
        let o1 = if op1 is Star { StepView::Multiply } else { StepView::Divide(reported_at(t, 7, 0)) };
        assert(term_rest(t, 7, 0, pa + inner.push(o1)) == (Parsed { prog: pa + inner.push(o1), end: 7, failed: false }));
        assert(parse_term(t, 0, 0) == term_rest(t, 1, 0, pa));
        assert(parse_term(t, 0, 0) == (Parsed { prog: pa + inner.push(o1), end: 7, failed: false }));
        assert(sum_rest(t, 7, 0, pa + inner.push(o1)).prog == pa + inner.push(o1));
        assert(pa + inner.push(o1) =~= seq![StepView::Push(a), StepView::Push(b), StepView::Push(c), inner[2], o1]);
    } else {
        let o1 = if op1 is Plus { StepView::Add } else { StepView::Subtract };
        assert(parse_term(t, 0, 0) == (Parsed { prog: pa, end: 1, failed: false }));
        assert(term_rest(t, 7, 0, inner) == (Parsed { prog: inner, end: 7, failed: false }));
        assert(parse_term(t, 2, 0) == (Parsed { prog: inner, end: 7, failed: false }));
        assert(sum_rest(t, 7, 0, pa + inner.push(o1)) == (Parsed { prog: pa + inner.push(o1), end: 7, failed: false }));
        assert(sum_rest(t, 1, 0, pa) == sum_rest(t, 7, 0, pa + inner.push(o1)));
        assert(pa + inner.push(o1) =~= seq![StepView::Push(a), StepView::Push(b), StepView::Push(c), inner[2], o1]);
    }
}

/// A leading minus negates the operand it stands before, before a product or quotient is
/// taken: `-a op b`, `op` being `*` or `/`, pushes `a`, negates it, pushes `b`, applies `op`.
pub proof fn law_unary_minus_binds_tightest(a: Seq<char>, op: TokenView, b: Seq<char>)
    requires
        is_product_op(op),
    ensures
        ({
            let p = program_of_tokens(seq![TokenView::Minus, TokenView::Number(a), op, TokenView::Number(b)]);
            &&& p.len() == 4
            &&& p[0] == StepView::Push(a)
            &&& p[1] == StepView::Negate
            &&& p[2] == StepView::Push(b)
            &&& applies(op, p[3])
        }),
{
    let t = seq![TokenView::Minus, TokenView::Number(a), op, TokenView::Number(b)];
    lemma_number_factor(t, 1, 0);
    lemma_number_factor(t, 3, 0);
    let na = seq![StepView::Push(a)].push(StepView::Negate);
    let pb = seq![StepView::Push(b)];
    assert(parse_factor(t, 0, 0) == (Parsed { prog: na, end: 2, failed: false }));
    let o = if op is Star { StepView::Multiply } else { StepView::Divide(reported_at(t, 4, 0)) };
    assert(term_rest(t, 4, 0, na + pb.push(o)) == (Parsed { prog: na + pb.push(o), end: 4, failed: false }));
    assert(parse_term(t, 0, 0) == term_rest(t, 2, 0, na));
    assert(parse_term(t, 0, 0) == (Parsed { prog: na + pb.push(o), end: 4, failed: false }));
    assert(sum_rest(t, 4, 0, na + pb.push(o)).prog == na + pb.push(o));
    assert(na + pb.push(o) =~= seq![StepView::Push(a), StepView::Negate, StepView::Push(b), o]);
}

// ---------------------------------------------------------------------------
// The parser
// ---------------------------------------------------------------------------

proof fn lemma_program_push(p: Seq<Step>, s: Step)
    ensures
        program_view(p.push(s)) == program_view(p).push(s@),
{
    assert(program_view(p.push(s)) =~= program_view(p).push(s@));
}

/// Whether an error raised at token `q`, inside `depth` brackets, is reported as itself.
fn reported(tokens: &Vec<Token>, q: usize, depth: usize) -> (b: bool)
    requires
        q <= tokens.len(),
    ensures
        b == reported_at(tokens_view(tokens@), q as int, depth as int),
{
    let ghost t = tokens_view(tokens@);
    if tokens.len() - q != depth {
        return false;
    }
    let mut m = q;
    while m < tokens.len()
        invariant
            q <= m <= tokens.len(),
            t == tokens_view(tokens@),
            forall|k: int| q <= k < m ==> #[trigger] t[k] is RParen,
        decreases tokens.len() - m,
    {
        match &tokens[m] {
            Token::RParen => {},
            _ => {
                proof {
                    assert(!(t[m as int] is RParen));
                }
                return false;
            },
        }
        m = m + 1;
    }
    true
}

fn is_sum_op(t: &Token) -> (b: bool)
    ensures
        b == (t@ is Plus || t@ is Minus),
{
    match t {
        Token::Plus => true,
        Token::Minus => true,
        _ => false,
    }
}

fn is_term_op(t: &Token) -> (b: bool)
    ensures
        b == (t@ is Star || t@ is Slash),
{
    match t {
        Token::Star => true,
        Token::Slash => true,
        _ => false,
    }
}

/// Appends the steps of the sum starting at token `i`; returns where it stopped and whether
/// it met a syntax error.
fn sum_steps(tokens: &Vec<Token>, i: usize, depth: usize, prog: &mut Vec<Step>) -> (r: (usize, bool))
    requires
        i <= tokens.len(),
        depth <= i,
    ensures
        ({
            let p = parse_sum(tokens_view(tokens@), i as int, depth as int);
            &&& program_view(final(prog)@) == program_view(old(prog)@) + p.prog
            &&& r.0 == p.end
            &&& r.1 == p.failed
        }),
    decreases tokens.len() - i, 5int,
{
    let ghost t = tokens_view(tokens@);
    let ghost base = program_view(prog@);
    proof {
        lemma_parse_range(t, i as int, depth as int);
    }
    let (a_end, a_failed) = term_steps(tokens, i, depth, prog);
    if a_failed {
        return (a_end, true);
    }
    let ghost target = parse_sum(t, i as int, depth as int);
    let ghost mut acc = parse_term(t, i as int, depth as int).prog;
    let mut j = a_end;
    while j < tokens.len() && is_sum_op(&tokens[j])
        invariant
            t == tokens_view(tokens@),
            i < j <= tokens.len(),
            depth <= i,
            program_view(prog@) == base + acc,
            base == program_view(old(prog)@),
            target == parse_sum(t, i as int, depth as int),
            sum_rest(t, j as int, depth as int, acc) == target,
        decreases tokens.len() - j,
    {
        let is_plus = match &tokens[j] { Token::Plus => true, _ => false };
        proof {
            assert(t[j as int] == tokens@[j as int]@);
            lemma_parse_range(t, j + 1, depth as int);
        }
        let (b_end, b_failed) = term_steps(tokens, j + 1, depth, prog);
        if b_failed {
            proof {
                assert(base + acc + parse_term(t, j + 1, depth as int).prog == base + (acc + parse_term(t, j + 1, depth as int).prog));
            }
            return (b_end, true);
        }
        let op = if is_plus { Step::Add } else { Step::Subtract };
        proof {
            lemma_program_push(prog@, op);
            let bp = parse_term(t, j + 1, depth as int).prog;
            assert(base + acc + bp + seq![op@] == base + (acc + bp.push(op@)));
            acc = acc + bp.push(op@);
        }
        prog.push(op);
        j = b_end;
    }
    (j, false)
}

/// Appends the steps of the term starting at token `i`.
fn term_steps(tokens: &Vec<Token>, i: usize, depth: usize, prog: &mut Vec<Step>) -> (r: (usize, bool))
    requires
        i <= tokens.len(),
        depth <= i,
    ensures
        ({
            let p = parse_term(tokens_view(tokens@), i as int, depth as int);
            &&& program_view(final(prog)@) == program_view(old(prog)@) + p.prog
            &&& r.0 == p.end
            &&& r.1 == p.failed
        }),
    decreases tokens.len() - i, 3int,
{
    let ghost t = tokens_view(tokens@);
    let ghost base = program_view(prog@);
    proof {
        lemma_parse_range(t, i as int, depth as int);
    }
    let (a_end, a_failed) = factor_steps(tokens, i, depth, prog);
    if a_failed {
        return (a_end, true);
    }
    let ghost target = parse_term(t, i as int, depth as int);
    let ghost mut acc = parse_factor(t, i as int, depth as int).prog;
    let mut j = a_end;
    while j < tokens.len() && is_term_op(&tokens[j])
        invariant
            t == tokens_view(tokens@),
            i < j <= tokens.len(),
            depth <= i,
            program_view(prog@) == base + acc,
            base == program_view(old(prog)@),
            target == parse_term(t, i as int, depth as int),
            term_rest(t, j as int, depth as int, acc) == target,
        decreases tokens.len() - j,
    {
        let is_star = match &tokens[j] { Token::Star => true, _ => false };
        proof {
            assert(t[j as int] == tokens@[j as int]@);
            lemma_parse_range(t, j + 1, depth as int);
        }
        let (b_end, b_failed) = factor_steps(tokens, j + 1, depth, prog);
        if b_failed {
            proof {
                assert(base + acc + parse_factor(t, j + 1, depth as int).prog == base + (acc + parse_factor(t, j + 1, depth as int).prog));
            }
            return (b_end, true);
        }
        let op = if is_star { Step::Multiply } else { Step::Divide(reported(tokens, b_end, depth)) };
        proof {
            lemma_program_push(prog@, op);
            let bp = parse_factor(t, j + 1, depth as int).prog;
            assert(base + acc + bp + seq![op@] == base + (acc + bp.push(op@)));
            acc = acc + bp.push(op@);
        }
        prog.push(op);
        j = b_end;
    }
    (j, false)
}

/// Appends the steps of the factor starting at token `i`.
fn factor_steps(tokens: &Vec<Token>, i: usize, depth: usize, prog: &mut Vec<Step>) -> (r: (usize, bool))
    requires
        i <= tokens.len(),
        depth <= i,
    ensures
        ({
            let p = parse_factor(tokens_view(tokens@), i as int, depth as int);
            &&& program_view(final(prog)@) == program_view(old(prog)@) + p.prog
            &&& r.0 == p.end
            &&& r.1 == p.failed
        }),
    decreases tokens.len() - i, 2int,
{
    let ghost t = tokens_view(tokens@);
    if i >= tokens.len() {
        proof {
            lemma_program_push(prog@, Step::Fail);
        }
        prog.push(Step::Fail);
        return (i, true);
    }
    match &tokens[i] {
        Token::Minus => {
            let (e, f) = factor_steps(tokens, i + 1, depth, prog);
            if f {
                return (e, true);
            }
            proof {
                lemma_program_push(prog@, Step::Negate);
            }
            prog.push(Step::Negate);
            (e, false)
        },
        Token::Plus => factor_steps(tokens, i + 1, depth, prog),
        _ => atom_steps(tokens, i, depth, prog),
    }
}

fn is_token_lparen(t: &Token) -> (b: bool)
    ensures
        b == t@ is LParen,
{
    match t {
        Token::LParen => true,
        _ => false,
    }
}

fn is_token_rparen(t: &Token) -> (b: bool)
    ensures
        b == t@ is RParen,
{
    match t {
        Token::RParen => true,
        _ => false,
    }
}

fn is_token_comma(t: &Token) -> (b: bool)
    ensures
        b == t@ is Comma,
{
    match t {
        Token::Comma => true,
        _ => false,
    }
}

/// Appends the steps of the call of `name`, the function name at token `i`.
fn call_steps(tokens: &Vec<Token>, i: usize, depth: usize, name: &String, prog: &mut Vec<Step>) -> (r: (usize, bool))
    requires
        i < tokens.len(),
        depth <= i,
        tokens@[i as int]@ == TokenView::Name(name@),
    ensures
        ({
            let p = parse_atom(tokens_view(tokens@), i as int, depth as int);
            &&& program_view(final(prog)@) == program_view(old(prog)@) + p.prog
            &&& r.0 == p.end
            &&& r.1 == p.failed
        }),
    decreases tokens.len() - i, 0int,
{
    let ghost t = tokens_view(tokens@);
    let ghost base = program_view(prog@);
    proof {
        assert(t[i as int] == TokenView::Name(name@));
    }
    if !(i + 1 < tokens.len() && is_token_lparen(&tokens[i + 1])) {
        proof {
            assert(i + 1 < tokens.len() ==> t[i + 1] == tokens@[i + 1]@);
            lemma_program_push(prog@, Step::Fail);
        }
        prog.push(Step::Fail);
        return (i + 1, true);
    }
    proof {
        assert(t[i + 1] == tokens@[i + 1]@);
    }
    if i + 2 < tokens.len() && is_token_rparen(&tokens[i + 2]) {
        let st = Step::Call(name.clone(), 0, reported(tokens, i + 3, depth));
        proof {
            assert(t[i + 2] == tokens@[i + 2]@);
            lemma_program_push(prog@, st);
        }
        prog.push(st);
        return (i + 3, false);
    }
    proof {
        assert(i + 2 < tokens.len() ==> t[i + 2] == tokens@[i + 2]@);
    }
    let ghost target = parse_atom(t, i as int, depth as int);
    let ghost mut acc = Seq::<StepView>::empty();
    let mut j = i + 2;
    let mut n: usize = 0;
    proof {
        assert(base + acc == base);
    }
    loop
        invariant
            t == tokens_view(tokens@),
            i + 2 <= j <= tokens.len(),
            depth <= i,
            n <= j,
            program_view(prog@) == base + acc,
            base == program_view(old(prog)@),
            target == parse_atom(t, i as int, depth as int),
            args_rest(t, j as int, depth as int, name@, acc, n as nat) == target,
        decreases tokens.len() - j,
    {
        proof {
            lemma_parse_range(t, j as int, depth + 1);
        }
        let ghost a = parse_sum(t, j as int, depth + 1);
        let (e, f) = sum_steps(tokens, j, depth + 1, prog);
        if f {
            proof {
                assert(base + acc + a.prog == base + (acc + a.prog));
            }
            return (e, true);
        }
        if e < tokens.len() && is_token_comma(&tokens[e]) {
            proof {
                assert(t[e as int] == tokens@[e as int]@);
                assert(base + acc + a.prog == base + (acc + a.prog));
                acc = acc + a.prog;
            }
            j = e + 1;
            n = n + 1;
        } else if e < tokens.len() && is_token_rparen(&tokens[e]) {
            let st = Step::Call(name.clone(), n + 1, reported(tokens, e + 1, depth));
            proof {
                assert(t[e as int] == tokens@[e as int]@);
                lemma_program_push(prog@, st);
                assert(base + acc + a.prog + seq![st@] == base + (acc + a.prog.push(st@)));
            }
            prog.push(st);
            return (e + 1, false);
        } else {
            proof {
                assert(e < tokens.len() ==> t[e as int] == tokens@[e as int]@);
                lemma_program_push(prog@, Step::Fail);
                assert(base + acc + a.prog + seq![StepView::Fail] == base + (acc + a.prog.push(StepView::Fail)));
            }
            prog.push(Step::Fail);
            return (e, true);
        }
    }
}

/// Appends the steps of the atom at token `i`.
fn atom_steps(tokens: &Vec<Token>, i: usize, depth: usize, prog: &mut Vec<Step>) -> (r: (usize, bool))
    requires
        i <= tokens.len(),
        depth <= i,
    ensures
        ({
            let p = parse_atom(tokens_view(tokens@), i as int, depth as int);
            &&& program_view(final(prog)@) == program_view(old(prog)@) + p.prog
            &&& r.0 == p.end
            &&& r.1 == p.failed
        }),
    decreases tokens.len() - i, 1int,
{
    let ghost t = tokens_view(tokens@);
    if i >= tokens.len() {
        proof {
            lemma_program_push(prog@, Step::Fail);
        }
        prog.push(Step::Fail);
        return (i, true);
    }
    match &tokens[i] {
        Token::Number(text) => {
            let st = Step::Push(text.clone());
            proof {
                lemma_program_push(prog@, st);
            }
            prog.push(st);
            (i + 1, false)
        },
        Token::CellRef(r, c) => {
            let st = Step::Load(*r, *c, reported(tokens, i + 1, depth));
            proof {
                lemma_program_push(prog@, st);
            }
            prog.push(st);
            (i + 1, false)
        },
        Token::Name(name) => call_steps(tokens, i, depth, name, prog),
        Token::LParen => {
            proof {
                lemma_parse_range(t, i + 1, depth + 1);
            }
            let (e, f) = sum_steps(tokens, i + 1, depth + 1, prog);
            if f {
                return (e, true);
            }
            if e < tokens.len() && (match &tokens[e] { Token::RParen => true, _ => false }) {
                (e + 1, false)
            } else {
                proof {
                    lemma_program_push(prog@, Step::Fail);
                }
                prog.push(Step::Fail);
                (e, true)
            }
        },
        _ => {
            proof {
                lemma_program_push(prog@, Step::Fail);
            }
            prog.push(Step::Fail);
            (i, true)
        },
    }
}

/// The program of a token list.
pub fn compile_tokens(tokens: &Vec<Token>) -> (prog: Vec<Step>)
    ensures
        program_view(prog@) == program_of_tokens(tokens_view(tokens@)),
{
    let mut prog: Vec<Step> = Vec::new();
    proof {
        assert(program_view(prog@) == Seq::<StepView>::empty());
    }
    if tokens.len() == 0 {
        proof {
            lemma_program_push(prog@, Step::Fail);
        }
        prog.push(Step::Fail);
        return prog;
    }
    let (e, f) = sum_steps(tokens, 0, 0, &mut prog);
    proof {
        let p = parse_sum(tokens_view(tokens@), 0, 0);
        assert(Seq::<StepView>::empty() + p.prog == p.prog);
    }
    if !f && e < tokens.len() {
        proof {
            lemma_program_push(prog@, Step::Fail);
        }
        prog.push(Step::Fail);
    }
    prog
}

/// The program of the formula text `text`, or the error its tokens give.
pub fn compile(text: &Vec<char>) -> (r: Result<Vec<Step>, CellError>)
    requires
        !lex_overflows(text@, 0),
    ensures
        match r {
            Ok(p) => program_of(text@) == Ok::<Seq<StepView>, CellError>(program_view(p@)),
            Err(e) => program_of(text@) == Err::<Seq<StepView>, CellError>(e),
        },
{
    match tokenize(text) {
        Ok(tokens) => Ok(compile_tokens(&tokens)),
        Err(e) => Err(e),
    }
}

// ---------------------------------------------------------------------------
// Cell text
// ---------------------------------------------------------------------------

/// The formula of a cell's raw text: what follows `=` when the text, trimmed, starts with `=`.
pub open spec fn formula_body(raw: Seq<char>) -> Option<Seq<char>> {
    let t = trimmed(raw);
    if t.len() > 0 && t[0] == '=' { Some(t.subrange(1, t.len() as int)) } else { None }
}

/// The raw text can be read without a column number overflowing: it is no formula, or its
/// formula's column letters all fit in `usize`.
pub open spec fn text_fits(raw: Seq<char>) -> bool {
    match formula_body(raw) {
        Some(b) => !lex_overflows(b, 0),
        None => true,
    }
}

/// The cells, inside a sheet of `rows` × `cols`, that the tokens `ts` refer to.
pub open spec fn refs_in(ts: Seq<TokenView>, rows: nat, cols: nat) -> Set<(usize, usize)> {
    Set::new(|p: (usize, usize)| (p.0 as nat) < rows && (p.1 as nat) < cols
        && exists|i: int| 0 <= i < ts.len() && ts[i] == TokenView::CellRef(p.0, p.1))
}

/// The cells inside the sheet that a formula refers to; none when it does not lex.
pub open spec fn formula_refs(body: Seq<char>, rows: nat, cols: nat) -> Set<(usize, usize)> {
    match tokens_of(body) {
        Ok(ts) => refs_in(ts, rows, cols),
        Err(_) => Set::empty(),
    }
}

/// The cells inside the sheet that a cell's raw text refers to; none when it is no formula.
pub open spec fn cell_refs(raw: Seq<char>, rows: nat, cols: nat) -> Set<(usize, usize)> {
    match formula_body(raw) {
        Some(b) => formula_refs(b, rows, cols),
        None => Set::empty(),
    }
}

/// The formula of a cell's raw text, if it is one.
pub fn formula_text(raw: &str) -> (r: Option<Vec<char>>)
    ensures
        match r {
            Some(b) => formula_body(raw@) == Some(b@),
            None => formula_body(raw@) is None,
        },
{
    let all = chars_of(raw);
    let t = trim_chars(&all);
    if t.len() > 0 && t[0] == '=' {
        let mut b: Vec<char> = Vec::new();
        let mut i: usize = 1;
        while i < t.len()
            invariant
                1 <= i <= t.len(),
                b@ == t@.subrange(1, i as int),
            decreases t.len() - i,
        {
            b.push(t[i]);
            i = i + 1;
        }
        Some(b)
    } else {
        None
    }
}

/// How a cell's raw text reads before any evaluation.
pub enum RawText {
    /// A formula: the text, trimmed, starts with `=`.
    Formula,
    /// Nothing but white space.
    Blank,
    /// Any other text, trimmed.
    Literal(String),
}

/// How the raw text `raw` reads: a formula, blank, or a literal (given trimmed).
pub fn classify_raw(raw: &str) -> (k: RawText)
    ensures
        match k {
            RawText::Formula => formula_body(raw@) is Some,
            RawText::Blank => trimmed(raw@).len() == 0,
            RawText::Literal(t) => t@ == trimmed(raw@) && t@.len() > 0 && formula_body(raw@) is None,
        },
{
    let all = chars_of(raw);
    let t = trim_chars(&all);
    if t.len() == 0 {
        RawText::Blank
    } else if t[0] == '=' {
        RawText::Formula
    } else {
        RawText::Literal(string_of(&t))
    }
}

/// Whether the raw text of a cell can be read without a column number overflowing.
pub fn text_fits_exec(raw: &str) -> (b: bool)
    ensures
        b == text_fits(raw@),
{
    match formula_text(raw) {
        Some(body) => !column_overflows(&body),
        None => true,
    }
}

fn has_pair(v: &Vec<(usize, usize)>, r: usize, c: usize) -> (b: bool)
    ensures
        b == v@.contains((r, c)),
{
    let mut i: usize = 0;
    while i < v.len()
        invariant
            i <= v.len(),
            forall|k: int| 0 <= k < i ==> v@[k] != (r, c),
        decreases v.len() - i,
    {
        let (a, d) = v[i];
        if a == r && d == c {
            proof {
                assert(v@[i as int] == (r, c));
            }
            return true;
        }
        i = i + 1;
    }
    false
}

/// The cells inside a sheet of `rows` × `cols` that the formula `body` refers to, each once.
pub fn extract_references(body: &Vec<char>, rows: usize, cols: usize) -> (refs: Vec<(usize, usize)>)
    requires
        !lex_overflows(body@, 0),
    ensures
        refs@.no_duplicates(),
        forall|p: (usize, usize)| #[trigger] refs@.contains(p) <==> formula_refs(body@, rows as nat, cols as nat).contains(p),
{
    let mut refs: Vec<(usize, usize)> = Vec::new();
    match tokenize(body) {
        Ok(tokens) => {
            let ghost ts = tokens_view(tokens@);
            let mut i: usize = 0;
            while i < tokens.len()
                invariant
                    ts == tokens_view(tokens@),
                    tokens_of(body@) == Ok::<Seq<TokenView>, CellError>(ts),
                    i <= tokens.len(),
                    refs@.no_duplicates(),
                    forall|p: (usize, usize)| #[trigger] refs@.contains(p) <==> ((p.0 as nat) < rows && (p.1 as nat) < cols
                        && exists|k: int| 0 <= k < i && ts[k] == TokenView::CellRef(p.0, p.1)),
                decreases tokens.len() - i,
            {
                proof {
                    assert(ts[i as int] == tokens@[i as int]@);
                }
                match &tokens[i] {
                    Token::CellRef(r, c) => {
                        let (r, c) = (*r, *c);
                        if r < rows && c < cols && !has_pair(&refs, r, c) {
                            proof {
                                crate::graph::lemma_push_contains(refs@, (r, c));
                            }
                            refs.push((r, c));
                        }
                    },
                    _ => {},
                }
                i = i + 1;
                proof {
                    assert forall|p: (usize, usize)| #[trigger] refs@.contains(p) <==> ((p.0 as nat) < rows && (p.1 as nat) < cols
                        && exists|k: int| 0 <= k < i && ts[k] == TokenView::CellRef(p.0, p.1)) by {
                        if (p.0 as nat) < rows && (p.1 as nat) < cols && ts[i - 1] == TokenView::CellRef(p.0, p.1) {
                            assert(refs@.contains(p));
                        }
                        if exists|k: int| 0 <= k < i && ts[k] == TokenView::CellRef(p.0, p.1) {
                            let k = choose|k: int| 0 <= k < i && ts[k] == TokenView::CellRef(p.0, p.1);
                            if k < i - 1 {
                                assert(exists|k2: int| 0 <= k2 < i - 1 && ts[k2] == TokenView::CellRef(p.0, p.1));
                            }
                        }
                    }
                }
            }
        },
        Err(_) => {},
    }
    refs
}

} // verus!
