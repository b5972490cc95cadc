//! Evaluation, as the steps that a stack of values goes through.
//!
//! The values are numbers of a fixed precision that an arithmetic library
//! computes. The tree decides which operations are applied, in which order and
//! to which operands, and when evaluation fails: that is what stands here.
use vstd::prelude::*;
use crate::parse::{Ast, BinaryOperation, UnaryOperation};
use crate::token::{Constant, Function, Span};

verus! {

/// The number of significant bits that every value is rounded to.
pub const PRECISION: u32 = 64;

/// Why an expression has no value.
#[derive(Clone, Copy, Debug, PartialEq, Eq, Structural)]
pub enum EvalError {
    /// The operand of `!` is no whole number from 0 to the largest `u32`.
    FactorialDomain,
    /// The constant has a name and no value.
    UnsupportedConstant(Constant),
}

/// One step of an evaluation, on a stack of values.
#[derive(Clone, Copy, Debug, PartialEq, Eq, Structural)]
pub enum Step {
    /// Push the value of the literal whose digits stand at this place.
    Number(Span),
    /// Push the value of the constant, which [`constant_value`] gives.
    Constant(Constant),
    /// Pop the right operand, then the left one, and push the result.
    Binary(BinaryOperation),
    /// Replace the top by its negation.
    Negate,
    /// Replace the top by the factorial of the whole number that
    /// [`factorial_operand`] finds in it.
    Factorial,
    /// Replace the top by the function's value at it.
    Call(Function),
}

/// The value of a constant.
#[derive(Clone, Copy, Debug, PartialEq, Eq, Structural)]
pub enum Value {
    /// The ratio of a circle's circumference to its diameter.
    Pi,
    /// Positive infinity.
    Infinity,
    /// Not a number.
    Nan,
}

/// The steps that evaluate a tree: the operands of a node from left to right,
/// then the node's own operation. A group and a plus sign add no step.
pub open spec fn steps_of(ast: Ast) -> Seq<Step>
    decreases ast,
{
    match ast {
        Ast::Number(digits) => seq![Step::Number(digits)],
        Ast::Constant(c) => seq![Step::Constant(c)],
        Ast::BinOp(op, l, r) => steps_of(*l) + steps_of(*r) + seq![Step::Binary(op)],
        Ast::UnaryOp(UnaryOperation::Positive, x) => steps_of(*x),
        Ast::UnaryOp(UnaryOperation::Negative, x) => steps_of(*x) + seq![Step::Negate],
        Ast::UnaryOp(UnaryOperation::Fact, x) => steps_of(*x) + seq![Step::Factorial],
        Ast::Function(f, x) => steps_of(*x) + seq![Step::Call(f)],
        Ast::Paren(x) => steps_of(*x),
    }
}

/// How many values a step takes from the stack. Every step puts one back.
pub open spec fn operands(step: Step) -> int {
    match step {
        Step::Number(_) => 0,
        Step::Constant(_) => 0,
        Step::Binary(_) => 2,
        _ => 1,
    }
}

/// The height of the stack after the steps, begun at `height`; `None` where a
/// step finds fewer values than it takes.
pub open spec fn height_after(steps: Seq<Step>, height: int) -> Option<int>
    decreases steps.len(),
{
    if steps.len() == 0 {
        Some(height)
    } else if height < operands(steps[0]) {
        None
    } else {
        height_after(steps.drop_first(), height - operands(steps[0]) + 1)
    }
}

/// Steps in a row: the second row begins at the height that the first left.
pub proof fn lemma_height_after_concat(a: Seq<Step>, b: Seq<Step>, height: int)
    ensures
        height_after(a + b, height) == match height_after(a, height) {
            Some(h) => height_after(b, h),
            None => None,
        },
    decreases a.len(),
{
    if a.len() == 0 {
        assert(a + b =~= b);
    } else {
        assert((a + b).drop_first() =~= a.drop_first() + b);
        assert((a + b)[0] == a[0]);
        if height >= operands(a[0]) {
            lemma_height_after_concat(a.drop_first(), b, height - operands(a[0]) + 1);
        }
    }
}

/// The steps of a tree never find the stack too low, and leave on it the
/// values that were there and one more: the tree's value.
pub proof fn lemma_steps_leave_one_value(ast: Ast, height: int)
    requires
        height >= 0,
    ensures
        height_after(steps_of(ast), height) == Some(height + 1),
    decreases ast,
{
    match ast {
        Ast::Number(digits) => {
            lemma_single_step(Step::Number(digits), height);
        },
        Ast::Constant(c) => {
            lemma_single_step(Step::Constant(c), height);
        },
        Ast::BinOp(op, l, r) => {
            lemma_steps_leave_one_value(*l, height);
            lemma_steps_leave_one_value(*r, height + 1);
            lemma_height_after_concat(steps_of(*l), steps_of(*r), height);
            lemma_single_step(Step::Binary(op), height + 2);
            lemma_height_after_concat(steps_of(*l) + steps_of(*r), seq![Step::Binary(op)], height);
        },
        Ast::UnaryOp(UnaryOperation::Positive, x) => {
            lemma_steps_leave_one_value(*x, height);
        },
        Ast::UnaryOp(UnaryOperation::Negative, x) => {
            lemma_steps_leave_one_value(*x, height);
            lemma_single_step(Step::Negate, height + 1);
            lemma_height_after_concat(steps_of(*x), seq![Step::Negate], height);
        },
        Ast::UnaryOp(UnaryOperation::Fact, x) => {
            lemma_steps_leave_one_value(*x, height);
            lemma_single_step(Step::Factorial, height + 1);
            lemma_height_after_concat(steps_of(*x), seq![Step::Factorial], height);
        },
        Ast::Function(f, x) => {
            lemma_steps_leave_one_value(*x, height);
            lemma_single_step(Step::Call(f), height + 1);
            lemma_height_after_concat(steps_of(*x), seq![Step::Call(f)], height);
        },
        Ast::Paren(x) => {
            lemma_steps_leave_one_value(*x, height);
        },
    }
}

/// One step on a stack that is high enough for it.
pub proof fn lemma_single_step(step: Step, height: int)
    requires
        height >= operands(step),
    ensures
        height_after(seq![step], height) == Some(height - operands(step) + 1),
{
    let s = seq![step];
    assert(s.drop_first().len() == 0);
    assert(height_after(s.drop_first(), height - operands(step) + 1) == Some(
        height - operands(step) + 1,
    ));
}

/// The value of a constant, or the failure that evaluating it is.
pub open spec fn value_of_constant(constant: Constant) -> Result<Value, EvalError> {
    match constant {
        Constant::Pi => Ok(Value::Pi),
        Constant::Inf => Ok(Value::Infinity),
        Constant::Nan => Ok(Value::Nan),
        _ => Err(EvalError::UnsupportedConstant(constant)),
    }
}

/// The whole number that the operand of `!` is, or the failure that it is none.
pub open spec fn whole_operand(nearest: Option<u32>, exact: bool) -> Result<u32, EvalError> {
    match nearest {
        Some(n) => if exact {
            Ok(n)
        } else {
            Err(EvalError::FactorialDomain)
        },
        None => Err(EvalError::FactorialDomain),
    }
}

/// The arithmetic that evaluation rests on: what each operation gives, on
/// values of some kind `V`, each result rounded to the working precision.
#[verifier::reject_recursive_types(V)]
pub struct Arithmetic<V> {
    /// The value of the literal whose digits stand at a place.
    pub literal: spec_fn(Span) -> V,
    pub constant: spec_fn(Value) -> V,
    /// The operation on the left and the right operand, in this order.
    pub binary: spec_fn(BinaryOperation, V, V) -> V,
    pub negate: spec_fn(V) -> V,
    pub call: spec_fn(Function, V) -> V,
    /// The value as a `u32`, rounded to the nearest and held to the range;
    /// `None` for what is not a number.
    pub nearest: spec_fn(V) -> Option<u32>,
    /// Whether the value is the whole number that `nearest` gives.
    pub exact: spec_fn(V) -> bool,
    pub factorial: spec_fn(u32) -> V,
}

/// The value of a tree. The operands of a node are evaluated from left to
/// right, and the first failure is the failure of the whole.
pub open spec fn value_of<V>(ast: Ast, ar: Arithmetic<V>) -> Result<V, EvalError>
    decreases ast,
{
    match ast {
        Ast::Number(digits) => Ok((ar.literal)(digits)),
        Ast::Constant(c) => match value_of_constant(c) {
            Ok(v) => Ok((ar.constant)(v)),
            Err(e) => Err(e),
        },
        Ast::BinOp(op, l, r) => match value_of(*l, ar) {
            Ok(a) => match value_of(*r, ar) {
                Ok(b) => Ok((ar.binary)(op, a, b)),
                Err(e) => Err(e),
            },
            Err(e) => Err(e),
        },
        Ast::UnaryOp(UnaryOperation::Positive, x) => value_of(*x, ar),
        Ast::UnaryOp(UnaryOperation::Negative, x) => match value_of(*x, ar) {
            Ok(a) => Ok((ar.negate)(a)),
            Err(e) => Err(e),
        },
        Ast::UnaryOp(UnaryOperation::Fact, x) => match value_of(*x, ar) {
            Ok(a) => match whole_operand((ar.nearest)(a), (ar.exact)(a)) {
                Ok(n) => Ok((ar.factorial)(n)),
                Err(e) => Err(e),
            },
            Err(e) => Err(e),
        },
        Ast::Function(f, x) => match value_of(*x, ar) {
            Ok(a) => Ok((ar.call)(f, a)),
            Err(e) => Err(e),
        },
        Ast::Paren(x) => value_of(*x, ar),
    }
}

/// The stack after one step, its top at the end; or the failure of the step.
pub open spec fn step_on<V>(step: Step, stack: Seq<V>, ar: Arithmetic<V>) -> Result<
    Seq<V>,
    EvalError,
>
    recommends
        stack.len() >= operands(step),
{
    let n = stack.len() as int;
    match step {
        Step::Number(digits) => Ok(stack.push((ar.literal)(digits))),
        Step::Constant(c) => match value_of_constant(c) {
            Ok(v) => Ok(stack.push((ar.constant)(v))),
            Err(e) => Err(e),
        },
        Step::Binary(op) => Ok(
            stack.subrange(0, n - 2).push((ar.binary)(op, stack[n - 2], stack[n - 1])),
        ),
        Step::Negate => Ok(stack.subrange(0, n - 1).push((ar.negate)(stack[n - 1]))),
        Step::Factorial => match whole_operand((ar.nearest)(stack[n - 1]), (ar.exact)(stack[n - 1])) {
            Ok(k) => Ok(stack.subrange(0, n - 1).push((ar.factorial)(k))),
            Err(e) => Err(e),
        },
        Step::Call(f) => Ok(stack.subrange(0, n - 1).push((ar.call)(f, stack[n - 1]))),
    }
}

/// The stack after the steps, taken one after the other up to the first that
/// fails.
pub open spec fn run<V>(steps: Seq<Step>, stack: Seq<V>, ar: Arithmetic<V>) -> Result<
    Seq<V>,
    EvalError,
>
    decreases steps.len(),
{
    if steps.len() == 0 {
        Ok(stack)
    } else {
        match step_on(steps[0], stack, ar) {
            Ok(next) => run(steps.drop_first(), next, ar),
            Err(e) => Err(e),
        }
    }
}

/// Steps in a row: the second row goes on from the stack that the first left,
/// and is not begun where the first failed.
pub proof fn lemma_run_concat<V>(a: Seq<Step>, b: Seq<Step>, stack: Seq<V>, ar: Arithmetic<V>)
    ensures
        run(a + b, stack, ar) == match run(a, stack, ar) {
            Ok(next) => run(b, next, ar),
            Err(e) => Err(e),
        },
    decreases a.len(),
{
    if a.len() == 0 {
        assert(a + b =~= b);
    } else {
        assert((a + b).drop_first() =~= a.drop_first() + b);
        assert((a + b)[0] == a[0]);
        match step_on(a[0], stack, ar) {
            Ok(next) => {
                lemma_run_concat(a.drop_first(), b, next, ar);
            },
            Err(_) => {},
        }
    }
}

/// A row of one step.
pub proof fn lemma_run_single<V>(step: Step, stack: Seq<V>, ar: Arithmetic<V>)
    ensures
        run(seq![step], stack, ar) == step_on(step, stack, ar),
{
    let s = seq![step];
    assert(s[0] == step);
    assert(s.drop_first().len() == 0);
    match step_on(step, stack, ar) {
        Ok(next) => {
            assert(run(s.drop_first(), next, ar) == Ok::<Seq<V>, EvalError>(next));
        },
        Err(_) => {},
    }
}

/// The steps of a tree, after the operand's steps and one more.
proof fn lemma_run_then<V>(
    before: Seq<Step>,
    step: Step,
    stack: Seq<V>,
    ar: Arithmetic<V>,
)
    ensures
        run(before + seq![step], stack, ar) == match run(before, stack, ar) {
            Ok(next) => step_on(step, next, ar),
            Err(e) => Err(e),
        },
{
    lemma_run_concat(before, seq![step], stack, ar);
    match run(before, stack, ar) {
        Ok(next) => {
            lemma_run_single(step, next, ar);
        },
        Err(_) => {},
    }
}

/// Taking the steps of a tree is evaluating the tree: whatever the arithmetic,
/// the steps put the tree's value on top of the stack and leave the rest of it
/// as it was, or fail with the failure of the tree.
pub proof fn lemma_steps_evaluate<V>(ast: Ast, stack: Seq<V>, ar: Arithmetic<V>)
    ensures
        run(steps_of(ast), stack, ar) == match value_of(ast, ar) {
            Ok(v) => Ok::<Seq<V>, EvalError>(stack.push(v)),
            Err(e) => Err(e),
        },
    decreases ast,
{
    match ast {
        Ast::Number(digits) => {
            lemma_run_single(Step::Number(digits), stack, ar);
        },
        Ast::Constant(c) => {
            lemma_run_single(Step::Constant(c), stack, ar);
        },
        Ast::BinOp(op, l, r) => {
            lemma_steps_evaluate(*l, stack, ar);
            lemma_run_concat(steps_of(*l), steps_of(*r), stack, ar);
            lemma_run_then(steps_of(*l) + steps_of(*r), Step::Binary(op), stack, ar);
            match value_of(*l, ar) {
                Ok(a) => {
                    lemma_steps_evaluate(*r, stack.push(a), ar);
                    match value_of(*r, ar) {
                        Ok(b) => {
                            let full = stack.push(a).push(b);
                            assert(full.subrange(0, full.len() - 2) =~= stack);
                        },
                        Err(_) => {},
                    }
                },
                Err(_) => {},
            }
        },
        Ast::UnaryOp(op, x) => {
            lemma_steps_evaluate(*x, stack, ar);
            match op {
                UnaryOperation::Positive => {},
                UnaryOperation::Negative => {
                    lemma_run_then(steps_of(*x), Step::Negate, stack, ar);
                },
                UnaryOperation::Fact => {
                    lemma_run_then(steps_of(*x), Step::Factorial, stack, ar);
                },
            }
            match value_of(*x, ar) {
                Ok(a) => {
                    let full = stack.push(a);
                    assert(full.subrange(0, full.len() - 1) =~= stack);
                },
                Err(_) => {},
            }
        },
        Ast::Function(f, x) => {
            lemma_steps_evaluate(*x, stack, ar);
            lemma_run_then(steps_of(*x), Step::Call(f), stack, ar);
            match value_of(*x, ar) {
                Ok(a) => {
                    let full = stack.push(a);
                    assert(full.subrange(0, full.len() - 1) =~= stack);
                },
                Err(_) => {},
            }
        },
        Ast::Paren(x) => {
            lemma_steps_evaluate(*x, stack, ar);
        },
    }
}

/// A group in parentheses has the value of what it holds, and fails as it does.
pub proof fn lemma_paren_has_the_value_of_its_inside<V>(inner: Ast, ar: Arithmetic<V>)
    ensures
        value_of(Ast::Paren(Box::new(inner)), ar) == value_of(inner, ar),
        steps_of(Ast::Paren(Box::new(inner))) == steps_of(inner),
{
}

/// A plus sign leaves the evaluation of its operand as it is.
pub proof fn lemma_positive_is_transparent<V>(operand: Ast, ar: Arithmetic<V>)
    ensures
        value_of(Ast::UnaryOp(UnaryOperation::Positive, Box::new(operand)), ar) == value_of(
            operand,
            ar,
        ),
        steps_of(Ast::UnaryOp(UnaryOperation::Positive, Box::new(operand))) == steps_of(operand),
{
}

fn walk(ast: &Ast, out: &mut Vec<Step>)
    ensures
        final(out)@ == old(out)@ + steps_of(*ast),
    decreases *ast,
{
    let ghost before = out@;
    match ast {
        Ast::Number(digits) => {
            out.push(Step::Number(*digits));
        },
        Ast::Constant(c) => {
            out.push(Step::Constant(*c));
        },
        Ast::BinOp(op, l, r) => {
            walk(&**l, out);
            walk(&**r, out);
            out.push(Step::Binary(*op));
        },
        Ast::UnaryOp(op, x) => {
            walk(&**x, out);
            match op {
                UnaryOperation::Positive => {},
                UnaryOperation::Negative => {
                    out.push(Step::Negate);
                },
                UnaryOperation::Fact => {
                    out.push(Step::Factorial);
                },
            }
        },
        Ast::Function(f, x) => {
            walk(&**x, out);
            out.push(Step::Call(*f));
        },
        Ast::Paren(x) => {
            walk(&**x, out);
        },
    }
    assert(out@ =~= before + steps_of(*ast));
}

/// Evaluates a tree as far as the tree decides: gives the steps to take, in
/// order, on an empty stack of values. Where no step fails, the one value left
/// at the end is the value of the expression.
pub fn eval(ast: &Ast) -> (steps: Vec<Step>)
    ensures
        steps@ == steps_of(*ast),
        height_after(steps@, 0) == Some(1int),
{
    let mut steps: Vec<Step> = Vec::new();
    walk(ast, &mut steps);
    proof {
        assert(steps@ =~= steps_of(*ast));
        lemma_steps_leave_one_value(*ast, 0);
    }
    steps
}

/// The value that a constant stands for. `pi`, `inf` and `nan` have one; `e`
/// and `tau` are names without a value, and evaluation fails at them.
pub fn constant_value(constant: Constant) -> (r: Result<Value, EvalError>)
    ensures
        r == value_of_constant(constant),
{
    match constant {
        Constant::Pi => Ok(Value::Pi),
        Constant::Inf => Ok(Value::Infinity),
        Constant::Nan => Ok(Value::Nan),
        _ => Err(EvalError::UnsupportedConstant(constant)),
    }
}

/// The whole number whose factorial is asked for. `nearest` is the operand
/// converted to a `u32`, rounded to the nearest and held to the range, or
/// `None` for what is not a number; `exact` says whether the operand equals the
/// number so found. Only an operand that is such a number already has a
/// factorial: a negative one, a fraction and one beyond the range have none.
pub fn factorial_operand(nearest: Option<u32>, exact: bool) -> (r: Result<u32, EvalError>)
    ensures
        r == whole_operand(nearest, exact),
{
    match nearest {
        Some(n) => {
            if exact {
                Ok(n)
            } else {
                Err(EvalError::FactorialDomain)
            }
        },
        None => Err(EvalError::FactorialDomain),
    }
}

} // verus!
