//! The stack evaluator: a stack of exact decimal values, fed one token at a
//! time.  An operand is pushed; an operator pops the two most recent values,
//! applies the operation, and pushes the result.  A line's tokens are
//! processed left to right, and an error stops the line without undoing what
//! earlier tokens already did to the stack.

use vstd::prelude::*;

use crate::literal::ParseError;
use crate::num::{
    add_result, checked_add, checked_div, checked_mul, checked_sub, diff_fits, div_result,
    lemma_pow10_pos, mul_result, pow10, prod_fits, sub_result, sum_fits, Num, MAX_SCALE,
};
use crate::token::{parse, spec_parse_line, tokens_wf, Op, Val};

verus! {

/// Why a line failed to evaluate.
#[derive(Clone, Copy, Debug, PartialEq, Eq, Structural)]
pub enum EvalError {
    /// An operator was applied with fewer than two values on the stack.
    InsufficientOperands,
    /// The divide operator was applied with zero as the divisor.
    DivisionByZero,
    /// An arithmetic result exceeded the representable decimal range.
    Overflow,
    /// The end of a line was reached with no value on the stack to report.
    EmptyStack,
}

/// Everything that can go wrong with one input line.
#[derive(Clone, Copy, Debug, PartialEq, Eq, Structural)]
pub enum CalcError {
    /// A segment of the line was neither an operator nor a literal.
    Parse(ParseError),
    /// The tokens could not be evaluated against the current stack.
    Eval(EvalError),
}

/// What applying an operator yields, over the named results of the
/// underlying decimal arithmetic.  `a` is the most recently pushed value,
/// `b` the one pushed before it: `+` and `*` are symmetric, `-` yields
/// `b - a`, and `/` yields `b / a`.
pub open spec fn spec_apply(op: Op, a: Num, b: Num) -> Option<Num> {
    match op {
        Op::Plus => add_result(a, b),
        Op::Minus => sub_result(b, a),
        Op::Mul => mul_result(a, b),
        Op::Div => div_result(b, a),
    }
}

/// One evaluation step: the stack after the token, and the error if the
/// token failed.  An operand always pushes.  An operator needs two values;
/// a division by zero consumes the divisor and keeps the dividend; an
/// overflow leaves the stack as it was.
pub open spec fn spec_step(stack: Seq<Num>, t: Val) -> (Seq<Num>, Option<EvalError>) {
    match t {
        Val::Val(n) => (stack.push(n), None),
        Val::Op(op) => {
            if stack.len() < 2 {
                (stack, Some(EvalError::InsufficientOperands))
            } else {
                let a = stack.last();
                let b = stack[stack.len() - 2];
                let rest = stack.take(stack.len() - 2);
                if op == Op::Div && a.value() == 0 {
                    (rest.push(b), Some(EvalError::DivisionByZero))
                } else {
                    match spec_apply(op, a, b) {
                        Some(x) => (rest.push(x), None),
                        None => (stack, Some(EvalError::Overflow)),
                    }
                }
            }
        },
    }
}

/// Runs the tokens left to right: the stack after the run, and the first
/// error if one stopped it.  Tokens after the first error are not processed.
pub open spec fn spec_run(stack: Seq<Num>, ts: Seq<Val>) -> (Seq<Num>, Option<EvalError>)
    decreases ts.len(),
{
    if ts.len() == 0 {
        (stack, None)
    } else {
        let step = spec_step(stack, ts[0]);
        if step.1 is Some {
            step
        } else {
            spec_run(step.0, ts.drop_first())
        }
    }
}

/// What a line of tokens reports: the first error, or the top of the stack
/// after all tokens — `EmptyStack` if nothing is left on it.
pub open spec fn spec_line_result(stack: Seq<Num>, ts: Seq<Val>) -> Result<Num, EvalError> {
    let run = spec_run(stack, ts);
    match run.1 {
        Some(e) => Err(e),
        None => {
            if run.0.len() == 0 {
                Err(EvalError::EmptyStack)
            } else {
                Ok(run.0.last())
            }
        },
    }
}

/// Running a concatenation: the second part continues from the first's
/// stack, unless the first part already stopped on an error.
pub proof fn lemma_run_concat(stack: Seq<Num>, a: Seq<Val>, b: Seq<Val>)
    ensures
        spec_run(stack, a).1 is None ==> spec_run(stack, a + b) == spec_run(
            spec_run(stack, a).0,
            b,
        ),
        spec_run(stack, a).1 is Some ==> spec_run(stack, a + b) == spec_run(stack, a),
    decreases a.len(),
{
    if a.len() == 0 {
        assert(a + b =~= b);
    } else {
        assert((a + b)[0] == a[0]);
        assert((a + b).drop_first() =~= a.drop_first() + b);
        let step = spec_step(stack, a[0]);
        if step.1 is None {
            lemma_run_concat(step.0, a.drop_first(), b);
        }
    }
}

/// A stack element's value is zero exactly when its mantissa is.
pub proof fn lemma_zero_value(n: Num)
    requires
        n.wf(),
    ensures
        n.value() == 0 <==> n.mantissa == 0,
{
    let p = pow10((MAX_SCALE - n.scale) as nat);
    lemma_pow10_pos((MAX_SCALE - n.scale) as nat);
    if n.mantissa != 0 {
        assert(n.mantissa * p != 0) by (nonlinear_arith)
            requires
                n.mantissa != 0,
                p >= 1,
        ;
    }
}

impl Op {
    /// Applies the operator to the two most recently pushed values: `v1` the
    /// most recent, `v2` the one pushed before it.  Addition and
    /// multiplication are exact whenever the exact result is representable;
    /// subtraction yields `v2 - v1` and division `v2 / v1`, failing with
    /// `DivisionByZero` exactly when `v1` is zero.
    pub fn calc(self, v1: Num, v2: Num) -> (r: Result<Num, EvalError>)
        requires
            v1.wf(),
            v2.wf(),
        ensures
            self == Op::Div && v1.value() == 0 ==> r == Err::<Num, EvalError>(
                EvalError::DivisionByZero,
            ),
            !(self == Op::Div && v1.value() == 0) ==> r == (match spec_apply(self, v1, v2) {
                Some(x) => Ok::<Num, EvalError>(x),
                None => Err::<Num, EvalError>(EvalError::Overflow),
            }),
            r matches Ok(x) ==> x.wf(),
            self == Op::Plus && sum_fits(v1, v2) ==> r is Ok && r.unwrap().value() == v1.value()
                + v2.value(),
            self == Op::Minus && diff_fits(v2, v1) ==> r is Ok && r.unwrap().value() == v2.value()
                - v1.value(),
            self == Op::Mul && prod_fits(v1, v2) ==> r is Ok && r.unwrap().value() * pow10(
                MAX_SCALE as nat,
            ) == v1.value() * v2.value(),
    {
        match self {
            Op::Plus => Self::add(v1, v2),
            Op::Minus => Self::subtract(v1, v2),
            Op::Mul => Self::multiply(v1, v2),
            Op::Div => Self::divide(v1, v2),
        }
    }

    /// The exact sum, through the decimal library's checked addition.
    fn add(v1: Num, v2: Num) -> (r: Result<Num, EvalError>)
        requires
            v1.wf(),
            v2.wf(),
        ensures
            r == (match add_result(v1, v2) {
                Some(x) => Ok::<Num, EvalError>(x),
                None => Err::<Num, EvalError>(EvalError::Overflow),
            }),
            r matches Ok(x) ==> x.wf(),
            sum_fits(v1, v2) ==> r is Ok && r.unwrap().value() == v1.value() + v2.value(),
    {
        match checked_add(&v1, &v2) {
            Some(x) => Ok(x),
            None => Err(EvalError::Overflow),
        }
    }

    /// The exact difference `v2 - v1`, through the checked subtraction.
    fn subtract(v1: Num, v2: Num) -> (r: Result<Num, EvalError>)
        requires
            v1.wf(),
            v2.wf(),
        ensures
            r == (match sub_result(v2, v1) {
                Some(x) => Ok::<Num, EvalError>(x),
                None => Err::<Num, EvalError>(EvalError::Overflow),
            }),
            r matches Ok(x) ==> x.wf(),
            diff_fits(v2, v1) ==> r is Ok && r.unwrap().value() == v2.value() - v1.value(),
    {
        match checked_sub(&v2, &v1) {
            Some(x) => Ok(x),
            None => Err(EvalError::Overflow),
        }
    }

    /// The exact product, through the checked multiplication.
    fn multiply(v1: Num, v2: Num) -> (r: Result<Num, EvalError>)
        requires
            v1.wf(),
            v2.wf(),
        ensures
            r == (match mul_result(v1, v2) {
                Some(x) => Ok::<Num, EvalError>(x),
                None => Err::<Num, EvalError>(EvalError::Overflow),
            }),
            r matches Ok(x) ==> x.wf(),
            prod_fits(v1, v2) ==> r is Ok && r.unwrap().value() * pow10(MAX_SCALE as nat)
                == v1.value() * v2.value(),
    {
        match checked_mul(&v1, &v2) {
            Some(x) => Ok(x),
            None => Err(EvalError::Overflow),
        }
    }

    /// The quotient `v2 / v1`, through the checked division; fails with
    /// `DivisionByZero` exactly when the divisor `v1` is zero.
    fn divide(v1: Num, v2: Num) -> (r: Result<Num, EvalError>)
        requires
            v1.wf(),
            v2.wf(),
        ensures
            v1.value() == 0 ==> r == Err::<Num, EvalError>(EvalError::DivisionByZero),
            v1.value() != 0 ==> r == (match div_result(v2, v1) {
                Some(x) => Ok::<Num, EvalError>(x),
                None => Err::<Num, EvalError>(EvalError::Overflow),
            }),
            r matches Ok(x) ==> x.wf(),
    {
        proof {
            lemma_zero_value(v1);
        }
        if v1.mantissa == 0 {
            return Err(EvalError::DivisionByZero);
        }
        match checked_div(&v2, &v1) {
            Some(x) => Ok(x),
            None => Err(EvalError::Overflow),
        }
    }
}

/// Turns a step's optional error into the result `do_calc` reports.
pub open spec fn step_outcome(e: Option<EvalError>) -> Result<(), EvalError> {
    match e {
        None => Ok(()),
        Some(err) => Err(err),
    }
}

/// The most recently pushed value of a stack with at least one value.
pub open spec fn top_of(stack: Seq<Num>) -> Num {
    stack.last()
}

/// The value pushed just before the top of a stack with at least two values.
pub open spec fn under_top(stack: Seq<Num>) -> Num {
    stack[stack.len() - 2]
}

/// The calculator: exclusive owner of the working stack for a session.
pub struct Calc {
    /// The stack, most recently pushed value last.
    pub acc: Vec<Num>,
}

impl Calc {
    /// The abstract stack: the values in push order, the top last.
    pub open spec fn stack(self) -> Seq<Num> {
        self.acc@
    }

    /// Every value on the stack is a well-formed decimal.
    pub open spec fn wf(self) -> bool {
        forall|i: int| 0 <= i < self.acc@.len() ==> (#[trigger] self.acc@[i]).wf()
    }

    /// A new calculator starts with an empty stack.
    pub fn new() -> (c: Calc)
        ensures
            c.stack() == Seq::<Num>::empty(),
            c.wf(),
    {
        Calc { acc: Vec::new() }
    }

    /// Empties the stack unconditionally; clearing an empty stack is a no-op
    /// that also succeeds.
    pub fn clear(&mut self)
        ensures
            final(self).stack() == Seq::<Num>::empty(),
            final(self).wf(),
    {
        self.acc.clear();
    }

    /// Pushes a value on top of the stack.
    pub fn push(&mut self, val: Num)
        requires
            old(self).wf(),
            val.wf(),
        ensures
            final(self).stack() == old(self).stack().push(val),
            final(self).wf(),
    {
        self.acc.push(val);
    }

    /// Whether the stack holds the two operands an operator needs.
    pub fn has_enough(&self) -> (r: bool)
        ensures
            r == (self.stack().len() >= 2),
    {
        self.acc.len() >= 2
    }

    /// Pops the two most recent values: first the top, then the one below it.
    pub fn pop_two(&mut self) -> (r: (Num, Num))
        requires
            old(self).wf(),
            old(self).stack().len() >= 2,
        ensures
            r.0 == old(self).stack().last(),
            r.1 == old(self).stack()[old(self).stack().len() - 2],
            final(self).stack() == old(self).stack().take(old(self).stack().len() - 2),
            final(self).wf(),
            r.0.wf(),
            r.1.wf(),
    {
        let fst = self.acc.pop().unwrap();
        let snd = self.acc.pop().unwrap();
        proof {
            assert(old(self).stack().drop_last().drop_last() =~= old(self).stack().take(
                old(self).stack().len() - 2,
            ));
        }
        (fst, snd)
    }

    /// Applies one operator to the stack, as one `spec_step`: it needs two
    /// values, and on success replaces them by the operation's result.  With
    /// fewer than two values it fails with `InsufficientOperands` and the
    /// stack is untouched; a division by zero consumes the divisor and keeps
    /// the dividend; an overflow leaves the stack as it was.  For a stack
    /// ending in `b, a` (`a` on top): `+` puts the exact `a + b` on top and
    /// `*` the exact `a * b` whenever representable, `-` the exact `b - a`,
    /// and `/` fails with `DivisionByZero` exactly when `a` is zero.
    pub fn do_calc(&mut self, op: Op) -> (r: Result<(), EvalError>)
        requires
            old(self).wf(),
        ensures
            final(self).wf(),
            final(self).stack() == spec_step(old(self).stack(), Val::Op(op)).0,
            r == step_outcome(spec_step(old(self).stack(), Val::Op(op)).1),
            old(self).stack().len() < 2 ==> r == Err::<(), EvalError>(
                EvalError::InsufficientOperands,
            ) && final(self).stack() == old(self).stack(),
            op == Op::Plus && old(self).stack().len() >= 2 && sum_fits(
                top_of(old(self).stack()),
                under_top(old(self).stack()),
            ) ==> r is Ok && top_of(final(self).stack()).value() == top_of(
                old(self).stack(),
            ).value() + under_top(old(self).stack()).value(),
            op == Op::Minus && old(self).stack().len() >= 2 && diff_fits(
                under_top(old(self).stack()),
                top_of(old(self).stack()),
            ) ==> r is Ok && top_of(final(self).stack()).value() == under_top(
                old(self).stack(),
            ).value() - top_of(old(self).stack()).value(),
            op == Op::Mul && old(self).stack().len() >= 2 && prod_fits(
                top_of(old(self).stack()),
                under_top(old(self).stack()),
            ) ==> r is Ok && top_of(final(self).stack()).value() * pow10(MAX_SCALE as nat)
                == top_of(old(self).stack()).value() * under_top(old(self).stack()).value(),
            op == Op::Div && old(self).stack().len() >= 2 && top_of(old(self).stack()).value()
                == 0 ==> r == Err::<(), EvalError>(EvalError::DivisionByZero)
                && final(self).stack() == old(self).stack().drop_last(),
    {
        if !self.has_enough() {
            return Err(EvalError::InsufficientOperands);
        }
        let ghost stack0 = self.stack();
        let (a, b) = self.pop_two();
        match op.calc(a, b) {
            Ok(v) => {
                self.push(v);
                Ok(())
            },
            Err(e) => {
                match e {
                    EvalError::DivisionByZero => {
                        self.push(b);
                    },
                    _ => {
                        self.push(b);
                        self.push(a);
                        proof {
                            assert(stack0.take(stack0.len() - 2).push(b).push(a) =~= stack0);
                        }
                    },
                }
                Err(e)
            },
        }
    }

    /// Feeds a line's tokens to the stack, left to right, and reports the
    /// new top of the stack or the first error.  Tokens before the error
    /// keep their effect on the stack.
    pub fn _ingest(&mut self, vs: Vec<Val>) -> (r: Result<Num, EvalError>)
        requires
            old(self).wf(),
            tokens_wf(vs@),
        ensures
            final(self).wf(),
            final(self).stack() == spec_run(old(self).stack(), vs@).0,
            r == spec_line_result(old(self).stack(), vs@),
            r matches Ok(n) ==> n.wf(),
    {
        let ghost stack0 = self.stack();
        let ghost ts = vs@;
        let mut i: usize = 0;
        while i < vs.len()
            invariant
                old(self).wf(),
                tokens_wf(ts),
                ts == vs@,
                stack0 == old(self).stack(),
                0 <= i <= vs.len(),
                self.wf(),
                spec_run(stack0, ts.take(i as int)) == (self.stack(), None::<EvalError>),
            decreases vs.len() - i,
        {
            let ghost prefix = ts.take(i as int);
            let ghost mid = self.stack();
            let t = vs[i];
            proof {
                assert(ts.take(i + 1) =~= prefix + seq![t]);
                lemma_run_concat(stack0, prefix, seq![t]);
                assert(seq![t][0] == t);
                reveal_with_fuel(spec_run, 3);
                assert(seq![t].drop_first() =~= Seq::<Val>::empty());
                assert(forall|st: Seq<Num>|
                    spec_run(st, Seq::<Val>::empty()) == (st, None::<EvalError>));
                assert(spec_run(stack0, ts.take(i + 1)) == spec_run(mid, seq![t]));
            }
            match t {
                Val::Val(n) => {
                    self.push(n);
                    proof {
                        assert(spec_step(mid, t) == (mid.push(n), None::<EvalError>));
                        assert(spec_run(mid, seq![t]) == (mid.push(n), None::<EvalError>));
                    }
                },
                Val::Op(o) => {
                    let res = self.do_calc(o);
                    proof {
                        let step = spec_step(mid, t);
                        if step.1 is None {
                            assert(spec_run(mid, seq![t]) == (step.0, None::<EvalError>));
                        } else {
                            assert(spec_run(mid, seq![t]) == step);
                        }
                    }
                    if let Err(e) = res {
                        proof {
                            assert(spec_run(stack0, ts.take(i + 1)) == (
                                self.stack(),
                                Some(e),
                            ));
                            assert(ts =~= ts.take(i + 1) + ts.skip(i + 1));
                            lemma_run_concat(stack0, ts.take(i + 1), ts.skip(i + 1));
                        }
                        return Err(e);
                    }
                },
            }
            i = i + 1;
        }
        proof {
            assert(ts.take(vs@.len() as int) =~= ts);
        }
        if self.acc.len() == 0 {
            Err(EvalError::EmptyStack)
        } else {
            let top = self.acc[self.acc.len() - 1];
            Ok(top)
        }
    }

    /// The stack a line leaves behind: unchanged on a parse error, and
    /// otherwise whatever running its tokens leaves.
    pub open spec fn spec_stack_after_line(stack: Seq<Num>, line: Seq<char>) -> Seq<Num> {
        match spec_parse_line(line) {
            Err(_) => stack,
            Ok(ts) => spec_run(stack, ts).0,
        }
    }

    /// What a line reports: its parse error — in which case nothing of the
    /// line touches the stack — or the result of running its tokens.
    pub open spec fn spec_eval_line(stack: Seq<Num>, line: Seq<char>) -> Result<Num, CalcError> {
        match spec_parse_line(line) {
            Err(pe) => Err(CalcError::Parse(pe)),
            Ok(ts) => match spec_line_result(stack, ts) {
                Ok(n) => Ok(n),
                Err(e) => Err(CalcError::Eval(e)),
            },
        }
    }

    /// Parses one input line and evaluates its tokens against the stack.
    ///
    /// A parse error aborts the whole line before the stack is touched; an
    /// evaluation error keeps what earlier tokens already did.
    pub fn ingest(&mut self, line: &str) -> (r: Result<Num, CalcError>)
        requires
            old(self).wf(),
        ensures
            final(self).wf(),
            final(self).stack() == Self::spec_stack_after_line(old(self).stack(), line@),
            r == Self::spec_eval_line(old(self).stack(), line@),
            r matches Ok(n) ==> n.wf(),
    {
        match parse(line) {
            Err(e) => Err(CalcError::Parse(e)),
            Ok(vs) => match self._ingest(vs) {
                Ok(n) => Ok(n),
                Err(e) => Err(CalcError::Eval(e)),
            },
        }
    }

    /// The stack's contents, top first, for display.
    pub fn snapshot(&self) -> (r: Vec<Num>)
        ensures
            r@.len() == self.stack().len(),
            forall|j: int|
                0 <= j < r@.len() ==> r@[j] == self.stack()[self.stack().len() - 1 - j],
    {
        let mut out: Vec<Num> = Vec::new();
        let mut i: usize = self.acc.len();
        while i > 0
            invariant
                0 <= i <= self.acc.len(),
                out@.len() == self.acc.len() - i,
                forall|j: int|
                    0 <= j < out@.len() ==> out@[j] == self.acc@[self.acc@.len() - 1 - j],
            decreases i,
        {
            i = i - 1;
            out.push(self.acc[i]);
        }
        out
    }
}

/// The numbers carried by a sequence of operand tokens.
pub open spec fn operand_values(ts: Seq<Val>) -> Seq<Num> {
    ts.map_values(
        |t: Val|
            match t {
                Val::Val(n) => n,
                Val::Op(_) => Num { mantissa: 0, scale: 0 },
            },
    )
}

/// A line of operands alone never fails and simply extends the stack by
/// exactly those values, in order, the last pushed on top.
pub proof fn lemma_operands_only(stack: Seq<Num>, ts: Seq<Val>)
    requires
        forall|i: int| 0 <= i < ts.len() ==> (#[trigger] ts[i]) matches Val::Val(_),
    ensures
        spec_run(stack, ts) == (stack + operand_values(ts), None::<EvalError>),
    decreases ts.len(),
{
    if ts.len() == 0 {
        assert(stack + operand_values(ts) =~= stack);
    } else {
        let n = ts[0]->Val_0;
        assert(spec_step(stack, ts[0]) == (stack.push(n), None::<EvalError>));
        lemma_operands_only(stack.push(n), ts.drop_first());
        assert(stack.push(n) + operand_values(ts.drop_first()) =~= stack + operand_values(ts));
    }
}

/// An operator applied to a stack with fewer than two values fails with
/// `InsufficientOperands` and leaves the stack unchanged.
pub proof fn lemma_step_insufficient(stack: Seq<Num>, op: Op)
    requires
        stack.len() < 2,
    ensures
        spec_step(stack, Val::Op(op)) == (stack, Some(EvalError::InsufficientOperands)),
{
}

/// Division with zero on top of the stack fails with `DivisionByZero`; the
/// zero divisor is consumed and the dividend below it stays.
pub proof fn lemma_step_divide_by_zero(stack: Seq<Num>)
    requires
        stack.len() >= 2,
        stack.last().value() == 0,
    ensures
        spec_step(stack, Val::Op(Op::Div)) == (
            stack.drop_last(),
            Some(EvalError::DivisionByZero),
        ),
{
    assert(stack.take(stack.len() - 2).push(stack[stack.len() - 2]) =~= stack.drop_last());
}

} // verus!
