use rpn_calc::eval::{Calc, CalcError, EvalError};
use rpn_calc::literal::ParseError;
use rpn_calc::num::Num;
use rpn_calc::token::{parse, Op, Val};

fn whole(n: i128) -> Num {
    Num { mantissa: n, scale: 0 }
}

#[test]
fn tokenizes_a_line() {
    let ts = parse("1 2 +").unwrap();
    assert_eq!(ts, vec![Val::Val(whole(1)), Val::Val(whole(2)), Val::Op(Op::Plus)]);
    let ops = parse("+ - * /").unwrap();
    assert_eq!(
        ops,
        vec![Val::Op(Op::Plus), Val::Op(Op::Minus), Val::Op(Op::Mul), Val::Op(Op::Div)]
    );
}

#[test]
fn tokenizing_is_whole_line() {
    assert_eq!(parse("1 x 2"), Err(ParseError::Invalid));
    assert_eq!(parse(""), Err(ParseError::Invalid));
    // Two consecutive spaces make an empty segment, which parses as nothing.
    assert_eq!(parse("1  2"), Err(ParseError::Invalid));
}

#[test]
fn pushes_operands_in_order() {
    let mut calc = Calc::new();
    calc.ingest("1 2 3").unwrap();
    // Snapshot is top to bottom.
    assert_eq!(calc.snapshot(), vec![whole(3), whole(2), whole(1)]);
}

#[test]
fn adds_two_numbers_across_lines() {
    let mut calc = Calc::new();
    assert_eq!(calc.ingest("3"), Ok(whole(3)));
    assert_eq!(calc.ingest("4"), Ok(whole(4)));
    assert_eq!(calc.ingest("+"), Ok(whole(7)));
    assert_eq!(calc.snapshot(), vec![whole(7)]);
}

#[test]
fn operator_semantics_on_two_operands() {
    // Line "a b <op>" pushes a then b; b is the most recent value.
    let mut calc = Calc::new();
    assert_eq!(calc.ingest("2 3 +"), Ok(whole(5)));
    calc.clear();
    assert_eq!(calc.ingest("10 4 -"), Ok(whole(6)));
    calc.clear();
    assert_eq!(calc.ingest("2 3 *"), Ok(whole(6)));
    calc.clear();
    assert_eq!(calc.ingest("9 3 /"), Ok(whole(3)));
}

#[test]
fn exact_decimal_arithmetic() {
    let mut calc = Calc::new();
    assert_eq!(calc.ingest("0.1 0.2 +"), Ok(Num { mantissa: 3, scale: 1 }));
    calc.clear();
    assert_eq!(calc.ingest("1.5 0.25 -"), Ok(Num { mantissa: 125, scale: 2 }));
    calc.clear();
    assert_eq!(calc.ingest("1.5 2.5 *"), Ok(Num { mantissa: 375, scale: 2 }));
}

#[test]
fn classic_rpn_line() {
    let mut calc = Calc::new();
    assert_eq!(calc.ingest("5 1 2 + 4 * + 3 -"), Ok(whole(14)));
    assert_eq!(calc.snapshot(), vec![whole(14)]);
}

#[test]
fn divide_by_zero_keeps_dividend() {
    let mut calc = Calc::new();
    assert_eq!(calc.ingest("1 0 /"), Err(CalcError::Eval(EvalError::DivisionByZero)));
    assert_eq!(calc.snapshot(), vec![whole(1)]);
}

#[test]
fn insufficient_operands_on_empty_stack() {
    let mut calc = Calc::new();
    assert_eq!(calc.ingest("+"), Err(CalcError::Eval(EvalError::InsufficientOperands)));
    assert_eq!(calc.snapshot(), vec![]);
}

#[test]
fn insufficient_operands_leaves_stack_unchanged() {
    let mut calc = Calc::new();
    calc.ingest("5").unwrap();
    assert_eq!(calc.ingest("*"), Err(CalcError::Eval(EvalError::InsufficientOperands)));
    assert_eq!(calc.snapshot(), vec![whole(5)]);
}

#[test]
fn parse_error_leaves_stack_untouched() {
    let mut calc = Calc::new();
    calc.ingest("5").unwrap();
    assert_eq!(calc.ingest("abc"), Err(CalcError::Parse(ParseError::Invalid)));
    // The whole line is rejected before any token touches the stack.
    assert_eq!(calc.ingest("1 2 abc"), Err(CalcError::Parse(ParseError::Invalid)));
    assert_eq!(calc.snapshot(), vec![whole(5)]);
}

#[test]
fn evaluation_error_keeps_earlier_mutations() {
    let mut calc = Calc::new();
    // "7" and "8" are pushed before the bad division stops the line.
    assert_eq!(calc.ingest("7 8 0 /"), Err(CalcError::Eval(EvalError::DivisionByZero)));
    assert_eq!(calc.snapshot(), vec![whole(8), whole(7)]);
}

#[test]
fn clear_empties_the_stack() {
    let mut calc = Calc::new();
    calc.ingest("2 3").unwrap();
    calc.clear();
    assert_eq!(calc.snapshot(), vec![]);
    // Clearing an empty stack is a no-op that still succeeds.
    calc.clear();
    assert_eq!(calc.snapshot(), vec![]);
}

#[test]
fn empty_stack_after_clear() {
    let mut calc = Calc::new();
    calc.push(whole(2));
    calc.push(whole(3));
    calc.clear();
    assert_eq!(calc._ingest(Vec::new()), Err(EvalError::EmptyStack));
}

#[test]
fn overflow_is_reported_and_stack_kept() {
    let mut calc = Calc::new();
    assert_eq!(
        calc.ingest("79228162514264337593543950335 1 +"),
        Err(CalcError::Eval(EvalError::Overflow))
    );
    assert_eq!(
        calc.snapshot(),
        vec![whole(1), whole(79228162514264337593543950335)]
    );
}

#[test]
fn division_rounds_to_available_precision() {
    let mut calc = Calc::new();
    let q = calc.ingest("10 3 /").unwrap();
    // The quotient of 10/3 carries the full 28 fractional digits.
    assert_eq!(q.to_literal(), "3.3333333333333333333333333333");
}

#[test]
fn calc_applies_operand_order() {
    // Direct operator application: v1 is the top of the stack, v2 below it.
    assert_eq!(Op::Plus.calc(whole(2), whole(3)), Ok(whole(5)));
    assert_eq!(Op::Minus.calc(whole(2), whole(3)), Ok(whole(1)));
    assert_eq!(Op::Mul.calc(whole(2), whole(3)), Ok(whole(6)));
    assert_eq!(Op::Div.calc(whole(2), whole(3)), Ok(Num { mantissa: 150, scale: 2 }));
    assert_eq!(Op::Div.calc(whole(0), whole(3)), Err(EvalError::DivisionByZero));
}
