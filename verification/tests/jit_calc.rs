use jit_calc::lower::{build_from_ast, build_function, Emitter, Instr, Program};
use jit_calc::parser::{parser, Expr, ParseError};
use jit_calc::utils::UnsupportedMachineError;

/// Interpret an instruction sequence the way a backend would, with IEEE-754
/// double arithmetic, and return the value at the given result handle.
fn eval_instrs(instrs: &[Instr], result: usize) -> f64 {
    let mut vals: Vec<f64> = Vec::new();
    for ins in instrs {
        let v = match ins {
            Instr::Const(lit) => lit.parse::<f64>().unwrap(),
            Instr::Neg(x) => -vals[*x],
            Instr::Add(x, y) => vals[*x] + vals[*y],
            Instr::Sub(x, y) => vals[*x] - vals[*y],
            Instr::Mul(x, y) => vals[*x] * vals[*y],
            Instr::Div(x, y) => vals[*x] / vals[*y],
        };
        vals.push(v);
    }
    vals[result]
}

fn eval_program(p: &Program) -> f64 {
    eval_instrs(&p.instrs, p.result)
}

/// Parse, lower and interpret a whole input.
fn run(src: &str) -> f64 {
    eval_program(&build_function(src).unwrap())
}

#[test]
fn parses_integer_literal() {
    match parser("42") {
        Ok(Expr::Num(lit)) => assert_eq!(lit, "42"),
        other => panic!("expected a Num leaf, got {other:?}"),
    }
    assert_eq!(run("42"), 42.0);
}

#[test]
fn parses_float_literal() {
    match parser("3.5") {
        Ok(Expr::Num(lit)) => assert_eq!(lit, "3.5"),
        other => panic!("expected a Num leaf, got {other:?}"),
    }
    assert_eq!(run("3.5"), 3.5);
}

#[test]
fn fractional_part_keeps_leading_zero() {
    match parser("1.05") {
        Ok(Expr::Num(lit)) => assert_eq!(lit, "1.05"),
        other => panic!("expected a Num leaf, got {other:?}"),
    }
    assert_eq!(run("1.05"), 1.05);
}

#[test]
fn leading_zeros_are_digits() {
    assert_eq!(run("007"), 7.0);
}

#[test]
fn subtraction_is_left_associative() {
    let e = parser("1-2-3").unwrap();
    match &e {
        Expr::Sub(l, r) => {
            assert!(matches!(**r, Expr::Num(ref lit) if lit == "3"));
            match &**l {
                Expr::Sub(ll, lr) => {
                    assert!(matches!(**ll, Expr::Num(ref lit) if lit == "1"));
                    assert!(matches!(**lr, Expr::Num(ref lit) if lit == "2"));
                }
                other => panic!("expected the left operand to be a Sub, got {other:?}"),
            }
        }
        other => panic!("expected a Sub at the root, got {other:?}"),
    }
    assert_eq!(run("1-2-3"), -4.0);
}

#[test]
fn unary_minus_binds_tighter_than_binary() {
    assert_eq!(run("-2*3+1"), -5.0);
    assert_eq!(run("-2*3"), -6.0);
}

#[test]
fn double_negation() {
    assert_eq!(run("--5"), 5.0);
}

#[test]
fn whitespace_is_insignificant() {
    assert_eq!(run(" 1 +  2 "), 3.0);
    assert_eq!(run("1+2"), 3.0);
    assert_eq!(run(" - 2 * 3 + 1 "), -5.0);
}

#[test]
fn spaces_leave_the_tree_unchanged() {
    assert_eq!(parser(" 1 +  2 ").unwrap(), parser("1+2").unwrap());
    assert_eq!(parser(" --5").unwrap(), parser("--5").unwrap());
}

#[test]
fn rejects_space_inside_a_literal() {
    // A numeric literal is a single lexeme: its dot cannot be set off by
    // spaces.
    assert!(parser("1 . 5").is_err());
    assert!(parser("1. 5").is_err());
}

#[test]
fn rejects_empty_input() {
    let e = parser("").unwrap_err();
    assert_eq!(e.pos, 0);
    assert_eq!(e.expected, "a digit");
}

#[test]
fn rejects_trailing_operator() {
    let e = parser("1+").unwrap_err();
    assert_eq!(e.pos, 2);
    assert_eq!(e.expected, "a digit");
}

#[test]
fn rejects_trailing_token() {
    let e = parser("1 2").unwrap_err();
    assert_eq!(e.pos, 2);
    assert_eq!(e.expected, "end of input");
}

#[test]
fn rejects_double_dot() {
    let e = parser("1..2").unwrap_err();
    assert_eq!(e.pos, 1);
    assert_eq!(e.expected, "end of input");
}

#[test]
fn rejects_build_of_malformed_input() {
    assert!(matches!(build_function("1+"), Err(ParseError { .. })));
}

#[test]
fn division_by_zero_is_positive_infinity() {
    let v = run("1/0");
    assert!(v.is_infinite());
    assert!(v > 0.0);
}

#[test]
fn lowering_is_post_order_left_first() {
    let p = build_function("1+2").unwrap();
    assert_eq!(
        p.instrs,
        vec![
            Instr::Const("1".to_owned()),
            Instr::Const("2".to_owned()),
            Instr::Add(0, 1),
        ]
    );
    assert_eq!(p.result, 2);
}

#[test]
fn two_emitter_sessions_agree() {
    let e = parser("3.5+2*4-1").unwrap();
    let mut first = Emitter::new();
    let h1 = build_from_ast(&e, &mut first);
    let mut second = Emitter::new();
    let h2 = build_from_ast(&e, &mut second);
    assert_eq!(first.instrs, second.instrs);
    assert_eq!(h1, h2);
    assert_eq!(eval_instrs(&first.instrs, h1), eval_instrs(&second.instrs, h2));
}

#[test]
fn end_to_end_product_binds_tighter() {
    assert_eq!(run("3.5+2*4-1"), 10.5);
}

#[test]
fn unwrap_num_returns_the_literal() {
    assert_eq!(parser("7").unwrap().unwrap_num(), "7");
}

#[test]
fn unsupported_machine_error_message() {
    let err = UnsupportedMachineError("unknown instruction set");
    assert_eq!(err.message(), "unknown instruction set");
}
