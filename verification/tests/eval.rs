use arraylang::errors::EvalError;
use arraylang::library::index;
use arraylang::number::Number;
use arraylang::operation::Modifier;
use arraylang::operation::Operation;
use arraylang::operation::Operator;
use arraylang::operation::operate;
use arraylang::parser::Arg;
use arraylang::parser::Expr;
use arraylang::parser::Lambda;
use arraylang::runtime::Runtime;
use arraylang::runtime::apply;
use arraylang::runtime::apply_unary;
use arraylang::runtime::parse_list;
use arraylang::value::Array;
use arraylang::value::Value;
use arraylang::value::render;

fn num(n: usize) -> Value {
    Value::Number(Number::from_usize(n))
}

fn arr(elems: Vec<Value>) -> Value {
    Value::Array(Array { value: elems })
}

fn plain(operator: Operator) -> Operation {
    Operation {
        operator,
        modifier: Modifier {
            flip: false,
            table: false,
        },
    }
}

#[test]
fn apply_add_array_scalar() {
    let lhs = arr(vec![num(1), num(2), num(3)]);
    let out = apply(plain(Operator::Add), &lhs, &num(10)).unwrap();
    assert_eq!(render(&out), "[11 12 13]");
}

#[test]
fn apply_add_table() {
    let op = Operation {
        operator: Operator::Add,
        modifier: Modifier {
            flip: false,
            table: true,
        },
    };
    let lhs = arr(vec![num(1), num(2)]);
    let rhs = arr(vec![num(10), num(20)]);
    let out = apply(op, &lhs, &rhs).unwrap();
    assert_eq!(render(&out), "[[11 21] [12 22]]");
}

#[test]
fn apply_add_zip_truncates() {
    let lhs = arr(vec![num(1), num(2), num(3)]);
    let rhs = arr(vec![num(10), num(20)]);
    let out = apply(plain(Operator::Add), &lhs, &rhs).unwrap();
    assert_eq!(render(&out), "[11 22]");
}

#[test]
fn apply_flip_modifier_swaps_operands() {
    let op = Operation {
        operator: Operator::Sub,
        modifier: Modifier {
            flip: true,
            table: false,
        },
    };
    let out = apply(op, &num(3), &num(10)).unwrap();
    assert_eq!(render(&out), "7");
}

#[test]
fn unary_sub_folds_from_last_element() {
    // seed 4; 4 - 1 = 3, 3 - 2 = 1, 1 - 3 = -2
    let v = arr(vec![num(1), num(2), num(3), num(4)]);
    let out = apply_unary(plain(Operator::Sub), &v).unwrap();
    assert_eq!(render(&out), "-2");
}

#[test]
fn unary_on_scalar_is_identity() {
    let out = apply_unary(plain(Operator::Add), &num(9)).unwrap();
    assert_eq!(render(&out), "9");
}

#[test]
fn unary_on_empty_array_is_arity_mismatch() {
    let v = arr(vec![]);
    let out = apply_unary(plain(Operator::Add), &v);
    assert_eq!(out.unwrap_err(), EvalError::ArityMismatch);
}

#[test]
fn range_ascending_and_empty() {
    let one = Number::from_usize(1);
    let five = Number::from_usize(5);
    let up = operate(Operator::Range, one, five).unwrap();
    assert_eq!(render(&up), "[1 2 3 4 5]");
    let five2 = Number::from_usize(5);
    let one2 = Number::from_usize(1);
    let down = operate(Operator::Range, five2, one2).unwrap();
    assert_eq!(render(&down), "[]");
}

#[test]
fn eq_and_or_operators() {
    let out = operate(Operator::Eq, Number::from_usize(4), Number::from_usize(4)).unwrap();
    assert_eq!(render(&out), "1");
    let out = operate(Operator::Eq, Number::from_usize(4), Number::from_usize(5)).unwrap();
    assert_eq!(render(&out), "0");
    let out = operate(Operator::Or, Number::from_usize(0), Number::from_usize(2)).unwrap();
    assert_eq!(render(&out), "1");
    let out = operate(Operator::Or, Number::from_usize(0), Number::from_usize(0)).unwrap();
    assert_eq!(render(&out), "0");
}

#[test]
fn division_by_zero_is_reported() {
    let out = operate(Operator::Div, Number::from_usize(4), Number::zero());
    assert_eq!(out.unwrap_err(), EvalError::DivisionByZero);
    let out = operate(Operator::Mod, Number::from_usize(4), Number::zero());
    assert_eq!(out.unwrap_err(), EvalError::DivisionByZero);
}

#[test]
fn self_index_library_function() {
    let v = arr(vec![num(5), num(0), num(7)]);
    let out = index(v);
    assert_eq!(render(&out), "[0 0 2]");
}

#[test]
fn self_index_recurses_and_passes_scalars() {
    let v = arr(vec![num(5), arr(vec![num(3), num(0)]), num(9)]);
    let out = index(v);
    assert_eq!(render(&out), "[0 [0 0] 2]");
    let s = index(num(4));
    assert_eq!(render(&s), "4");
}

fn op(name: &str) -> arraylang::parser::Operator {
    arraylang::parser::Operator {
        name: name.to_string(),
        modifiers: Modifier {
            flip: false,
            table: false,
        },
    }
}

fn lit(n: usize) -> Expr {
    Expr::Number(arraylang::parser::Number {
        value: Number::from_usize(n),
    })
}

#[test]
fn lambda_binds_arguments_positionally() {
    let rt = Runtime::new();
    // a lambda whose body is the first argument, called on a scalar
    let call = Expr::Call(
        Box::new(Expr::Lambda(Lambda {
            body: Box::new(Expr::Argument(Arg { index: 0 })),
        })),
        Box::new(lit(7)),
    );
    let out = rt.eval_expr(&call, None).unwrap();
    assert_eq!(render(&out), "7");

    // a lambda whose body is the second argument, called on an array
    let call = Expr::Call(
        Box::new(Expr::Lambda(Lambda {
            body: Box::new(Expr::Argument(Arg { index: 1 })),
        })),
        Box::new(Expr::Array(vec![lit(3), lit(4)])),
    );
    let out = rt.eval_expr(&call, None).unwrap();
    assert_eq!(render(&out), "4");
}

#[test]
fn eval_binary_expression() {
    let rt = Runtime::new();
    let e = Expr::Binary(op("+"), Box::new(lit(1)), Box::new(lit(2)));
    let out = rt.eval_expr(&e, None).unwrap();
    assert_eq!(render(&out), "3");
}

#[test]
fn eval_variable_and_unbound_variable() {
    let mut rt = Runtime::new();
    rt.push_var("x", num(41));
    let e = Expr::Binary(
        op("+"),
        Box::new(Expr::Variable(arraylang::parser::Identifier {
            name: "x".to_string(),
        })),
        Box::new(lit(1)),
    );
    let out = rt.eval_expr(&e, None).unwrap();
    assert_eq!(render(&out), "42");

    let e = Expr::Variable(arraylang::parser::Identifier {
        name: "y".to_string(),
    });
    assert_eq!(rt.eval_expr(&e, None).unwrap_err(), EvalError::UnboundVariable);
}

#[test]
fn eval_unknown_operator_and_function() {
    let rt = Runtime::new();
    let e = Expr::Binary(op("@"), Box::new(lit(1)), Box::new(lit(2)));
    assert_eq!(rt.eval_expr(&e, None).unwrap_err(), EvalError::UnknownOperator);

    let e = Expr::Call(
        Box::new(Expr::Function(arraylang::parser::Identifier {
            name: "nosuch".to_string(),
        })),
        Box::new(lit(1)),
    );
    assert_eq!(rt.eval_expr(&e, None).unwrap_err(), EvalError::UnknownFunction);
}

#[test]
fn eval_argument_errors() {
    let rt = Runtime::new();
    let e = Expr::Argument(Arg { index: 0 });
    assert_eq!(rt.eval_expr(&e, None).unwrap_err(), EvalError::NoEnclosingLambda);

    let call = Expr::Call(
        Box::new(Expr::Lambda(Lambda {
            body: Box::new(Expr::Argument(Arg { index: 5 })),
        })),
        Box::new(lit(7)),
    );
    assert_eq!(rt.eval_expr(&call, None).unwrap_err(), EvalError::IndexOutOfRange);
}

#[test]
fn division_by_zero_leaves_environment_untouched() {
    let mut rt = Runtime::new();
    rt.push_var("x", num(3));
    let e = Expr::Binary(op("/"), Box::new(lit(1)), Box::new(lit(0)));
    assert_eq!(rt.eval_expr(&e, None).unwrap_err(), EvalError::DivisionByZero);
    // the binding is still there with its old value
    let x = Expr::Variable(arraylang::parser::Identifier {
        name: "x".to_string(),
    });
    let out = rt.eval_expr(&x, None).unwrap();
    assert_eq!(render(&out), "3");
}

#[test]
fn eval_built_in_index_call() {
    let rt = Runtime::new();
    let call = Expr::Call(
        Box::new(Expr::Function(arraylang::parser::Identifier {
            name: "idx".to_string(),
        })),
        Box::new(Expr::Array(vec![lit(5), lit(0), lit(7)])),
    );
    let out = rt.eval_expr(&call, None).unwrap();
    assert_eq!(render(&out), "[0 0 2]");
}

#[test]
fn parse_list_reads_rows_of_numbers() {
    let v = parse_list("1 2 3\n4 -5\n").unwrap();
    assert_eq!(render(&v), "[[1 2 3] [4 -5]]");
}

#[test]
fn parse_list_rejects_bad_tokens() {
    let out = parse_list("1 x 3\n");
    assert_eq!(out.unwrap_err(), EvalError::ParseFailure);
}
