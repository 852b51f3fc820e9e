//! Decoration and scheduling of raw expressions.

use priv_ins::expressions::{BinaryOp, Expression};
use priv_ins::field::Fp;
use priv_ins::protocol::expression::{
    decorate_expression, DecoratedExpression, MidEvalExpression,
};
use priv_ins::protocol::{owner_map, sub_id, Provider};

fn dummy() -> Fp {
    Fp::zero()
}

fn test_expr() -> DecoratedExpression {
    DecoratedExpression::Add(
        Box::new(DecoratedExpression::MulConstant(
            dummy(),
            Box::new(DecoratedExpression::Mul(
                Box::new(DecoratedExpression::Var(1, "2".to_string(), "1".to_string())),
                Box::new(DecoratedExpression::Var(1, "3".to_string(), "2".to_string())),
                "3".to_string(),
            )),
            "4".to_string(),
        )),
        Box::new(DecoratedExpression::Mul(
            Box::new(DecoratedExpression::Var(3, "5".to_string(), "5".to_string())),
            Box::new(DecoratedExpression::Var(1, "10".to_string(), "6".to_string())),
            "7".to_string(),
        )),
        "8".to_string(),
    )
}

#[test]
fn returns_mul_ids_correctly() {
    let d_expr = test_expr();

    assert_eq!(vec!["3", "7"], d_expr.mul_ids());
}

#[test]
fn returns_var_ids_correctly() {
    let d_expr = test_expr();

    assert_eq!(
        vec![
            ("1".to_string(), "2".to_string()),
            ("2".to_string(), "3".to_string()),
            ("6".to_string(), "10".to_string())
        ],
        d_expr.self_var_ids(Some(1))
    );
    assert_eq!(
        Vec::<(String, String)>::new(),
        d_expr.self_var_ids(Some(2))
    );
    assert_eq!(
        vec![("5".to_string(), "5".to_string())],
        d_expr.self_var_ids(Some(3))
    );
}

#[test]
fn produce_correct_order() {
    let d_expr = test_expr();

    let ordered_ids = d_expr
        .into_ordered()
        .iter()
        .map(|e| e.cir_id())
        .collect::<Vec<_>>();

    assert_eq!(vec!["1", "2", "3", "4", "5", "6", "7", "8"], ordered_ids);
}

fn number(n: u64) -> Box<Expression> {
    Box::new(Expression::Number { number: n })
}

fn variable(name: &str) -> Box<Expression> {
    Box::new(Expression::Variable {
        name: name.to_string(),
    })
}

fn binop(l: Box<Expression>, r: Box<Expression>, op: BinaryOp) -> Box<Expression> {
    Box::new(Expression::BinOp {
        left: l,
        right: r,
        op,
    })
}

#[test]
fn decoration_folds_constant_mul() {
    // (2 + 3) * v0 decorates so that the schedule holds exactly one
    // MulConstant and one Var, and no Mul
    let expr = *binop(
        binop(number(2), number(3), BinaryOp::Add),
        variable("v0"),
        BinaryOp::Mul,
    );
    let mut provider = Provider::new(0, owner_map(vec![("v0".to_string(), 0)]));
    let decorated = decorate_expression(expr, &mut provider).unwrap();
    assert!(decorated.mul_ids().is_empty());
    let schedule = decorated.into_ordered();
    assert_eq!(2, schedule.len());
    assert!(matches!(schedule[0], MidEvalExpression::Var(_)));
    match &schedule[1] {
        MidEvalExpression::MulConstant(c, _, _) => assert_eq!(Fp::from_u64(5), *c),
        other => panic!("expected a MulConstant step, got {:?}", other),
    }
}

#[test]
fn decoration_rejects_sub_and_div() {
    for op in [BinaryOp::Sub, BinaryOp::Div] {
        let expr = *binop(variable("v0"), number(1), op);
        let mut provider = Provider::new(0, owner_map(vec![("v0".to_string(), 0)]));
        match decorate_expression(expr, &mut provider) {
            Err(e) => assert_eq!("Only add and mul for now", e),
            Ok(_) => panic!("an unsupported operator must be rejected"),
        }
    }
}

#[test]
fn decoration_rejects_orphaned_variable() {
    let expr = *binop(variable("v0"), variable("nope"), BinaryOp::Add);
    let mut provider = Provider::new(0, owner_map(vec![("v0".to_string(), 0)]));
    match decorate_expression(expr, &mut provider) {
        Err(e) => assert_eq!("orphaned variable", e),
        Ok(_) => panic!("an unknown variable must be rejected"),
    }
}

#[test]
fn decoration_folds_all_constant_expression() {
    let expr = *binop(number(6), number(7), BinaryOp::Mul);
    let mut provider = Provider::new(0, owner_map(Vec::new()));
    let decorated = decorate_expression(expr, &mut provider).unwrap();
    match decorated {
        DecoratedExpression::Constant(c, _) => assert_eq!(Fp::from_u64(42), c),
        _ => panic!("expected a constant root"),
    }
}

#[test]
fn provider_ids_are_decimal_and_fresh() {
    let mut provider = Provider::new(0, owner_map(Vec::new()));
    assert_eq!("1".to_string(), provider.next());
    assert_eq!("2".to_string(), provider.next());
    let mut provider = Provider::new(41, owner_map(Vec::new()));
    assert_eq!("42".to_string(), provider.next());
}

#[test]
fn sub_id_joins_with_dash() {
    assert_eq!(
        "7-e".to_string(),
        sub_id(&"7".to_string(), &"e".to_string())
    );
}

#[test]
fn decoration_is_deterministic_across_parties() {
    // two parties decorating the same expression get the same schedule ids
    let build = || {
        *binop(
            binop(variable("x"), variable("y"), BinaryOp::Mul),
            number(10),
            BinaryOp::Add,
        )
    };
    let pairs = vec![("x".to_string(), 0), ("y".to_string(), 1)];
    let mut p0 = Provider::new(0, owner_map(pairs.clone()));
    let mut p1 = Provider::new(0, owner_map(pairs));
    let d0 = decorate_expression(build(), &mut p0).unwrap();
    let d1 = decorate_expression(build(), &mut p1).unwrap();
    let ids0: Vec<String> = d0.into_ordered().iter().map(|e| e.cir_id()).collect();
    let ids1: Vec<String> = d1.into_ordered().iter().map(|e| e.cir_id()).collect();
    assert_eq!(ids0, ids1);
}
