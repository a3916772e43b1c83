use fhe_egraph::lang::{unordered_pair, FheLang, FheLangDiscriminant, RecExpr};

#[test]
fn from_op_builds_each_kind() {
    assert!(matches!(FheLang::from_op("+", vec![1, 2]), Ok(FheLang::Add(1, 2))));
    assert!(matches!(FheLang::from_op("*", vec![3, 0]), Ok(FheLang::Mul(3, 0))));
    assert!(matches!(FheLang::from_op("-", vec![4]), Ok(FheLang::Neg(4))));
    assert!(matches!(FheLang::from_op("42", vec![]), Ok(FheLang::Num(42))));
    assert!(matches!(FheLang::from_op("-7", vec![]), Ok(FheLang::Num(-7))));
    match FheLang::from_op("x1", vec![]) {
        Ok(FheLang::Symbol(s)) => assert_eq!(s, "x1"),
        _ => panic!("expected a symbol"),
    }
    match FheLang::from_op("-", vec![]) {
        Ok(FheLang::Symbol(s)) => assert_eq!(s, "-"),
        _ => panic!("expected a symbol"),
    }
    match FheLang::from_op("outputs", vec![5, 6]) {
        Ok(FheLang::Outputs(c)) => assert_eq!(c, vec![5, 6]),
        _ => panic!("expected outputs"),
    }
}

#[test]
fn from_op_rejects_bad_arity() {
    let e = FheLang::from_op("+", vec![1]).err().unwrap();
    assert_eq!(e.0, "Invalid FheLang node: operator `+` with 1 children");
    let e = FheLang::from_op("a", vec![1, 2, 3]).err().unwrap();
    assert_eq!(e.0, "Invalid FheLang node: operator `a` with 3 children");
}

#[test]
fn node_equality_is_commutative_for_add_and_mul() {
    assert!(FheLang::Add(1, 2).same_node(&FheLang::Add(2, 1)));
    assert!(FheLang::Mul(1, 2).same_node(&FheLang::Mul(2, 1)));
    assert!(!FheLang::Add(1, 2).same_node(&FheLang::Mul(1, 2)));
    assert!(!FheLang::Add(1, 2).same_node(&FheLang::Add(1, 3)));
    assert!(!FheLang::Outputs(vec![1, 2]).same_node(&FheLang::Outputs(vec![2, 1])));
    assert!(FheLang::Neg(3).same_node(&FheLang::Neg(3)));
    assert_eq!(unordered_pair(5, 2), (2, 5));
    assert_eq!(unordered_pair(2, 5), (2, 5));
}

#[test]
fn kinds_tags_and_matching() {
    assert_eq!(FheLang::Mul(0, 0).discriminant(), FheLangDiscriminant::Mul);
    assert_eq!(FheLang::Outputs(vec![]).discriminant(), FheLangDiscriminant::Outputs);
    assert!(FheLang::Add(0, 1).matches(&FheLang::Add(7, 8)));
    assert!(!FheLang::Outputs(vec![1]).matches(&FheLang::Outputs(vec![1, 2])));
    assert!(FheLang::Num(4).matches(&FheLang::Num(4)));
    assert!(!FheLang::Num(4).matches(&FheLang::Num(5)));
    assert_ne!(FheLang::Add(0, 1).tag(), FheLang::Mul(0, 1).tag());
    assert_eq!(FheLang::Neg(9).children(), vec![9]);
}

#[test]
fn with_children_replaces_in_order() {
    assert!(matches!(FheLang::Mul(7, 8).with_children(&[1, 0]), FheLang::Mul(1, 0)));
    match FheLang::Outputs(vec![5, 6, 7]).with_children(&[0, 1, 2]) {
        FheLang::Outputs(c) => assert_eq!(c, vec![0, 1, 2]),
        _ => panic!("expected outputs"),
    }
    assert!(matches!(FheLang::Num(3).with_children(&[]), FheLang::Num(3)));
}

#[test]
fn recexpr_appends_in_post_order() {
    let mut e = RecExpr::new();
    let a = e.add(FheLang::Num(1));
    assert!(e.can_add(&FheLang::Neg(a)));
    assert!(!e.can_add(&FheLang::Neg(5)));
    let n = e.add(FheLang::Neg(a));
    assert_eq!((a, n, e.len()), (0, 1, 2));
    assert!(matches!(e.get(1), FheLang::Neg(0)));
    assert_eq!(e.nodes().len(), 2);
}
