use fhe_egraph::optimizer::{md_optimization_result, InputKind};
use fhe_egraph::cost::{GlobalMcCost, MdCost, MinMdTreeCost};
use fhe_egraph::dag::DagKey;
use fhe_egraph::dag::Dag;
use fhe_egraph::evaluator::evaluate_expr;
use fhe_egraph::lang::{FheLang, FheLangDiscriminant, RecExpr};

fn sym(s: &str) -> FheLang {
    FheLang::Symbol(s.to_string())
}

/// (a * b) + (b * a) twice, under an outputs root.
fn shared_expr() -> RecExpr {
    let mut e = RecExpr::new();
    let a = e.add(sym("a"));
    let b = e.add(sym("b"));
    let ab = e.add(FheLang::Mul(a, b));
    let a2 = e.add(sym("a"));
    let ab2 = e.add(FheLang::Mul(a2, b));
    let s = e.add(FheLang::Add(ab, ab2));
    e.add(FheLang::Outputs(vec![s, ab]));
    e
}

#[test]
fn from_recexpr_shares_equal_subterms() {
    let e = shared_expr();
    assert!(e.dag_convertible());
    let dag = Dag::from_recexpr(&e);
    assert_eq!(
        dag.nodes(),
        &[
            DagKey::Symbol("a".to_string()),
            DagKey::Symbol("b".to_string()),
            DagKey::Mul(0, 1),
            DagKey::Add(2, 2),
        ]
    );
    assert_eq!(dag.roots(), &[3, 2]);
    let st = dag.stats();
    assert_eq!((st.mc, st.md, st.fhe_cost, st.total_nodes), (1, 1, 1, 4));
}

#[test]
fn from_recexpr_single_root_without_outputs() {
    let mut e = RecExpr::new();
    let x = e.add(FheLang::Num(3));
    let n = e.add(FheLang::Neg(x));
    e.add(FheLang::Mul(n, n));
    let dag = Dag::from_recexpr(&e);
    assert_eq!(dag.nodes(), &[DagKey::Num(3), DagKey::Neg(0), DagKey::Mul(1, 1)]);
    assert_eq!(dag.roots(), &[2]);
    let st = dag.stats();
    assert_eq!((st.mc, st.md, st.fhe_cost, st.total_nodes), (1, 1, 1, 3));
}

#[test]
fn commuted_products_are_distinct_dag_nodes() {
    let mut e = RecExpr::new();
    let a = e.add(sym("a"));
    let b = e.add(sym("b"));
    let ab = e.add(FheLang::Mul(a, b));
    let ba = e.add(FheLang::Mul(b, a));
    e.add(FheLang::Outputs(vec![ab, ba]));
    let dag = Dag::from_recexpr(&e);
    assert_eq!(dag.nodes().len(), 4);
    assert_eq!(dag.stats().mc, 2);
}

#[test]
fn convertibility_rejects_nested_outputs() {
    let mut e = RecExpr::new();
    let a = e.add(sym("a"));
    let o = e.add(FheLang::Outputs(vec![a]));
    e.add(FheLang::Outputs(vec![o]));
    assert!(!e.dag_convertible());
    let mut empty_outputs = RecExpr::new();
    empty_outputs.add(FheLang::Outputs(vec![]));
    assert!(!empty_outputs.dag_convertible());
    assert!(!RecExpr::new().dag_convertible());
}

#[test]
fn fhe_cost_is_mc_times_md_squared() {
    let mut e = RecExpr::new();
    let a = e.add(sym("a"));
    let b = e.add(sym("b"));
    let m1 = e.add(FheLang::Mul(a, b));
    let m2 = e.add(FheLang::Mul(m1, a));
    let m3 = e.add(FheLang::Mul(m1, b));
    e.add(FheLang::Outputs(vec![m2, m3]));
    let st = Dag::from_recexpr(&e).stats();
    assert_eq!((st.mc, st.md, st.fhe_cost, st.total_nodes), (3, 2, 12, 5));
}

#[test]
fn evaluate_expr_keeps_input_text() {
    let ev = evaluate_expr("(* a b)".to_string(), &shared_expr());
    assert_eq!(ev.input, "(* a b)");
    assert_eq!(ev.stats.mc, 1);
    assert_eq!(ev.dag.roots(), &[3, 2]);
}

#[test]
fn md_cost_of_each_kind() {
    let mut f = MinMdTreeCost;
    let leaf = f.cost(FheLangDiscriminant::Symbol, &[]);
    assert_eq!(leaf, MdCost { md: 0, mc: 0, ast_size: 1 });
    assert_eq!(f.cost(FheLangDiscriminant::Num, &[]), leaf);
    let m = f.cost(FheLangDiscriminant::Mul, &[leaf, leaf]);
    assert_eq!(m, MdCost { md: 1, mc: 1, ast_size: 3 });
    let a = f.cost(FheLangDiscriminant::Add, &[m, leaf]);
    assert_eq!(a, MdCost { md: 1, mc: 1, ast_size: 5 });
    let n = f.cost(FheLangDiscriminant::Neg, &[m]);
    assert_eq!(n, MdCost { md: 1, mc: 1, ast_size: 4 });
    let mm = f.cost(FheLangDiscriminant::Mul, &[m, a]);
    assert_eq!(mm, MdCost { md: 2, mc: 3, ast_size: 9 });
    let o = f.cost(FheLangDiscriminant::Outputs, &[mm, n, leaf]);
    assert_eq!(o, MdCost { md: 2, mc: 4, ast_size: 14 });
}

#[test]
fn md_cost_orders_depth_first() {
    let shallow_many = MdCost { md: 1, mc: 9, ast_size: 50 };
    let deep_few = MdCost { md: 2, mc: 1, ast_size: 3 };
    assert!(shallow_many < deep_few);
    assert!(MdCost { md: 1, mc: 1, ast_size: 9 } < MdCost { md: 1, mc: 2, ast_size: 3 });
}

#[test]
fn global_mc_weights() {
    let mut w = GlobalMcCost;
    assert_eq!(w.node_weight(FheLangDiscriminant::Mul), 1);
    for k in [
        FheLangDiscriminant::Num,
        FheLangDiscriminant::Symbol,
        FheLangDiscriminant::Add,
        FheLangDiscriminant::Neg,
        FheLangDiscriminant::Outputs,
    ] {
        assert_eq!(w.node_weight(k), 0);
    }
}

#[test]
fn sharing_keeps_tree_md_and_lowers_tree_mc() {
    // Tree cost of shared_expr(), bottom-up: a, b leaves; a*b (twice);
    // (a*b) + (a*b); outputs over the sum and a*b.
    let mut f = MinMdTreeCost;
    let leaf = f.cost(FheLangDiscriminant::Symbol, &[]);
    let ab = f.cost(FheLangDiscriminant::Mul, &[leaf, leaf]);
    let s = f.cost(FheLangDiscriminant::Add, &[ab, ab]);
    let root = f.cost(FheLangDiscriminant::Outputs, &[s, ab]);
    assert_eq!((root.md, root.mc), (1, 3));
    let st = Dag::from_recexpr(&shared_expr()).stats();
    assert_eq!(st.md, root.md);
    assert!(st.mc <= root.mc);
    assert_eq!(st.mc, 1);
}

#[test]
fn every_interned_node_is_reachable() {
    let e = shared_expr();
    let dag = Dag::from_recexpr(&e);
    assert_eq!(dag.stats().total_nodes, dag.nodes().len());
}

#[test]
fn dag_from_parts_keeps_nodes_and_roots() {
    let nodes = vec![DagKey::Symbol("a".to_string()), DagKey::Mul(0, 0), DagKey::Add(1, 0)];
    let dag = Dag::from_parts(nodes.clone(), vec![2, 1]).unwrap();
    assert_eq!(dag.nodes(), &nodes[..]);
    assert_eq!(dag.roots(), &[2, 1]);
    assert_eq!(dag.stats().md, 1);
    // A node that refers to a later node, or a root that is not a node.
    assert!(Dag::from_parts(vec![DagKey::Neg(1), DagKey::Num(1)], vec![0]).is_none());
    assert!(Dag::from_parts(vec![DagKey::Num(1)], vec![1]).is_none());
}

#[test]
fn md_result_dag_has_the_tree_cost_md() {
    let e = shared_expr();
    let mut f = MinMdTreeCost;
    let leaf = f.cost(FheLangDiscriminant::Symbol, &[]);
    let ab = f.cost(FheLangDiscriminant::Mul, &[leaf, leaf]);
    let s = f.cost(FheLangDiscriminant::Add, &[ab, ab]);
    let root = f.cost(FheLangDiscriminant::Outputs, &[s, ab]);
    let r = md_optimization_result(InputKind::Formula("f".to_string()), e, root, 1, "Saturated".to_string());
    assert_eq!(r.dag_stats.md, r.md_cost.md);
}
