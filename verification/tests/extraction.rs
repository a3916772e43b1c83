use fhe_egraph::mip_formulation::{solver_outcome, MipVar, Sense, SolveStatus, VarDomain};
use fhe_egraph::class_analysis::{collect_root_reachable_classes, EGraphSnapshot};
use fhe_egraph::lang::{FheLang, RecExpr};
use fhe_egraph::md_mc_extractor::MdMcExtractor;
use fhe_egraph::optimizer::{
    global_mc_optimization_result, md_optimization_result, mc_under_md_result, InputKind,
};
use fhe_egraph::cost::MdCost;
use fhe_egraph::dag::DagKey;

fn sym(s: &str) -> FheLang {
    FheLang::Symbol(s.to_string())
}

/// a, b, a*b, {a*b + a*b, (a*b) * 2}, outputs, 2, and an unreachable class.
fn sample() -> EGraphSnapshot {
    EGraphSnapshot::from_classes(vec![
        vec![sym("a")],
        vec![sym("b")],
        vec![FheLang::Mul(0, 1)],
        vec![FheLang::Add(2, 2), FheLang::Mul(2, 5)],
        vec![FheLang::Outputs(vec![3])],
        vec![FheLang::Num(2)],
        vec![sym("unused")],
    ])
    .unwrap()
}

#[test]
fn snapshot_rejects_dangling_children() {
    assert_eq!(
        EGraphSnapshot::from_classes(vec![vec![FheLang::Neg(1)]]).err().unwrap(),
        "E-node child 1 is not an e-class"
    );
    let g = EGraphSnapshot::from_classes(vec![vec![FheLang::Neg(0)]]).unwrap();
    assert_eq!(g.class_count(), 1);
}

#[test]
fn reachable_classes_in_snapshot_order() {
    let g = sample();
    assert_eq!(collect_root_reachable_classes(&g, 4), vec![0, 1, 2, 3, 4, 5]);
    assert_eq!(collect_root_reachable_classes(&g, 2), vec![0, 1, 2]);
    assert_eq!(collect_root_reachable_classes(&g, 6), vec![6]);
}

#[test]
fn model_prunes_by_lower_bounds() {
    let g = sample();
    let ex = MdMcExtractor::new(&g, 4);
    let m = ex.build_model(1).unwrap();
    assert_eq!(m.md_limit(), 1);
    assert_eq!(m.class_ids(), &[0, 1, 2, 3, 4, 5]);
    assert_eq!(m.root_index(), 4);
    assert_eq!(m.min_depth_lb(), &[Some(0), Some(0), Some(1), Some(1), Some(1), Some(0)]);
    let recs = m.records();
    assert_eq!(recs.len(), 6);
    assert_eq!(recs[3].owner, 3);
    assert!(matches!(recs[3].node, FheLang::Add(2, 2)));
    assert_eq!(recs[3].children, vec![2, 2]);
    assert_eq!(recs[2].min_depth, 1);
    assert!(recs[2].is_mul);
    assert_eq!(m.nodes_by_class(), &vec![vec![0], vec![1], vec![2], vec![3], vec![4], vec![5]]);
    assert_eq!(
        m.parent_records(),
        &vec![vec![2], vec![2], vec![3], vec![4], vec![], vec![]]
    );
}

#[test]
fn model_keeps_deeper_candidates_under_larger_bound() {
    let g = sample();
    let m = MdMcExtractor::new(&g, 4).build_model(2).unwrap();
    assert_eq!(m.records().len(), 7);
    assert_eq!(m.nodes_by_class()[3], vec![3, 4]);
    assert_eq!(m.records()[4].min_depth, 2);
    assert_eq!(
        m.parent_records(),
        &vec![vec![2], vec![2], vec![3, 4], vec![5], vec![], vec![4]]
    );
}

#[test]
fn model_refuses_bound_below_root_lower_bound() {
    let g = sample();
    let e = MdMcExtractor::new(&g, 4).build_model(0).err().unwrap();
    assert_eq!(e, "MD bound 0 is infeasible: the output root has lower-bound MD 1");
}

#[test]
fn model_refuses_root_without_finite_derivation() {
    let g = EGraphSnapshot::from_classes(vec![
        vec![FheLang::Neg(1)],
        vec![FheLang::Neg(0)],
        vec![FheLang::Outputs(vec![0])],
    ])
    .unwrap();
    let e = MdMcExtractor::new(&g, 2).build_model(5).err().unwrap();
    assert_eq!(e, "The output root has no finite acyclic derivation in the saturated e-graph");
}

#[test]
fn model_prunes_self_dependent_root_candidate() {
    // The root's second implementation uses its own class.
    let g = EGraphSnapshot::from_classes(vec![
        vec![sym("x")],
        vec![FheLang::Outputs(vec![0]), FheLang::Add(0, 1)],
    ])
    .unwrap();
    let m = MdMcExtractor::new(&g, 1).build_model(0).unwrap();
    assert_eq!(m.nodes_by_class()[1], vec![1]);
    assert_eq!(m.records().len(), 2);
}

#[test]
fn model_refuses_product_root_at_depth_zero() {
    let g = EGraphSnapshot::from_classes(vec![
        vec![sym("x")],
        vec![FheLang::Mul(0, 0)],
        vec![FheLang::Outputs(vec![1])],
    ])
    .unwrap();
    let e = MdMcExtractor::new(&g, 2).build_model(0).err().unwrap();
    assert_eq!(e, "MD bound 0 is infeasible: the output root has lower-bound MD 1");
}

#[test]
fn decode_selected_dag_in_post_order() {
    let g = sample();
    let m = MdMcExtractor::new(&g, 4).build_model(2).unwrap();
    let (expr, mc) = m.decode(&[true, true, true, true, false, true, false]).unwrap();
    assert_eq!(mc, 1);
    assert_eq!(expr.len(), 5);
    assert!(matches!(expr.get(0), FheLang::Symbol(s) if s == "a"));
    assert!(matches!(expr.get(1), FheLang::Symbol(s) if s == "b"));
    assert!(matches!(expr.get(2), FheLang::Mul(0, 1)));
    assert!(matches!(expr.get(3), FheLang::Add(2, 2)));
    assert!(matches!(expr.get(4), FheLang::Outputs(c) if c == &vec![3]));

    let r = mc_under_md_result(InputKind::Formula("f".to_string()), 2, expr, mc, 3, "Saturated".to_string())
        .unwrap();
    assert_eq!(r.optimal_mc, 1);
    assert_eq!(r.dag_stats.md, 1);
    assert_eq!(r.dag.nodes().len(), 4);
    assert_eq!(r.iterations, 3);
}

#[test]
fn decode_deeper_selection() {
    let g = sample();
    let m = MdMcExtractor::new(&g, 4).build_model(2).unwrap();
    let (expr, mc) = m.decode(&[true, true, true, false, true, true, true]).unwrap();
    assert_eq!(mc, 2);
    assert_eq!(expr.len(), 6);
    assert!(matches!(expr.get(3), FheLang::Num(2)));
    assert!(matches!(expr.get(4), FheLang::Mul(2, 3)));
}

#[test]
fn decode_refuses_two_implementations() {
    let g = sample();
    let m = MdMcExtractor::new(&g, 4).build_model(2).unwrap();
    let e = m.decode(&[true, true, true, true, true, true, false]).err().unwrap();
    assert_eq!(e, "Solver selected more than one implementation for e-class 3");
}

#[test]
fn decode_refuses_unselected_root() {
    let g = sample();
    let m = MdMcExtractor::new(&g, 4).build_model(2).unwrap();
    let e = m.decode(&[true, true, true, true, false, false, false]).err().unwrap();
    assert_eq!(e, "Solver did not select an implementation for the root e-class");
}

#[test]
fn decode_refuses_missing_child() {
    let g = sample();
    let m = MdMcExtractor::new(&g, 4).build_model(2).unwrap();
    let e = m.decode(&[true, true, true, false, true, true, false]).err().unwrap();
    assert_eq!(e, "Selected parent requires e-class 5, but no implementation was selected");
}

#[test]
fn decode_refuses_cycle() {
    let g = EGraphSnapshot::from_classes(vec![
        vec![sym("x"), FheLang::Neg(1)],
        vec![FheLang::Neg(0)],
        vec![FheLang::Outputs(vec![0])],
    ])
    .unwrap();
    let m = MdMcExtractor::new(&g, 2).build_model(0).unwrap();
    assert_eq!(m.records().len(), 4);
    let e = m.decode(&[false, true, true, true]).err().unwrap();
    assert_eq!(e, "Selected implementations form a cycle through e-class 0");
    let (expr, mc) = m.decode(&[true, false, false, true]).unwrap();
    assert_eq!((expr.len(), mc), (2, 0));
}

#[test]
fn self_dependent_candidate_is_pruned() {
    let g = EGraphSnapshot::from_classes(vec![
        vec![sym("x"), FheLang::Neg(0)],
        vec![FheLang::Outputs(vec![0])],
    ])
    .unwrap();
    let m = MdMcExtractor::new(&g, 1).build_model(3).unwrap();
    assert_eq!(m.records().len(), 2);
    assert_eq!(m.nodes_by_class()[0], vec![0]);
}

#[test]
fn mc_under_md_validation_errors() {
    let mut e = RecExpr::new();
    let a = e.add(sym("a"));
    let m = e.add(FheLang::Mul(a, a));
    e.add(FheLang::Outputs(vec![m]));
    let err = mc_under_md_result(InputKind::Formula("f".to_string()), 0, e, 1, 0, String::new())
        .err()
        .unwrap();
    assert_eq!(err, "Internal validation failed: extracted DAG has MD=1 > requested limit 0");

    let mut e = RecExpr::new();
    let a = e.add(sym("a"));
    let m = e.add(FheLang::Mul(a, a));
    e.add(FheLang::Outputs(vec![m]));
    let err = mc_under_md_result(InputKind::Formula("f".to_string()), 1, e, 2, 0, String::new())
        .err()
        .unwrap();
    assert_eq!(err, "Internal validation failed: MIP MC=2 but materialized DAG MC=1");
}

#[test]
fn md_and_global_results_carry_dag_and_stats() {
    let mut e = RecExpr::new();
    let a = e.add(sym("a"));
    let b = e.add(sym("b"));
    let m = e.add(FheLang::Mul(a, b));
    e.add(FheLang::Outputs(vec![m, a]));
    let cost = MdCost { md: 1, mc: 1, ast_size: 4 };
    let r = md_optimization_result(
        InputKind::Dag { node_count: 3, output_count: 2 },
        e,
        cost,
        7,
        "Saturated".to_string(),
    );
    assert_eq!(r.md_cost, cost);
    assert_eq!(r.dag.roots(), &[2, 0]);
    assert_eq!(r.dag.nodes()[2], DagKey::Mul(0, 1));
    assert_eq!((r.dag_stats.mc, r.dag_stats.md, r.dag_stats.total_nodes), (1, 1, 3));
    assert_eq!(r.stop_reason, "Saturated");

    let mut e = RecExpr::new();
    let a = e.add(FheLang::Num(5));
    e.add(FheLang::Neg(a));
    let g = global_mc_optimization_result(InputKind::Formula("(- 5)".to_string()), e, 1, String::new());
    assert_eq!(g.dag.nodes(), &[DagKey::Num(5), DagKey::Neg(0)]);
    assert_eq!(g.dag_stats.mc, 0);
    assert!(matches!(g.input, InputKind::Formula(ref s) if s == "(- 5)"));
}

#[test]
fn model_is_reproducible() {
    let g = sample();
    let ex = MdMcExtractor::new(&g, 4);
    let m1 = ex.build_model(2).unwrap();
    let m2 = ex.build_model(2).unwrap();
    assert_eq!(m1.class_ids(), m2.class_ids());
    assert_eq!(m1.min_depth_lb(), m2.min_depth_lb());
    assert_eq!(m1.nodes_by_class(), m2.nodes_by_class());
    assert_eq!(m1.parent_records(), m2.parent_records());
    assert_eq!(m1.records().len(), m2.records().len());
    for (a, b) in m1.records().iter().zip(m2.records()) {
        assert_eq!((a.owner, &a.children, a.is_mul, a.min_depth), (b.owner, &b.children, b.is_mul, b.min_depth));
    }
}

#[test]
fn bounds_are_least_derivation_depths() {
    // x, x*x, (x*x)*(x*x) or x*(x*x), and a class that only derives from itself.
    let g = EGraphSnapshot::from_classes(vec![
        vec![sym("x")],
        vec![FheLang::Mul(0, 0)],
        vec![FheLang::Mul(1, 1), FheLang::Mul(0, 1)],
        vec![FheLang::Neg(3), FheLang::Add(2, 3)],
        vec![FheLang::Outputs(vec![2, 3])],
    ])
    .unwrap();
    let e = MdMcExtractor::new(&g, 4).build_model(9).err().unwrap();
    assert_eq!(e, "The output root has no finite acyclic derivation in the saturated e-graph");
    let m = MdMcExtractor::new(&g, 2).build_model(2).unwrap();
    assert_eq!(m.class_ids(), &[0, 1, 2]);
    assert_eq!(m.min_depth_lb(), &[Some(0), Some(1), Some(2)]);
}

#[test]
fn program_constraints_of_sample_model() {
    let g = sample();
    let m = MdMcExtractor::new(&g, 4).build_model(1).unwrap();
    let cs = m.constraints();
    assert_eq!(cs.len(), 48);
    assert_eq!(cs[0].terms, vec![(MipVar::Used(4), 1)]);
    assert_eq!((cs[0].sense, cs[0].rhs), (Sense::Eq, 1));
    // Class 2 selects its one record.
    assert_eq!(cs[3].terms, vec![(MipVar::Selected(2), 1), (MipVar::Used(2), -1)]);
    // Witness bounds of class 0: depth <= 1 * used, depth >= 0 * used, rank <= 6 * used.
    assert_eq!(cs[7].terms, vec![(MipVar::Depth(0), 1), (MipVar::Used(0), -1)]);
    assert_eq!(cs[7].sense, Sense::Le);
    assert_eq!(cs[8].sense, Sense::Ge);
    assert_eq!(cs[9].terms, vec![(MipVar::Rank(0), 1), (MipVar::Used(0), -6)]);
    // The last rows: depth propagation of the outputs record over class 3.
    let last = &cs[47];
    assert_eq!(
        last.terms,
        vec![(MipVar::Depth(3), 1), (MipVar::Depth(4), -1), (MipVar::Selected(4), 1)]
    );
    assert_eq!((last.sense, last.rhs), (Sense::Le, 1));
    let rank = &cs[46];
    assert_eq!(
        rank.terms,
        vec![(MipVar::Rank(3), 1), (MipVar::Rank(4), -1), (MipVar::Selected(4), 7)]
    );
    assert_eq!(rank.rhs, 6);
    assert_eq!(m.objective(), vec![2]);
    assert_eq!(m.domain(MipVar::Used(0)), VarDomain::Binary);
    assert_eq!(m.domain(MipVar::Depth(3)), VarDomain::UpTo(1));
    assert_eq!(m.domain(MipVar::Rank(3)), VarDomain::UpTo(6));
}

#[test]
fn solver_outcome_accepts_only_certified_optimum() {
    assert!(solver_outcome(Ok(SolveStatus::Optimal), 3, 1000).is_ok());
    assert_eq!(
        solver_outcome(Ok(SolveStatus::TimeLimit), 3, 1000).err().unwrap(),
        "Stage-3 MIP ended with status TimeLimit for MD <= 3; no exact MC optimum was certified within 1000.0s"
    );
    assert_eq!(
        solver_outcome(Ok(SolveStatus::GapLimit), 0, 5).err().unwrap(),
        "Stage-3 MIP ended with status GapLimit for MD <= 0; no exact MC optimum was certified within 5.0s"
    );
    assert_eq!(
        solver_outcome(Err("infeasible".to_string()), 2, 1000).err().unwrap(),
        "Stage-3 MIP failed for MD <= 2 within 1000.0s (HiGHS/MIP: infeasible)"
    );
}

#[test]
fn decoded_selection_stays_within_the_bound() {
    // Under MD <= 1 the product (a*b) * 2 is pruned; the selection of
    // a, b, a*b, a*b + a*b and the outputs satisfies the program.
    let g = sample();
    let m = MdMcExtractor::new(&g, 4).build_model(1).unwrap();
    let (expr, mc) = m.decode(&[true, true, true, true, true, false]).unwrap();
    assert_eq!(mc, 1);
    let r = mc_under_md_result(InputKind::Formula("f".to_string()), 1, expr, mc, 1, "Saturated".to_string())
        .unwrap();
    assert!(r.dag_stats.md <= 1);
    assert_eq!(r.dag_stats.md, 1);
}
