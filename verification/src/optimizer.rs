//! The results of the three extractions from one saturated e-graph, and
//! what each extraction computes once its extractor has chosen a program:
//! the program's DAG and statistics, and, for the depth-bounded extraction,
//! the validation of the chosen program against the bound and the
//! objective that the solver reported.
use vstd::prelude::*;
use crate::cost::{program_cost, srcs_mc, srcs_md, MdCost};
use crate::dag::{spec_stats, Dag, DagStats};
use crate::evaluator::stats_match;
use crate::intern::{dag_convertible, source_roots, spec_from_recexpr};
use crate::lang::RecExpr;
use crate::text::{append_chars, nat_digits, str_chars, string_from_chars, usize_digits};

verus! {

/// Metadata about the input program, carried with the saturated
/// e-graph so that every extraction result can be reported without
/// reparsing the input.
#[derive(Debug, Clone)]
pub enum InputKind {
    Formula(String),
    Dag { node_count: usize, output_count: usize },
}

pub struct MdOptimizationResult {
    pub input: InputKind,
    pub best: RecExpr,
    pub md_cost: MdCost,
    pub dag: Dag,
    pub dag_stats: DagStats,
    pub iterations: usize,
    pub stop_reason: String,
}

pub struct GlobalMcOptimizationResult {
    pub input: InputKind,
    pub best: RecExpr,
    pub dag: Dag,
    pub dag_stats: DagStats,
    pub iterations: usize,
    pub stop_reason: String,
}

/// Globally MC-minimal extraction subject to a caller-provided MD upper
/// bound.
pub struct MdMcOptimizationResult {
    pub input: InputKind,
    /// Requested feasibility bound: the extracted DAG satisfies
    /// `MD <= md_limit`.
    pub md_limit: usize,
    /// Globally selected multi-output expression.
    pub best: RecExpr,
    pub dag: Dag,
    pub dag_stats: DagStats,
    /// Objective value reported by the solver, equal to `dag_stats.mc`.
    pub optimal_mc: usize,
    pub iterations: usize,
    pub stop_reason: String,
}

/// `dag` is the DAG of the extracted program `best`.
pub open spec fn dag_of(best: RecExpr, dag: Dag) -> bool {
    (dag@.nodes, dag@.roots.map_values(|r: usize| r as nat)) == spec_from_recexpr(best@)
}

/// `(mc, md, fhe_cost, total_nodes)` of the DAG of a program.
pub open spec fn program_stats(best: RecExpr) -> (nat, nat, nat, nat) {
    let (nodes, roots) = spec_from_recexpr(best@);
    spec_stats(nodes, roots.map_values(|r: nat| r as usize))
}

proof fn lemma_dag_stats(best: RecExpr, dag: Dag, s: DagStats)
    requires
        dag_of(best, dag),
        stats_match(s, dag),
    ensures
        s.mc == program_stats(best).0,
        s.md == program_stats(best).1,
{
    let roots = dag@.roots.map_values(|r: usize| r as nat);
    assert(roots.map_values(|r: nat| r as usize) =~= dag@.roots);
}

/// The result of the depth-minimal tree extraction of `best`, whose tree
/// cost is `md_cost`. The DAG's MD is the MD of `best`'s tree cost.
pub fn md_optimization_result(
    input: InputKind,
    best: RecExpr,
    md_cost: MdCost,
    iterations: usize,
    stop_reason: String,
) -> (res: MdOptimizationResult)
    requires
        dag_convertible(best@),
    ensures
        res.input == input,
        res.best@ == best@,
        res.md_cost == md_cost,
        dag_of(best, res.dag),
        stats_match(res.dag_stats, res.dag),
        res.dag_stats.md == srcs_md(best@, source_roots(best@)),
        srcs_mc(best@, source_roots(best@)) <= usize::MAX ==> res.dag_stats.md
            == program_cost(best@).md,
        res.iterations == iterations,
        res.stop_reason == stop_reason,
{
    let dag = Dag::from_recexpr(&best);
    let dag_stats = dag.stats();
    MdOptimizationResult { input, best, md_cost, dag, dag_stats, iterations, stop_reason }
}

/// The result of the global MC-minimal extraction of `best`.
pub fn global_mc_optimization_result(
    input: InputKind,
    best: RecExpr,
    iterations: usize,
    stop_reason: String,
) -> (res: GlobalMcOptimizationResult)
    requires
        dag_convertible(best@),
    ensures
        res.input == input,
        res.best@ == best@,
        dag_of(best, res.dag),
        stats_match(res.dag_stats, res.dag),
        res.iterations == iterations,
        res.stop_reason == stop_reason,
{
    let dag = Dag::from_recexpr(&best);
    let dag_stats = dag.stats();
    GlobalMcOptimizationResult { input, best, dag, dag_stats, iterations, stop_reason }
}

pub open spec fn depth_violation_text(md: nat, limit: nat) -> Seq<char> {
    "Internal validation failed: extracted DAG has MD="@ + nat_digits(md) + " > requested limit "@
        + nat_digits(limit)
}

pub open spec fn count_mismatch_text(optimal: nat, mc: nat) -> Seq<char> {
    "Internal validation failed: MIP MC="@ + nat_digits(optimal) + " but materialized DAG MC="@
        + nat_digits(mc)
}

/// The result of the MC-minimal extraction under `MD <= md_limit` of
/// `best`, for which the solver reported `optimal_mc` multiplications. The
/// materialized DAG is checked against both: a deeper DAG, or one whose
/// multiplication count differs, is refused.
pub fn mc_under_md_result(
    input: InputKind,
    md_limit: usize,
    best: RecExpr,
    optimal_mc: usize,
    iterations: usize,
    stop_reason: String,
) -> (res: Result<MdMcOptimizationResult, String>)
    requires
        dag_convertible(best@),
    ensures
        ({
            let mc = program_stats(best).0;
            let md = program_stats(best).1;
            &&& md > md_limit ==> (res matches Err(e) && e@ == depth_violation_text(md, md_limit as nat))
            &&& md <= md_limit && mc != optimal_mc ==> (res matches Err(e) && e@ == count_mismatch_text(
                optimal_mc as nat,
                mc,
            ))
            &&& md <= md_limit && mc == optimal_mc ==> res is Ok
        }),
        res matches Ok(r) ==> {
            &&& r.input == input
            &&& r.md_limit == md_limit
            &&& r.best@ == best@
            &&& dag_of(best, r.dag)
            &&& stats_match(r.dag_stats, r.dag)
            &&& r.optimal_mc == optimal_mc
            &&& r.iterations == iterations
            &&& r.stop_reason == stop_reason
        },
{
    let dag = Dag::from_recexpr(&best);
    let dag_stats = dag.stats();
    proof {
        lemma_dag_stats(best, dag, dag_stats);
    }
    if dag_stats.md > md_limit {
        proof {
            reveal_strlit("Internal validation failed: extracted DAG has MD=");
            reveal_strlit(" > requested limit ");
        }
        let mut m = str_chars("Internal validation failed: extracted DAG has MD=");
        append_chars(&mut m, &usize_digits(dag_stats.md));
        append_chars(&mut m, &str_chars(" > requested limit "));
        append_chars(&mut m, &usize_digits(md_limit));
        return Err(string_from_chars(m.as_slice()));
    }
    if dag_stats.mc != optimal_mc {
        proof {
            reveal_strlit("Internal validation failed: MIP MC=");
            reveal_strlit(" but materialized DAG MC=");
        }
        let mut m = str_chars("Internal validation failed: MIP MC=");
        append_chars(&mut m, &usize_digits(optimal_mc));
        append_chars(&mut m, &str_chars(" but materialized DAG MC="));
        append_chars(&mut m, &usize_digits(dag_stats.mc));
        return Err(string_from_chars(m.as_slice()));
    }
    Ok(MdMcOptimizationResult {
        input,
        md_limit,
        best,
        dag,
        dag_stats,
        optimal_mc,
        iterations,
        stop_reason,
    })
}

} // verus!
