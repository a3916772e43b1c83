//! Evaluation of a program as written: its DAG and statistics, without any
//! e-graph construction, rewriting or extraction.
use vstd::prelude::*;
use crate::dag::{spec_stats, Dag, DagStats};
use crate::dag_parser::{spec_parse, ProgramDag};
use crate::intern::{dag_convertible, spec_from_recexpr};
use crate::lang::RecExpr;
use crate::text::{str_chars, string_from_chars, trim, trim_chars};

verus! {

pub struct DagEvaluation {
    pub input: String,
    pub dag: Dag,
    pub stats: DagStats,
}

/// The statistics of a DAG as the view of a `DagStats`.
pub open spec fn stats_match(s: DagStats, d: Dag) -> bool {
    (s.mc as nat, s.md as nat, s.fhe_cost as nat, s.total_nodes as nat) == spec_stats(
        d@.nodes,
        d@.roots,
    )
}

/// Evaluate the textual DAG exactly as written, preserving its explicit
/// sharing.
pub fn evaluate_dag(input: &str) -> (res: Result<DagEvaluation, String>)
    ensures
        match spec_parse(input@) {
            Ok(st) => res matches Ok(ev) && ev.input@ == trim(input@) && ev.dag@.nodes == st.nodes
                && ev.dag@.roots == st.outputs && stats_match(ev.stats, ev.dag),
            Err(m) => res matches Err(e) && e@ == m,
        },
{
    let program = match ProgramDag::parse(input) {
        Ok(p) => p,
        Err(e) => return Err(e),
    };
    proof {
        crate::dag_parser::lemma_parse_outputs(input@);
    }
    let dag = match program.to_dag() {
        Ok(d) => d,
        Err(e) => return Err(e),
    };
    let stats = dag.stats();
    let chars = str_chars(input);
    let trimmed = trim_chars(&chars);
    Ok(DagEvaluation { input: string_from_chars(&trimmed), dag, stats })
}

/// Evaluate an already parsed one-output (or multi-output) program as a
/// DAG; `input` is its printed form.
pub fn evaluate_expr(input: String, expr: &RecExpr) -> (res: DagEvaluation)
    requires
        dag_convertible(expr@),
    ensures
        res.input == input,
        (res.dag@.nodes, res.dag@.roots.map_values(|r: usize| r as nat)) == spec_from_recexpr(
            expr@,
        ),
        stats_match(res.stats, res.dag),
{
    let dag = Dag::from_recexpr(expr);
    let stats = dag.stats();
    DagEvaluation { input, dag, stats }
}

} // verus!
