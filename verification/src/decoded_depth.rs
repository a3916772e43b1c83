//! The depth of a decoded selection: a program that encodes a selection
//! whose paths from the root pass at most `d` multiplications has
//! multiplicative depth at most `d`, and so has its shared DAG.
use vstd::prelude::*;
use crate::cost::{srcs_md, term_md};
use crate::intern::{expr_tree, source_roots};
use crate::lang::{relabel, spec_children, SpecLang};
use crate::md_mc_extractor::{
    children_fit, encodes, mip_wf, placed, placement, sel_edge, sel_path, selection, MipView,
    RecordView,
};
use crate::mip_formulation::{
    chosen, in_domains, lemma_first_selected, lemma_solutions_decode, path_muls, satisfies,
    spec_constraints, Assignment,
};

verus! {

/// Every record is marked a multiplication exactly when its node is one.
pub open spec fn kinds_consistent(recs: Seq<RecordView>) -> bool {
    forall|i: int| 0 <= i < recs.len() ==> #[trigger] recs[i].is_mul == (recs[i].node is Mul)
}

/// Every selected record exists and names classes below `n`.
pub open spec fn picks_fit(recs: Seq<RecordView>, pick: Seq<Option<usize>>, n: nat) -> bool {
    &&& forall|c: int|
        0 <= c < pick.len() && #[trigger] pick[c] is Some ==> (pick[c].unwrap() as int) < recs.len()
    &&& forall|i: int, j: int|
        0 <= i < recs.len() && 0 <= j < recs[i].children.len() ==> (#[trigger] recs[i].children[j]
            as int) < n
}

/// Every selected path from `root` passes at most `d` multiplications.
pub open spec fn muls_bounded(recs: Seq<RecordView>, pick: Seq<Option<usize>>, root: int, d: nat) -> bool {
    forall|p: Seq<int>|
        #[trigger] sel_path(recs, pick, p) && p[0] == root ==> path_muls(recs, pick, p) <= d
}

proof fn lemma_path_push(recs: Seq<RecordView>, pick: Seq<Option<usize>>, p: Seq<int>, x: int)
    requires
        sel_path(recs, pick, p),
        sel_edge(recs, pick, p.last(), x),
    ensures
        sel_path(recs, pick, p.push(x)),
        p.push(x)[0] == p[0],
        p.push(x).last() == x,
        path_muls(recs, pick, p.push(x)) == path_muls(recs, pick, p) + if recs[pick[p.last()].unwrap() as int].is_mul {
            1nat
        } else {
            0nat
        },
{
    let q = p.push(x);
    assert(q.drop_last() =~= p);
    assert(q[q.len() - 2] == p.last());
    assert forall|i: int| 0 <= i < q.len() - 1 implies sel_edge(recs, pick, #[trigger] q[i], q[i + 1]) by {
        if i < p.len() - 1 {
            assert(q[i] == p[i] && q[i + 1] == p[i + 1]);
        }
    }
}

/// The term at the node of a class reached from the root along `p0` is
/// no deeper than the multiplications left to spend after `p0`.
proof fn lemma_term_depth(
    expr: Seq<SpecLang>,
    pos: Seq<Option<usize>>,
    recs: Seq<RecordView>,
    pick: Seq<Option<usize>>,
    root: int,
    d: nat,
    c: int,
    p0: Seq<int>,
)
    requires
        placement(expr, pos, recs, pick),
        kinds_consistent(recs),
        picks_fit(recs, pick, pos.len()),
        muls_bounded(recs, pick, root, d),
        sel_path(recs, pick, p0),
        p0[0] == root,
        p0.last() == c,
        0 <= c < pos.len(),
        pos[c] is Some,
    ensures
        term_md(expr_tree(expr, pos[c].unwrap() as int)) + path_muls(recs, pick, p0) <= d,
    decreases pos[c].unwrap(),
{
    let q = pos[c].unwrap() as int;
    assert(placed(expr, pos, recs, pick, c));
    let ri = pick[c].unwrap() as int;
    let r = recs[ri];
    assert(recs[ri].is_mul == (r.node is Mul));
    let ch = spec_children(expr[q]);
    assert(expr[q] == relabel(r.node, ch));
    if ch.len() >= 1 && ch[0] < q && (ch.len() < 2 || ch[1] < q) && !(expr[q] is Outputs) {
        assert(expr[q] is Mul <==> r.node is Mul);
        let c0 = r.children[0] as int;
        assert(pos[c0] == Some(ch[0]));
        assert(c0 < pos.len());
        assert(sel_edge(recs, pick, c, c0));
        lemma_path_push(recs, pick, p0, c0);
        lemma_term_depth(expr, pos, recs, pick, root, d, c0, p0.push(c0));
        if ch.len() >= 2 {
            let c1 = r.children[1] as int;
            assert(pos[c1] == Some(ch[1]));
            assert(c1 < pos.len());
            assert(sel_edge(recs, pick, c, c1));
            lemma_path_push(recs, pick, p0, c1);
            lemma_term_depth(expr, pos, recs, pick, root, d, c1, p0.push(c1));
        }
    } else {
        assert(path_muls(recs, pick, p0) <= d);
    }
}

proof fn lemma_srcs_md_bound(e: Seq<SpecLang>, srcs: Seq<usize>, d: nat)
    requires
        forall|k: int| 0 <= k < srcs.len() ==> term_md(expr_tree(e, #[trigger] srcs[k] as int)) <= d,
    ensures
        srcs_md(e, srcs) <= d,
    decreases srcs.len(),
{
    if srcs.len() > 0 {
        assert(srcs.last() == srcs[srcs.len() - 1]);
        assert forall|k: int| 0 <= k < srcs.drop_last().len() implies term_md(
            expr_tree(e, #[trigger] srcs.drop_last()[k] as int),
        ) <= d by {
            assert(srcs.drop_last()[k] == srcs[k]);
        }
        lemma_srcs_md_bound(e, srcs.drop_last(), d);
    }
}

/// A program that encodes a closed selection under `root` whose selected
/// paths from the root pass at most `d` multiplications has multiplicative
/// depth at most `d`: the MD of the program's tree cost, and of its shared
/// DAG, is within the bound.
pub proof fn lemma_encoded_depth(
    expr: Seq<SpecLang>,
    pos: Seq<Option<usize>>,
    recs: Seq<RecordView>,
    pick: Seq<Option<usize>>,
    root: int,
    d: nat,
)
    requires
        encodes(expr, pos, recs, pick, root),
        expr.len() <= usize::MAX,
        kinds_consistent(recs),
        picks_fit(recs, pick, pos.len()),
        muls_bounded(recs, pick, root, d),
    ensures
        srcs_md(expr, source_roots(expr)) <= d,
{
    let q = expr.len() - 1;
    assert(pos[root] is Some);
    assert(placed(expr, pos, recs, pick, root));
    assert(pos[root].unwrap() as int == q);
    let r = recs[pick[root].unwrap() as int];
    let p0 = seq![root];
    assert(sel_path(recs, pick, p0));
    assert(path_muls(recs, pick, p0) == 0);
    let srcs = source_roots(expr);
    if expr[q] is Outputs {
        let ch = spec_children(expr[q]);
        assert(expr[q] == relabel(r.node, ch));
        assert(r.node is Outputs);
        assert(srcs == ch);
        assert(r.children.len() == ch.len());
        assert forall|k: int| 0 <= k < srcs.len() implies term_md(
            expr_tree(expr, #[trigger] srcs[k] as int),
        ) <= d by {
            let ck = r.children[k] as int;
            assert(pos[ck] == Some(ch[k]));
            assert(ck < pos.len());
            assert(sel_edge(recs, pick, root, ck));
            lemma_path_push(recs, pick, p0, ck);
            lemma_term_depth(expr, pos, recs, pick, root, d, ck, p0.push(ck));
        }
        lemma_srcs_md_bound(expr, srcs, d);
    } else {
        assert(srcs == seq![q as usize]);
        lemma_term_depth(expr, pos, recs, pick, root, d, root, p0);
        assert forall|k: int| 0 <= k < srcs.len() implies term_md(
            expr_tree(expr, #[trigger] srcs[k] as int),
        ) <= d by {}
        lemma_srcs_md_bound(expr, srcs, d);
    }
}

/// The program decoded from a solution of the integer program of `m` has
/// multiplicative depth at most the bound `m.md_limit`: the MD of its tree
/// cost, which is also the MD of its shared DAG, is within the bound.
pub proof fn lemma_solution_within_bound(
    m: MipView,
    a: Assignment,
    expr: Seq<SpecLang>,
    pos: Seq<Option<usize>>,
)
    requires
        mip_wf(m),
        m.records.len() <= usize::MAX,
        m.class_ids.len() <= usize::MAX,
        in_domains(m, a),
        satisfies(spec_constraints(m), a),
        encodes(
            expr,
            pos,
            m.records,
            selection(m.records, chosen(a), m.class_ids.len()),
            m.root_index as int,
        ),
        expr.len() <= usize::MAX,
    ensures
        srcs_md(expr, source_roots(expr)) <= m.md_limit,
{
    let recs = m.records;
    let n = m.class_ids.len();
    let pick = selection(recs, chosen(a), n);
    lemma_solutions_decode(m, a);
    assert forall|i: int| 0 <= i < recs.len() implies #[trigger] recs[i].is_mul == (recs[i].node is Mul) by {
        assert(children_fit(recs[i], n));
    }
    assert forall|c: int| 0 <= c < pick.len() && #[trigger] pick[c] is Some implies (pick[c].unwrap() as int)
        < recs.len() by {
        lemma_first_selected(recs, chosen(a), c, recs.len() as int);
    }
    assert forall|i: int, j: int| 0 <= i < recs.len() && 0 <= j < recs[i].children.len() implies (
    #[trigger] recs[i].children[j] as int) < pos.len() by {
        assert(children_fit(recs[i], n));
    }
    lemma_encoded_depth(expr, pos, recs, pick, m.root_index as int, m.md_limit);
}

} // verus!
