//! Completeness of the integer program: every acyclic extraction from the
//! model's records whose multiplicative depth is within the bound, written
//! as an assignment of the program's variables, satisfies every
//! constraint. The depth bounds that strengthen the program cut off no such
//! extraction.
use vstd::prelude::*;
use crate::class_analysis::{
    best_node, candidate, children_max, children_modelled, index_exact, is_fixed_point,
    lemma_children_modelled, lb_of, opt_le, opt_min, opt_nat, reachable_list, snapshot_wf,
};
use crate::lang::{spec_children, SpecLang};
use crate::md_mc_extractor::{
    all_records, children_fit, class_records, map_children, max_lb, mip_wf, model_of, node_record,
    MipView, RecordView,
};
use crate::mip_formulation::{
    child_pairs, child_use_rows, concat, depth_row, holds, in_domains, lemma_linear2,
    lemma_linear3, lemma_linear_one, lemma_linear_selected, lemma_sum_sel, linear, one_impl_rows,
    parent_rows, rank_row, record_rows, root_row, row, satisfies, selected_terms, spec_constraints,
    sum_sel, value, witness_rows, Assignment, ConstraintView, MipVar, Sense,
};

verus! {

// ---------------------------------------------------------------------
// Extractions as assignments
// ---------------------------------------------------------------------
/// The largest depth among the classes `ch` (0 for none).
pub open spec fn deepest(ch: Seq<usize>, depth: Seq<int>) -> int
    decreases ch.len(),
{
    if ch.len() == 0 {
        0
    } else {
        vstd::math::max(deepest(ch.drop_last(), depth), depth[ch.last() as int])
    }
}

/// The multiplicative depth that record `r` realizes over the depths of
/// its child classes: the deepest child, plus one for a multiplication.
pub open spec fn realized_depth(r: RecordView, depth: Seq<int>) -> int {
    deepest(r.children, depth) + if r.is_mul {
        1int
    } else {
        0int
    }
}

/// A selected record belongs to a used class, whose other records are not
/// selected.
#[verifier::opaque]
pub open spec fn owners_used(m: MipView, a: Assignment) -> bool {
    let recs = m.records;
    &&& forall|r: int|
        0 <= r < recs.len() && #[trigger] a.sel[r] == 1 ==> a.used[recs[r].owner as int] == 1
    &&& forall|r1: int, r2: int|
        0 <= r1 < recs.len() && 0 <= r2 < recs.len() && r1 != r2 && #[trigger] a.sel[r1] == 1
            && #[trigger] a.sel[r2] == 1 ==> recs[r1].owner != recs[r2].owner
}

/// The children of a selected record are used and ranked below its class.
#[verifier::opaque]
pub open spec fn children_below(m: MipView, a: Assignment) -> bool {
    let recs = m.records;
    forall|r: int, j: int|
        0 <= r < recs.len() && a.sel[r] == 1 && 0 <= j < recs[r].children.len() ==> a.used[
            #[trigger] recs[r].children[j] as int] == 1 && a.rank[recs[r].children[j] as int]
            < a.rank[recs[r].owner as int]
}

/// Every used class has a selected record.
#[verifier::opaque]
pub open spec fn used_implemented(m: MipView, a: Assignment) -> bool {
    forall|c: int|
        0 <= c < m.class_ids.len() && #[trigger] a.used[c] == 1 ==> exists|r: int|
            0 <= r < m.records.len() && m.records[r].owner == c && #[trigger] a.sel[r] == 1
}

/// Every used class but the root is a child of a selected record.
#[verifier::opaque]
pub open spec fn used_has_parent(m: MipView, a: Assignment) -> bool {
    forall|c: int|
        0 <= c < m.class_ids.len() && c != m.root_index && #[trigger] a.used[c] == 1 ==> exists|r: int|
            0 <= r < m.records.len() && #[trigger] a.sel[r] == 1 && m.records[r].children.contains(
                c as usize,
            )
}

/// Each used class sits at the depth its selected record realizes, and
/// unused classes at depth and rank zero.
#[verifier::opaque]
pub open spec fn true_depths(m: MipView, a: Assignment) -> bool {
    &&& forall|r: int|
        0 <= r < m.records.len() && #[trigger] a.sel[r] == 1 ==> a.depth[m.records[r].owner as int]
            == realized_depth(m.records[r], a.depth)
    &&& forall|c: int|
        0 <= c < m.class_ids.len() && #[trigger] a.used[c] == 0 ==> a.depth[c] == 0 && a.rank[c] == 0
}

/// `a` writes down an acyclic extraction under the root whose DAG has
/// multiplicative depth at most the bound: binary `used` and `sel`, depths
/// within the bound and ranks within the class count (`in_domains`), the
/// root used, exactly one selected record per used class and none for an
/// unused one, the children of a selected record used and ranked below it
/// (a topological order), every used class but the root a child of a
/// selected record, `depth` the true depth of every used class, and unused
/// classes at depth and rank zero.
pub open spec fn encodes_extraction(m: MipView, a: Assignment) -> bool {
    &&& in_domains(m, a)
    &&& a.used[m.root_index as int] == 1
    &&& owners_used(m, a)
    &&& children_below(m, a)
    &&& used_implemented(m, a)
    &&& used_has_parent(m, a)
    &&& true_depths(m, a)
}

/// The depth bounds of the model are those of its records: a record's bound
/// is its deepest child's bound (each known), plus one for a
/// multiplication, and its class's bound is known and at most the record's.
pub open spec fn record_bounds(m: MipView) -> bool {
    forall|r: int|
        0 <= r < m.records.len() ==> {
            let rec = #[trigger] m.records[r];
            &&& rec.min_depth == max_lb(rec.children, m.min_depth_lb) + if rec.is_mul {
                1nat
            } else {
                0nat
            }
            &&& forall|j: int|
                0 <= j < rec.children.len() ==> m.min_depth_lb[#[trigger] rec.children[j] as int] is Some
            &&& m.min_depth_lb[rec.owner as int] is Some
            &&& m.min_depth_lb[rec.owner as int].unwrap() <= rec.min_depth
        }
}

// ---------------------------------------------------------------------
// True depths are above the bounds
// ---------------------------------------------------------------------
proof fn lemma_deepest_each(ch: Seq<usize>, depth: Seq<int>)
    ensures
        forall|j: int| 0 <= j < ch.len() ==> depth[#[trigger] ch[j] as int] <= deepest(ch, depth),
        deepest(ch, depth) >= 0,
    decreases ch.len(),
{
    if ch.len() > 0 {
        lemma_deepest_each(ch.drop_last(), depth);
        assert forall|j: int| 0 <= j < ch.len() implies depth[#[trigger] ch[j] as int] <= deepest(ch, depth) by {
            if j < ch.len() - 1 {
                assert(ch[j] == ch.drop_last()[j]);
            }
        }
    }
}

proof fn lemma_deepest_above(ch: Seq<usize>, depth: Seq<int>, lower: Seq<Option<usize>>)
    requires
        forall|j: int|
            0 <= j < ch.len() ==> lower[#[trigger] ch[j] as int] is Some && depth[ch[j] as int]
                >= lower[ch[j] as int].unwrap(),
    ensures
        deepest(ch, depth) >= max_lb(ch, lower),
    decreases ch.len(),
{
    if ch.len() > 0 {
        assert forall|j: int| 0 <= j < ch.drop_last().len() implies lower[#[trigger] ch.drop_last()[j] as int] is Some
            && depth[ch.drop_last()[j] as int] >= lower[ch.drop_last()[j] as int].unwrap() by {
            assert(ch.drop_last()[j] == ch[j]);
        }
        lemma_deepest_above(ch.drop_last(), depth, lower);
        assert(ch.last() == ch[ch.len() - 1]);
    }
}

/// Below rank `k`, every used class is at least as deep as its bound.
proof fn lemma_depth_above_bounds(m: MipView, a: Assignment, k: int)
    requires
        mip_wf(m),
        record_bounds(m),
        encodes_extraction(m, a),
    ensures
        forall|c: int|
            0 <= c < m.class_ids.len() && a.used[c] == 1 && #[trigger] a.rank[c] < k
                ==> m.min_depth_lb[c] is Some && a.depth[c] >= m.min_depth_lb[c].unwrap(),
    decreases k,
{
    let recs = m.records;
    reveal(children_below);
    reveal(used_implemented);
    reveal(true_depths);
    if k > 0 {
        lemma_depth_above_bounds(m, a, k - 1);
        assert forall|c: int|
            0 <= c < m.class_ids.len() && a.used[c] == 1 && #[trigger] a.rank[c] < k
            implies m.min_depth_lb[c] is Some && a.depth[c] >= m.min_depth_lb[c].unwrap() by {
            assert(a.used[c] == 1);
            let r = choose|r: int| 0 <= r < recs.len() && recs[r].owner == c && #[trigger] a.sel[r] == 1;
            let rec = recs[r];
            assert(children_fit(rec, m.class_ids.len()));
            assert forall|j: int| 0 <= j < rec.children.len() implies m.min_depth_lb[#[trigger] rec.children[j] as int] is Some
                && a.depth[rec.children[j] as int] >= m.min_depth_lb[rec.children[j] as int].unwrap() by {
                assert(a.used[recs[r].children[j] as int] == 1);
                assert(a.rank[rec.children[j] as int] < a.rank[c]);
                assert(a.rank[rec.children[j] as int] < k - 1 + 1);
            }
            lemma_deepest_above(rec.children, a.depth, m.min_depth_lb);
            assert(a.depth[c] == realized_depth(rec, a.depth));
        }
    }
}

/// Every used class is at least as deep as its bound, and a selected
/// record's class at least as deep as the record's bound.
proof fn lemma_depths_above(m: MipView, a: Assignment)
    requires
        mip_wf(m),
        record_bounds(m),
        encodes_extraction(m, a),
    ensures
        forall|c: int|
            0 <= c < m.class_ids.len() && #[trigger] a.used[c] == 1 ==> m.min_depth_lb[c] is Some
                && a.depth[c] >= m.min_depth_lb[c].unwrap(),
        forall|r: int|
            0 <= r < m.records.len() && #[trigger] a.sel[r] == 1 ==> a.depth[m.records[r].owner as int]
                >= m.records[r].min_depth,
{
    let n = m.class_ids.len() as int;
    let recs = m.records;
    reveal(children_below);
    reveal(true_depths);
    lemma_depth_above_bounds(m, a, n + 1);
    assert forall|c: int| 0 <= c < n && #[trigger] a.used[c] == 1 implies m.min_depth_lb[c] is Some
        && a.depth[c] >= m.min_depth_lb[c].unwrap() by {
        assert(a.rank[c] <= n);
    }
    assert forall|r: int| 0 <= r < recs.len() && #[trigger] a.sel[r] == 1 implies a.depth[recs[r].owner as int]
        >= recs[r].min_depth by {
        let rec = recs[r];
        assert(children_fit(rec, m.class_ids.len()));
        assert forall|j: int| 0 <= j < rec.children.len() implies m.min_depth_lb[#[trigger] rec.children[j] as int] is Some
            && a.depth[rec.children[j] as int] >= m.min_depth_lb[rec.children[j] as int].unwrap() by {
            assert(a.used[recs[r].children[j] as int] == 1);
            assert(a.rank[rec.children[j] as int] <= n);
        }
        lemma_deepest_above(rec.children, a.depth, m.min_depth_lb);
    }
}

// ---------------------------------------------------------------------
// Rows and sums
// ---------------------------------------------------------------------
proof fn lemma_satisfies_join(x: Seq<ConstraintView>, y: Seq<ConstraintView>, a: Assignment)
    requires
        satisfies(x, a),
        satisfies(y, a),
    ensures
        satisfies(x + y, a),
{
    assert forall|k: int| 0 <= k < (x + y).len() implies holds(#[trigger] (x + y)[k], a) by {
        if k < x.len() {
            assert((x + y)[k] == x[k]);
        } else {
            assert((x + y)[k] == y[k - x.len()]);
        }
    }
}

proof fn lemma_concat_satisfies(n: int, f: spec_fn(int) -> Seq<ConstraintView>, a: Assignment)
    requires
        forall|i: int| 0 <= i < n ==> satisfies(#[trigger] f(i), a),
    ensures
        satisfies(concat(n, f), a),
    decreases n,
{
    if n > 0 {
        lemma_concat_satisfies(n - 1, f, a);
        lemma_satisfies_join(concat(n - 1, f), f(n - 1), a);
    }
}

proof fn lemma_linear_concat(p: Seq<(MipVar, int)>, q: Seq<(MipVar, int)>, a: Assignment)
    ensures
        linear(p + q, a) == linear(p, a) + linear(q, a),
    decreases q.len(),
{
    if q.len() == 0 {
        assert(p + q =~= p);
    } else {
        assert((p + q).drop_last() =~= p + q.drop_last());
        assert((p + q).last() == q.last());
        lemma_linear_concat(p, q.drop_last(), a);
    }
}

proof fn lemma_linear_selected_neg(list: Seq<usize>, a: Assignment)
    ensures
        linear(selected_terms(list, -1), a) == -sum_sel(list, a),
    decreases list.len(),
{
    if list.len() > 0 {
        assert(selected_terms(list, -1).drop_last() =~= selected_terms(list.drop_last(), -1));
        lemma_linear_selected_neg(list.drop_last(), a);
    }
}

proof fn lemma_sum_at_most_one(list: Seq<usize>, a: Assignment)
    requires
        forall|k: int| 0 <= k < list.len() ==> (#[trigger] a.sel[list[k] as int] == 0 || a.sel[list[k] as int] == 1),
        forall|k1: int, k2: int|
            0 <= k1 < k2 < list.len() && #[trigger] a.sel[list[k1] as int] == 1 ==> #[trigger] a.sel[list[k2] as int] != 1,
    ensures
        sum_sel(list, a) <= 1,
        sum_sel(list, a) == 1 ==> exists|k: int| 0 <= k < list.len() && #[trigger] a.sel[list[k] as int] == 1,
        (forall|k: int| 0 <= k < list.len() ==> #[trigger] a.sel[list[k] as int] == 0) ==> sum_sel(list, a) == 0,
    decreases list.len(),
{
    lemma_sum_sel(list, a);
    if list.len() > 0 {
        let l = list.drop_last();
        assert forall|k: int| 0 <= k < l.len() implies (#[trigger] a.sel[l[k] as int] == 0 || a.sel[l[k] as int] == 1) by {
            assert(l[k] == list[k]);
        }
        assert forall|k1: int, k2: int|
            0 <= k1 < k2 < l.len() && #[trigger] a.sel[l[k1] as int] == 1 implies #[trigger] a.sel[l[k2] as int] != 1 by {
            assert(l[k1] == list[k1] && l[k2] == list[k2]);
        }
        lemma_sum_at_most_one(l, a);
        lemma_sum_sel(l, a);
        let last = list.len() - 1;
        assert(list[last] == list.last());
        if a.sel[list.last() as int] == 1 && sum_sel(l, a) > 0 {
            let k = choose|k: int| 0 <= k < l.len() && #[trigger] a.sel[l[k] as int] == 1;
            assert(l[k] == list[k]);
            assert(a.sel[list[k] as int] == 1);
        }
        if forall|k: int| 0 <= k < list.len() ==> #[trigger] a.sel[list[k] as int] == 0 {
            assert forall|k: int| 0 <= k < l.len() implies #[trigger] a.sel[l[k] as int] == 0 by {
                assert(l[k] == list[k]);
            }
        }
        if sum_sel(list, a) == 1 && a.sel[list.last() as int] != 1 {
            let k = choose|k: int| 0 <= k < l.len() && #[trigger] a.sel[l[k] as int] == 1;
            assert(l[k] == list[k]);
        }
    }
}

proof fn lemma_mul01(k: int, x: int)
    requires
        x == 0 || x == 1,
    ensures
        x == 0 ==> k * x == 0,
        x == 1 ==> k * x == k,
{
    if x == 0 {
        assert(k * x == 0) by (nonlinear_arith)
            requires
                x == 0,
        ;
    } else {
        assert(k * x == k) by (nonlinear_arith)
            requires
                x == 1,
        ;
    }
}

/// The model is well formed, its bounds are those of its records, and `a`
/// writes down an extraction within the bound.
pub open spec fn extraction_of(m: MipView, a: Assignment) -> bool {
    &&& mip_wf(m)
    &&& m.class_ids.len() <= usize::MAX
    &&& m.records.len() <= usize::MAX
    &&& record_bounds(m)
    &&& encodes_extraction(m, a)
}

// ---------------------------------------------------------------------
// Block by block
// ---------------------------------------------------------------------
proof fn lemma_one_impl_holds(m: MipView, a: Assignment, c: int)
    requires
        extraction_of(m, a),
        0 <= c < m.class_ids.len(),
    ensures
        satisfies(one_impl_rows(m)(c), a),
{
    let recs = m.records;
    reveal(owners_used);
    reveal(used_implemented);
    let list = m.nodes_by_class[c];
    let t = selected_terms(list, 1);
    let x = (MipVar::Used(c as usize), -1int);
    assert(t.push(x).drop_last() =~= t);
    lemma_linear_selected(list, a);
    assert(linear(t.push(x), a) == sum_sel(list, a) - a.used[c]);
    assert forall|k: int| 0 <= k < list.len() implies (#[trigger] a.sel[list[k] as int] == 0 || a.sel[list[k] as int] == 1) by {
        assert((list[k] as int) < recs.len());
    }
    assert forall|k1: int, k2: int|
        0 <= k1 < k2 < list.len() && #[trigger] a.sel[list[k1] as int] == 1 implies #[trigger] a.sel[list[k2] as int] != 1 by {
        assert(list[k1] < list[k2]);
        assert(recs[list[k1] as int].owner == c && recs[list[k2] as int].owner == c);
    }
    lemma_sum_at_most_one(list, a);
    lemma_sum_sel(list, a);
    if a.used[c] == 1 {
        let r = choose|r: int| 0 <= r < recs.len() && recs[r].owner == c && #[trigger] a.sel[r] == 1;
        assert(list.contains(r as usize));
        let k = choose|k: int| 0 <= k < list.len() && list[k] == r as usize;
        assert(a.sel[list[k] as int] == 1);
    } else {
        assert forall|k: int| 0 <= k < list.len() implies #[trigger] a.sel[list[k] as int] == 0 by {
            assert((list[k] as int) < recs.len() && recs[list[k] as int].owner == c);
            if a.sel[list[k] as int] == 1 {
                assert(a.used[recs[list[k] as int].owner as int] == 1);
            }
        }
    }
    let rows = one_impl_rows(m)(c);
    assert(rows[0] == row(t.push(x), Sense::Eq, 0));
    assert(holds(rows[0], a));
}

proof fn lemma_witness_holds(m: MipView, a: Assignment, c: int)
    requires
        extraction_of(m, a),
        0 <= c < m.class_ids.len(),
    ensures
        satisfies(witness_rows(m)(c), a),
{
    lemma_depths_above(m, a);
    reveal(true_depths);
    let n = m.class_ids.len() as int;
    let d = m.md_limit as int;
    let u = a.used[c];
    lemma_mul01(-d, u);
    lemma_mul01(-n, u);
    let r1 = row(seq![(MipVar::Depth(c as usize), 1), (MipVar::Used(c as usize), -d)], Sense::Le, 0);
    let r3 = row(seq![(MipVar::Rank(c as usize), 1), (MipVar::Used(c as usize), -n)], Sense::Le, 0);
    lemma_linear2(r1.terms, a);
    lemma_linear2(r3.terms, a);
    assert(value(a, MipVar::Depth(c as usize)) == a.depth[c]);
    assert(value(a, MipVar::Used(c as usize)) == u);
    assert(value(a, MipVar::Rank(c as usize)) == a.rank[c]);
    assert(0 <= a.depth[c] <= d && 0 <= a.rank[c] <= n);
    assert(u == 0 || u == 1);
    assert(u == 0 ==> a.depth[c] == 0 && a.rank[c] == 0);
    assert(r1.terms[0].1 == 1 && r1.terms[1].1 == -d);
    assert(r3.terms[0].1 == 1 && r3.terms[1].1 == -n);
    lemma_mul01(a.depth[c], 1);
    lemma_mul01(a.rank[c], 1);
    assert(1 * a.depth[c] == a.depth[c]) by (nonlinear_arith);
    assert(1 * a.rank[c] == a.rank[c]) by (nonlinear_arith);
    assert(linear(r1.terms, a) == a.depth[c] + (-d) * u);
    assert(linear(r3.terms, a) == a.rank[c] + (-n) * u);
    assert(holds(r1, a));
    assert(holds(r3, a));
    let mid: Seq<ConstraintView> = match m.min_depth_lb[c] {
        Some(l) => seq![
            row(
                seq![(MipVar::Depth(c as usize), 1), (MipVar::Used(c as usize), -(l as int))],
                Sense::Ge,
                0,
            ),
        ],
        None => seq![],
    };
    if let Some(l) = m.min_depth_lb[c] {
        lemma_mul01(-(l as int), u);
        lemma_linear2(mid[0].terms, a);
        assert(holds(mid[0], a));
    }
    let rows = witness_rows(m)(c);
    assert(rows == seq![r1] + mid + seq![r3]);
    assert forall|k: int| 0 <= k < rows.len() implies holds(#[trigger] rows[k], a) by {
        if k == 0 {
            assert(rows[k] == r1);
        } else if k < 1 + mid.len() {
            assert(rows[k] == mid[k - 1]);
        } else {
            assert(rows[k] == r3);
        }
    }
}

proof fn lemma_child_use_holds(m: MipView, a: Assignment, r: int)
    requires
        extraction_of(m, a),
        0 <= r < m.records.len(),
    ensures
        satisfies(child_use_rows(m)(r), a),
{
    let recs = m.records;
    let rows = child_use_rows(m)(r);
    reveal(children_below);
    assert(children_fit(recs[r], m.class_ids.len()));
    assert forall|j: int| 0 <= j < rows.len() implies holds(#[trigger] rows[j], a) by {
        let t = seq![(MipVar::Selected(r as usize), 1int), (MipVar::Used(recs[r].children[j]), -1int)];
        assert(rows[j] == row(t, Sense::Le, 0));
        lemma_linear2(t, a);
        let ch = recs[r].children[j] as int;
        assert(ch < m.class_ids.len());
        assert(value(a, MipVar::Used(recs[r].children[j])) == a.used[ch]);
        assert(value(a, MipVar::Selected(r as usize)) == a.sel[r]);
        assert(a.used[ch] == 0 || a.used[ch] == 1);
        assert(a.sel[r] == 0 || a.sel[r] == 1);
        if a.sel[r] == 1 {
            assert(a.used[recs[r].children[j] as int] == 1);
        }
    }
}

proof fn lemma_parent_holds(m: MipView, a: Assignment, c: int)
    requires
        extraction_of(m, a),
        0 <= c < m.class_ids.len(),
    ensures
        satisfies(parent_rows(m)(c), a),
{
    let recs = m.records;
    let rows = parent_rows(m)(c);
    reveal(used_has_parent);
    if c != m.root_index {
        let list = m.parent_records[c];
        let t = seq![(MipVar::Used(c as usize), 1int)] + selected_terms(list, -1);
        assert(rows[0] == row(t, Sense::Le, 0));
        lemma_linear_concat(seq![(MipVar::Used(c as usize), 1int)], selected_terms(list, -1), a);
        lemma_linear_one(seq![(MipVar::Used(c as usize), 1int)], a);
        lemma_linear_selected_neg(list, a);
        assert forall|k: int| 0 <= k < list.len() implies (#[trigger] a.sel[list[k] as int] == 0 || a.sel[list[k] as int] == 1) by {
            assert((list[k] as int) < recs.len());
        }
        lemma_sum_sel(list, a);
        if a.used[c] == 1 {
            let r = choose|r: int| 0 <= r < recs.len() && #[trigger] a.sel[r] == 1 && recs[r].children.contains(c as usize);
            let j = choose|j: int| 0 <= j < recs[r].children.len() && recs[r].children[j] == c as usize;
            assert(recs[r].children[j] as int == c);
            assert(list.contains(r as usize));
            let k = choose|k: int| 0 <= k < list.len() && list[k] == r as usize;
            assert(a.sel[list[k] as int] == 1);
        }
        assert(holds(rows[0], a));
    }
}

proof fn lemma_child_pairs_hold(m: MipView, a: Assignment, r: int, jn: int)
    requires
        extraction_of(m, a),
        0 <= r < m.records.len(),
        0 <= jn <= m.records[r].children.len(),
    ensures
        satisfies(child_pairs(m, r, jn), a),
    decreases jn,
{
    let recs = m.records;
    if jn > 0 {
        let j = jn - 1;
        lemma_child_pairs_hold(m, a, r, j);
        assert(children_fit(recs[r], m.class_ids.len()));
        let ch = recs[r].children[j] as int;
        let ow = recs[r].owner as int;
        let n = m.class_ids.len() as int;
        let inc: int = if recs[r].is_mul {
            1
        } else {
            0
        };
        let big_r = n + 1;
        let big_d = m.md_limit as int + inc;
        reveal(children_below);
        reveal(true_depths);
        lemma_linear3(rank_row(m, r, j).terms, a);
        lemma_linear3(depth_row(m, r, j).terms, a);
        lemma_mul01(big_r, a.sel[r]);
        lemma_mul01(big_d, a.sel[r]);
        if a.sel[r] == 1 {
            assert(a.rank[ch] < a.rank[ow]);
            lemma_deepest_each(recs[r].children, a.depth);
            assert(a.depth[ow] == realized_depth(recs[r], a.depth));
            assert(a.depth[ch] <= deepest(recs[r].children, a.depth));
        }
        assert(ch < n && ow < n);
        let sr = a.sel[r];
        assert(sr == 0 || sr == 1);
        assert(value(a, MipVar::Rank(recs[r].children[j])) == a.rank[ch]);
        assert(value(a, MipVar::Rank(recs[r].owner as usize)) == a.rank[ow]);
        assert(value(a, MipVar::Depth(recs[r].children[j])) == a.depth[ch]);
        assert(value(a, MipVar::Depth(recs[r].owner as usize)) == a.depth[ow]);
        assert(value(a, MipVar::Selected(r as usize)) == sr);
        assert(0 <= a.rank[ch] <= n && 0 <= a.rank[ow] <= n);
        assert(0 <= a.depth[ch] <= m.md_limit && 0 <= a.depth[ow] <= m.md_limit);
        assert(1 * a.rank[ch] == a.rank[ch] && -1 * a.rank[ow] == -a.rank[ow]) by (nonlinear_arith);
        assert(1 * a.depth[ch] == a.depth[ch] && -1 * a.depth[ow] == -a.depth[ow]) by (nonlinear_arith);
        assert(linear(rank_row(m, r, j).terms, a) == a.rank[ch] - a.rank[ow] + big_r * sr);
        assert(linear(depth_row(m, r, j).terms, a) == a.depth[ch] - a.depth[ow] + big_d * sr);
        assert(holds(rank_row(m, r, j), a));
        assert(holds(depth_row(m, r, j), a));
        lemma_satisfies_join(
            seq![rank_row(m, r, j)],
            seq![depth_row(m, r, j)],
            a,
        );
        assert(seq![rank_row(m, r, j)] + seq![depth_row(m, r, j)] =~= seq![
            rank_row(m, r, j),
            depth_row(m, r, j),
        ]);
        lemma_satisfies_join(
            child_pairs(m, r, j),
            seq![rank_row(m, r, j), depth_row(m, r, j)],
            a,
        );
    }
}

proof fn lemma_record_holds(m: MipView, a: Assignment, r: int)
    requires
        extraction_of(m, a),
        0 <= r < m.records.len(),
    ensures
        satisfies(record_rows(m)(r), a),
{
    let recs = m.records;
    lemma_depths_above(m, a);
    lemma_child_pairs_hold(m, a, r, recs[r].children.len() as int);
    let md = recs[r].min_depth as int;
    let ow = recs[r].owner as usize;
    let t = seq![(MipVar::Depth(ow), 1int), (MipVar::Selected(r as usize), -md)];
    let first: Seq<ConstraintView> = if recs[r].min_depth != 0 {
        seq![row(t, Sense::Ge, 0)]
    } else {
        seq![]
    };
    if recs[r].min_depth != 0 {
        lemma_linear2(t, a);
        lemma_mul01(-md, a.sel[r]);
        assert((recs[r].owner as int) < m.class_ids.len());
        let o = recs[r].owner as int;
        assert(value(a, MipVar::Depth(ow)) == a.depth[o]);
        assert(value(a, MipVar::Selected(r as usize)) == a.sel[r]);
        assert(a.sel[r] == 0 || a.sel[r] == 1);
        assert(0 <= a.depth[o]);
        assert(1 * a.depth[o] == a.depth[o]) by (nonlinear_arith);
        assert(linear(t, a) == a.depth[o] + (-md) * a.sel[r]);
        assert(a.sel[r] == 1 ==> a.depth[o] >= md);
        assert(holds(first[0], a));
    }
    lemma_satisfies_join(first, child_pairs(m, r, recs[r].children.len() as int), a);
    assert(record_rows(m)(r) == first + child_pairs(m, r, recs[r].children.len() as int));
}

// ---------------------------------------------------------------------
// The law
// ---------------------------------------------------------------------
/// Completeness: an acyclic extraction under the root whose DAG has
/// multiplicative depth at most the bound, written as an assignment (used
/// classes and selected records, each used class at its true depth, ranks
/// in a topological order), satisfies every constraint of the program. In
/// particular a selected record's class may sit exactly at the record's
/// depth bound: no depth bound of the model excludes such an extraction.
pub proof fn lemma_extractions_satisfy(m: MipView, a: Assignment)
    requires
        mip_wf(m),
        m.class_ids.len() <= usize::MAX,
        m.records.len() <= usize::MAX,
        record_bounds(m),
        encodes_extraction(m, a),
    ensures
        satisfies(spec_constraints(m), a),
{
    let n = m.class_ids.len() as int;
    let rn = m.records.len() as int;
    let b0 = seq![root_row(m)];
    lemma_linear_one(root_row(m).terms, a);
    assert(holds(b0[0], a));
    assert forall|c: int| 0 <= c < n implies satisfies(#[trigger] one_impl_rows(m)(c), a) by {
        lemma_one_impl_holds(m, a, c);
    }
    assert forall|c: int| 0 <= c < n implies satisfies(#[trigger] witness_rows(m)(c), a) by {
        lemma_witness_holds(m, a, c);
    }
    assert forall|r: int| 0 <= r < rn implies satisfies(#[trigger] child_use_rows(m)(r), a) by {
        lemma_child_use_holds(m, a, r);
    }
    assert forall|c: int| 0 <= c < n implies satisfies(#[trigger] parent_rows(m)(c), a) by {
        lemma_parent_holds(m, a, c);
    }
    assert forall|r: int| 0 <= r < rn implies satisfies(#[trigger] record_rows(m)(r), a) by {
        lemma_record_holds(m, a, r);
    }
    let b1 = concat(n, one_impl_rows(m));
    let b2 = concat(n, witness_rows(m));
    let b3 = concat(rn, child_use_rows(m));
    let b4 = concat(n, parent_rows(m));
    let b5 = concat(rn, record_rows(m));
    lemma_concat_satisfies(n, one_impl_rows(m), a);
    lemma_concat_satisfies(n, witness_rows(m), a);
    lemma_concat_satisfies(rn, child_use_rows(m), a);
    lemma_concat_satisfies(n, parent_rows(m), a);
    lemma_concat_satisfies(rn, record_rows(m), a);
    lemma_satisfies_join(b0, b1, a);
    lemma_satisfies_join(b0 + b1, b2, a);
    lemma_satisfies_join(b0 + b1 + b2, b3, a);
    lemma_satisfies_join(b0 + b1 + b2 + b3, b4, a);
    lemma_satisfies_join(b0 + b1 + b2 + b3 + b4, b5, a);
}

// ---------------------------------------------------------------------
// The model's records have the model's bounds
// ---------------------------------------------------------------------
/// Record `r` is the record of e-node `k` of the class at compact index `o`.
pub open spec fn record_of_node(
    g: Seq<Seq<SpecLang>>,
    ids: Seq<usize>,
    cidx: Seq<Option<usize>>,
    lower: Seq<Option<usize>>,
    limit: nat,
    r: RecordView,
    o: int,
    k: int,
) -> bool {
    &&& 0 <= o < ids.len()
    &&& 0 <= k < g[ids[o] as int].len()
    &&& node_record(g[ids[o] as int][k], o as nat, cidx, lower, limit) == Some(r)
}

proof fn lemma_class_record_origin(
    nodes: Seq<SpecLang>,
    owner: nat,
    cidx: Seq<Option<usize>>,
    lower: Seq<Option<usize>>,
    limit: nat,
    i: int,
) -> (k: int)
    requires
        0 <= i < class_records(nodes, owner, cidx, lower, limit).len(),
    ensures
        0 <= k < nodes.len(),
        node_record(nodes[k], owner, cidx, lower, limit) == Some(
            class_records(nodes, owner, cidx, lower, limit)[i],
        ),
    decreases nodes.len(),
{
    let d = nodes.drop_last();
    let prev = class_records(d, owner, cidx, lower, limit);
    let cur = class_records(nodes, owner, cidx, lower, limit);
    if i < prev.len() {
        assert(cur[i] == prev[i]);
        let k = lemma_class_record_origin(d, owner, cidx, lower, limit, i);
        assert(nodes[k] == d[k]);
        k
    } else {
        let last = nodes.len() - 1;
        assert(nodes[last] == nodes.last());
        last
    }
}

proof fn lemma_record_origin(
    g: Seq<Seq<SpecLang>>,
    ids: Seq<usize>,
    cidx: Seq<Option<usize>>,
    lower: Seq<Option<usize>>,
    limit: nat,
    o: int,
    i: int,
) -> (res: (int, int))
    requires
        0 <= o <= ids.len(),
        0 <= i < all_records(g, ids, cidx, lower, limit, o).len(),
    ensures
        record_of_node(g, ids, cidx, lower, limit, all_records(g, ids, cidx, lower, limit, o)[i], res.0, res.1),
    decreases o,
{
    let prev = all_records(g, ids, cidx, lower, limit, o - 1);
    let nodes = g[ids[o - 1] as int];
    let cls = class_records(nodes, (o - 1) as nat, cidx, lower, limit);
    let cur = all_records(g, ids, cidx, lower, limit, o);
    assert(cur == prev + cls);
    if i < prev.len() {
        assert(cur[i] == prev[i]);
        lemma_record_origin(g, ids, cidx, lower, limit, o - 1, i)
    } else {
        assert(cur[i] == cls[i - prev.len()]);
        let k = lemma_class_record_origin(nodes, (o - 1) as nat, cidx, lower, limit, i - prev.len());
        (o - 1, k)
    }
}

proof fn lemma_best_below(nodes: Seq<SpecLang>, cidx: Seq<Option<usize>>, lower: Seq<Option<usize>>, k: int)
    requires
        0 <= k < nodes.len(),
    ensures
        opt_le(best_node(nodes, cidx, lower), candidate(nodes[k], cidx, lower)),
    decreases nodes.len(),
{
    let d = nodes.drop_last();
    if k < nodes.len() - 1 {
        lemma_best_below(d, cidx, lower, k);
        assert(d[k] == nodes[k]);
    } else {
        assert(nodes[k] == nodes.last());
    }
}

proof fn lemma_children_max_known(cs: Seq<usize>, cidx: Seq<Option<usize>>, lower: Seq<Option<usize>>)
    requires
        forall|j: int|
            0 <= j < cs.len() ==> (#[trigger] cs[j] as int) < cidx.len() && cidx[cs[j] as int] is Some
                && (cidx[cs[j] as int].unwrap() as int) < lower.len() && lower[cidx[cs[j] as int].unwrap() as int]
                is Some,
    ensures
        children_max(cs, cidx, lower) == Some(max_lb(map_children(cs, cidx), lower)),
    decreases cs.len(),
{
    if cs.len() > 0 {
        let d = cs.drop_last();
        assert forall|j: int| 0 <= j < d.len() implies (#[trigger] d[j] as int) < cidx.len() && cidx[d[j] as int] is Some
            && (cidx[d[j] as int].unwrap() as int) < lower.len() && lower[cidx[d[j] as int].unwrap() as int] is Some by {
            assert(d[j] == cs[j]);
        }
        lemma_children_max_known(d, cidx, lower);
        assert(map_children(cs, cidx).drop_last() =~= map_children(d, cidx));
        let last = cs.len() - 1;
        assert(cs[last] == cs.last());
        assert(map_children(cs, cidx).last() == cidx[cs.last() as int].unwrap());
    }
}

/// The records of a model carry the model's depth bounds.
pub proof fn lemma_model_record_bounds(g: Seq<Seq<SpecLang>>, root: int, limit: nat, m: MipView)
    requires
        snapshot_wf(g),
        g.len() <= usize::MAX,
        model_of(g, root, limit, m),
    ensures
        record_bounds(m),
{
    let ids = m.class_ids;
    let cidx = m.class_index;
    let lower = m.min_depth_lb;
    lemma_children_modelled(g, root, ids, cidx);
    assert forall|r: int| 0 <= r < m.records.len() implies {
        let rec = #[trigger] m.records[r];
        &&& rec.min_depth == max_lb(rec.children, m.min_depth_lb) + if rec.is_mul {
            1nat
        } else {
            0nat
        }
        &&& forall|j: int|
            0 <= j < rec.children.len() ==> m.min_depth_lb[#[trigger] rec.children[j] as int] is Some
        &&& m.min_depth_lb[rec.owner as int] is Some
        &&& m.min_depth_lb[rec.owner as int].unwrap() <= rec.min_depth
    } by {
        let rec = m.records[r];
        let (o, k) = lemma_record_origin(g, ids, cidx, lower, limit, ids.len() as int, r);
        let node = g[ids[o] as int][k];
        let cs = spec_children(node);
        let ch = map_children(cs, cidx);
        assert(rec.children == ch);
        assert(rec.owner == o);
        assert forall|j: int| 0 <= j < ch.len() implies lower[#[trigger] ch[j] as int] is Some by {
            if lower[ch[j] as int] is None {
                assert(exists|j2: int| 0 <= j2 < ch.len() && (#[trigger] ch[j2] == o || lower[ch[j2] as int] is None));
            }
        }
        assert forall|j: int| 0 <= j < cs.len() implies (#[trigger] cs[j] as int) < cidx.len() && cidx[cs[j] as int] is Some
            && (cidx[cs[j] as int].unwrap() as int) < lower.len() && lower[cidx[cs[j] as int].unwrap() as int] is Some by {
            assert(spec_children(g[ids[o] as int][k])[j] == cs[j]);
            assert(ch[j] == cidx[cs[j] as int].unwrap());
        }
        lemma_children_max_known(cs, cidx, lower);
        lemma_best_below(g[ids[o] as int], cidx, lower, k);
        assert(opt_nat(lower[o]) == best_node(g[ids[o] as int], cidx, lower));
    }
}

/// Completeness of the model of an e-graph: every acyclic extraction under
/// the root whose DAG has multiplicative depth at most the bound, written
/// as an assignment, satisfies every constraint of the model's program.
pub proof fn lemma_model_admits_extractions(
    g: Seq<Seq<SpecLang>>,
    root: int,
    limit: nat,
    m: MipView,
    a: Assignment,
)
    requires
        snapshot_wf(g),
        g.len() <= usize::MAX,
        model_of(g, root, limit, m),
        mip_wf(m),
        m.records.len() <= usize::MAX,
        encodes_extraction(m, a),
    ensures
        satisfies(spec_constraints(m), a),
{
    lemma_model_record_bounds(g, root, limit, m);
    crate::class_analysis::lemma_reachable_list(g, root, g.len() as int);
    lemma_extractions_satisfy(m, a);
}

} // verus!
