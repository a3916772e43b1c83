//! Extraction costs: the tree cost that minimizes multiplicative depth, and
//! the per-node weight of the global multiplication-count objective.
use vstd::prelude::*;
use crate::dag::{
    depth, is_mul, key_children, keys_topological, max_root_depth, reach, reach_roots, spec_stats,
    SpecKey,
};
use crate::intern::{expr_tree, key_tree, source_roots, Tree};
use crate::lang::{spec_children, spec_discriminant, FheLangDiscriminant, SpecLang};

verus! {

/// Tree-extraction cost for minimizing multiplicative depth.
///
/// Field order matters because `Ord` is derived lexicographically:
/// 1. minimize MD;
/// 2. among equal-MD candidates, minimize tree MC;
/// 3. then prefer smaller syntax trees.
#[derive(Clone, Copy, Debug, PartialEq, Eq, Structural, PartialOrd, Ord)]
pub struct MdCost {
    pub md: usize,
    pub mc: usize,
    pub ast_size: usize,
}

impl MdCost {
    fn new(md: usize, mc: usize, ast_size: usize) -> (res: MdCost)
        ensures
            res == (MdCost { md, mc, ast_size }),
    {
        MdCost { md, mc, ast_size }
    }

    fn leaf() -> (res: MdCost)
        ensures
            res == (MdCost { md: 0, mc: 0, ast_size: 1 }),
    {
        Self::new(0, 0, 1)
    }
}

/// Number of children a node of each kind has, `None` for the variadic
/// `outputs`.
pub open spec fn arity(kind: FheLangDiscriminant) -> Option<nat> {
    match kind {
        FheLangDiscriminant::Num | FheLangDiscriminant::Symbol => Some(0),
        FheLangDiscriminant::Add | FheLangDiscriminant::Mul => Some(2),
        FheLangDiscriminant::Neg => Some(1),
        FheLangDiscriminant::Outputs => None,
    }
}

pub open spec fn max_md(cs: Seq<MdCost>) -> nat
    decreases cs.len(),
{
    if cs.len() == 0 {
        0
    } else {
        vstd::math::max(max_md(cs.drop_last()) as int, cs.last().md as int) as nat
    }
}

pub open spec fn sum_mc(cs: Seq<MdCost>) -> nat
    decreases cs.len(),
{
    if cs.len() == 0 {
        0
    } else {
        sum_mc(cs.drop_last()) + cs.last().mc as nat
    }
}

pub open spec fn sum_size(cs: Seq<MdCost>) -> nat
    decreases cs.len(),
{
    if cs.len() == 0 {
        0
    } else {
        sum_size(cs.drop_last()) + cs.last().ast_size as nat
    }
}

/// The cost of a node from its children's costs, as `(md, mc, ast_size)`:
/// - leaves: depth 0, no multiplication, size 1;
/// - `Add`: the deeper child's depth, the multiplications of both children;
/// - `Mul`: one more than the deeper child's depth, and one more
///   multiplication;
/// - `Neg`: the child's depth and multiplications;
/// - `outputs`: the deepest output, the sum of the multiplications and of
///   the sizes (the virtual root itself has no size).
///
/// Every operator node adds one to the sum of its children's sizes.
pub open spec fn spec_md_cost(kind: FheLangDiscriminant, cs: Seq<MdCost>) -> (nat, nat, nat) {
    match kind {
        FheLangDiscriminant::Num | FheLangDiscriminant::Symbol => (0, 0, 1),
        FheLangDiscriminant::Add => (
            vstd::math::max(cs[0].md as int, cs[1].md as int) as nat,
            (cs[0].mc + cs[1].mc) as nat,
            (1 + cs[0].ast_size + cs[1].ast_size) as nat,
        ),
        FheLangDiscriminant::Mul => (
            (vstd::math::max(cs[0].md as int, cs[1].md as int) + 1) as nat,
            (cs[0].mc + cs[1].mc + 1) as nat,
            (1 + cs[0].ast_size + cs[1].ast_size) as nat,
        ),
        FheLangDiscriminant::Neg => (cs[0].md as nat, cs[0].mc as nat, (1 + cs[0].ast_size) as nat),
        FheLangDiscriminant::Outputs => (max_md(cs), sum_mc(cs), sum_size(cs)),
    }
}

/// Every component of the cost fits in a `usize`.
pub open spec fn md_cost_fits(kind: FheLangDiscriminant, cs: Seq<MdCost>) -> bool {
    let (md, mc, size) = spec_md_cost(kind, cs);
    md <= usize::MAX && mc <= usize::MAX && size <= usize::MAX
}

/// Tree-based extractor cost: minimize MD first, then tree MC, then AST
/// size. Unlike MC, MD is unaffected by DAG sharing.
pub struct MinMdTreeCost;

impl MinMdTreeCost {
    /// The cost of a node of kind `kind` whose children, in order, cost
    /// `child_costs`.
    pub fn cost(&mut self, kind: FheLangDiscriminant, child_costs: &[MdCost]) -> (res: MdCost)
        requires
            arity(kind) is Some ==> child_costs@.len() == arity(kind).unwrap(),
            md_cost_fits(kind, child_costs@),
        ensures
            (res.md as nat, res.mc as nat, res.ast_size as nat) == spec_md_cost(
                kind,
                child_costs@,
            ),
    {
        match kind {
            FheLangDiscriminant::Num | FheLangDiscriminant::Symbol => MdCost::leaf(),
            FheLangDiscriminant::Add => {
                let ca = child_costs[0];
                let cb = child_costs[1];
                let md = if ca.md >= cb.md {
                    ca.md
                } else {
                    cb.md
                };
                MdCost::new(md, ca.mc + cb.mc, 1 + ca.ast_size + cb.ast_size)
            },
            FheLangDiscriminant::Mul => {
                let ca = child_costs[0];
                let cb = child_costs[1];
                let md = if ca.md >= cb.md {
                    ca.md
                } else {
                    cb.md
                };
                MdCost::new(md + 1, ca.mc + cb.mc + 1, 1 + ca.ast_size + cb.ast_size)
            },
            FheLangDiscriminant::Neg => {
                let c = child_costs[0];
                MdCost::new(c.md, c.mc, 1 + c.ast_size)
            },
            FheLangDiscriminant::Outputs => {
                let mut md: usize = 0;
                let mut mc: usize = 0;
                let mut ast_size: usize = 0;
                let mut i: usize = 0;
                proof {
                    lemma_sums_monotone(child_costs@, child_costs@.len() as int);
                }
                while i < child_costs.len()
                    invariant
                        i <= child_costs@.len(),
                        md == max_md(child_costs@.subrange(0, i as int)),
                        mc == sum_mc(child_costs@.subrange(0, i as int)),
                        ast_size == sum_size(child_costs@.subrange(0, i as int)),
                        md_cost_fits(kind, child_costs@),
                        kind == FheLangDiscriminant::Outputs,
                        forall|j: int|
                            0 <= j <= child_costs@.len() ==> sum_mc(
                                #[trigger] child_costs@.subrange(0, j),
                            ) <= sum_mc(child_costs@) && sum_size(child_costs@.subrange(0, j))
                                <= sum_size(child_costs@),
                    decreases child_costs@.len() - i,
                {
                    let cost = child_costs[i];
                    let ghost sub = child_costs@.subrange(0, i + 1);
                    assert(sub.drop_last() =~= child_costs@.subrange(0, i as int));
                    assert(sub.last() == cost);
                    assert(child_costs@.subrange(0, i + 1) == sub);
                    if cost.md > md {
                        md = cost.md;
                    }
                    mc = mc + cost.mc;
                    ast_size = ast_size + cost.ast_size;
                    i = i + 1;
                }
                assert(child_costs@.subrange(0, i as int) =~= child_costs@);
                MdCost::new(md, mc, ast_size)
            },
        }
    }
}

proof fn lemma_sums_monotone(cs: Seq<MdCost>, n: int)
    requires
        0 <= n <= cs.len(),
    ensures
        forall|j: int|
            0 <= j <= n ==> sum_mc(#[trigger] cs.subrange(0, j)) <= sum_mc(cs.subrange(0, n))
                && sum_size(cs.subrange(0, j)) <= sum_size(cs.subrange(0, n)),
        cs.subrange(0, cs.len() as int) == cs,
    decreases n,
{
    assert(cs.subrange(0, cs.len() as int) =~= cs);
    if n > 0 {
        lemma_sums_monotone(cs, n - 1);
        assert(cs.subrange(0, n).drop_last() =~= cs.subrange(0, n - 1));
    }
}

/// Cost function for the global DAG extractor: the objective is the number
/// of unique multiplication nodes. Every selected `Mul` contributes one;
/// additions, negations, constants, variables and the virtual root nothing.
#[derive(Clone, Debug, Default)]
pub struct GlobalMcCost;

impl GlobalMcCost {
    /// Objective weight of a node of kind `kind`.
    pub fn node_weight(&mut self, kind: FheLangDiscriminant) -> (res: u32)
        ensures
            res == (if kind == FheLangDiscriminant::Mul {
                1u32
            } else {
                0u32
            }),
    {
        match kind {
            FheLangDiscriminant::Mul => 1,
            FheLangDiscriminant::Add | FheLangDiscriminant::Neg | FheLangDiscriminant::Num
            | FheLangDiscriminant::Symbol | FheLangDiscriminant::Outputs => 0,
        }
    }
}

// ---------------------------------------------------------------------
// Tree cost of terms, and sharing
// ---------------------------------------------------------------------
/// Multiplicative depth of a term, as the tree cost counts it.
pub open spec fn term_md(t: Tree) -> nat
    decreases t,
{
    match t {
        Tree::Add(a, b) => vstd::math::max(term_md(*a) as int, term_md(*b) as int) as nat,
        Tree::Mul(a, b) => (vstd::math::max(term_md(*a) as int, term_md(*b) as int) + 1) as nat,
        Tree::Neg(a) => term_md(*a),
        _ => 0,
    }
}

/// Multiplications in a term, every occurrence counted.
pub open spec fn term_mc(t: Tree) -> nat
    decreases t,
{
    match t {
        Tree::Add(a, b) => term_mc(*a) + term_mc(*b),
        Tree::Mul(a, b) => term_mc(*a) + term_mc(*b) + 1,
        Tree::Neg(a) => term_mc(*a),
        _ => 0,
    }
}

/// The deepest of the terms of the source nodes `srcs` of `e`.
pub open spec fn srcs_md(e: Seq<SpecLang>, srcs: Seq<usize>) -> nat
    decreases srcs.len(),
{
    if srcs.len() == 0 {
        0
    } else {
        vstd::math::max(
            srcs_md(e, srcs.drop_last()) as int,
            term_md(expr_tree(e, srcs.last() as int)) as int,
        ) as nat
    }
}

/// The multiplications of the terms of the source nodes `srcs` of `e`.
pub open spec fn srcs_mc(e: Seq<SpecLang>, srcs: Seq<usize>) -> nat
    decreases srcs.len(),
{
    if srcs.len() == 0 {
        0
    } else {
        srcs_mc(e, srcs.drop_last()) + term_mc(expr_tree(e, srcs.last() as int))
    }
}

/// `cs` are the tree costs of the terms of the source nodes `srcs`.
pub open spec fn costs_of(e: Seq<SpecLang>, srcs: Seq<usize>, cs: Seq<MdCost>) -> bool {
    &&& cs.len() == srcs.len()
    &&& forall|k: int|
        0 <= k < cs.len() ==> (#[trigger] cs[k]).md == term_md(expr_tree(e, srcs[k] as int))
            && cs[k].mc == term_mc(expr_tree(e, srcs[k] as int))
}

/// Costing an arithmetic node of `e` with `MinMdTreeCost::cost` from the
/// tree costs of its children gives the depth and the multiplications of
/// the node's term.
pub proof fn lemma_tree_cost_step(e: Seq<SpecLang>, id: int, cs: Seq<MdCost>)
    requires
        0 <= id < e.len(),
        !(e[id] is Outputs),
        forall|k: int| 0 <= k < spec_children(e[id]).len() ==> #[trigger] spec_children(e[id])[k] < id,
        costs_of(e, spec_children(e[id]), cs),
    ensures
        spec_md_cost(spec_discriminant(e[id]), cs).0 == term_md(expr_tree(e, id)),
        spec_md_cost(spec_discriminant(e[id]), cs).1 == term_mc(expr_tree(e, id)),
{
    let ch = spec_children(e[id]);
    if ch.len() >= 1 {
        assert(ch[0] < id);
        assert(cs[0].md == term_md(expr_tree(e, ch[0] as int)));
    }
    if ch.len() >= 2 {
        assert(ch[1] < id);
        assert(cs[1].md == term_md(expr_tree(e, ch[1] as int)));
    }
}

/// Costing the `outputs` root with `MinMdTreeCost::cost` from the tree
/// costs of its children gives the deepest of their terms and the sum of
/// their multiplications.
pub proof fn lemma_tree_cost_outputs(e: Seq<SpecLang>, srcs: Seq<usize>, cs: Seq<MdCost>)
    requires
        costs_of(e, srcs, cs),
    ensures
        spec_md_cost(FheLangDiscriminant::Outputs, cs).0 == srcs_md(e, srcs),
        spec_md_cost(FheLangDiscriminant::Outputs, cs).1 == srcs_mc(e, srcs),
    decreases srcs.len(),
{
    if srcs.len() > 0 {
        let n = srcs.len() - 1;
        assert(costs_of(e, srcs.drop_last(), cs.drop_last())) by {
            assert forall|k: int| 0 <= k < cs.drop_last().len() implies (#[trigger] cs.drop_last()[k]).md
                == term_md(expr_tree(e, srcs.drop_last()[k] as int)) && cs.drop_last()[k].mc
                == term_mc(expr_tree(e, srcs.drop_last()[k] as int)) by {
                assert(cs.drop_last()[k] == cs[k]);
            }
        }
        lemma_tree_cost_outputs(e, srcs.drop_last(), cs.drop_last());
        assert(cs[n] == cs.last());
    }
}

/// The depth of a DAG node is the depth of the term it denotes.
proof fn lemma_depth_term(nodes: Seq<SpecKey>, id: int)
    ensures
        depth(nodes, id) == term_md(key_tree(nodes, id)),
    decreases id,
{
    if 0 <= id < nodes.len() {
        match nodes[id] {
            SpecKey::Add(a, b) | SpecKey::Mul(a, b) => {
                if a < id && b < id {
                    lemma_depth_term(nodes, a as int);
                    lemma_depth_term(nodes, b as int);
                }
            },
            SpecKey::Neg(a) => {
                if a < id {
                    lemma_depth_term(nodes, a as int);
                }
            },
            _ => {},
        }
    }
}

proof fn lemma_roots_md(e: Seq<SpecLang>, srcs: Seq<usize>, nodes: Seq<SpecKey>, roots: Seq<usize>)
    requires
        roots.len() == srcs.len(),
        forall|k: int|
            0 <= k < roots.len() ==> key_tree(nodes, #[trigger] roots[k] as int) == expr_tree(
                e,
                srcs[k] as int,
            ),
    ensures
        max_root_depth(nodes, roots) == srcs_md(e, srcs),
    decreases roots.len(),
{
    if roots.len() > 0 {
        let n = roots.len() - 1;
        assert forall|k: int| 0 <= k < roots.drop_last().len() implies key_tree(
            nodes,
            #[trigger] roots.drop_last()[k] as int,
        ) == expr_tree(e, srcs.drop_last()[k] as int) by {
            assert(roots.drop_last()[k] == roots[k]);
        }
        lemma_roots_md(e, srcs.drop_last(), nodes, roots.drop_last());
        assert(key_tree(nodes, roots[n] as int) == expr_tree(e, srcs[n] as int));
        lemma_depth_term(nodes, roots.last() as int);
    }
}

/// MD is unaffected by DAG sharing: a DAG whose roots denote the terms of
/// the source roots of a program has the multiplicative depth of those
/// terms, which is the MD of the program's tree cost.
pub proof fn lemma_md_unaffected_by_sharing(e: Seq<SpecLang>, nodes: Seq<SpecKey>, roots: Seq<usize>)
    requires
        roots.len() == source_roots(e).len(),
        forall|k: int|
            0 <= k < roots.len() ==> key_tree(nodes, #[trigger] roots[k] as int) == expr_tree(
                e,
                source_roots(e)[k] as int,
            ),
    ensures
        spec_stats(nodes, roots).1 == srcs_md(e, source_roots(e)),
{
    lemma_roots_md(e, source_roots(e), nodes, roots);
}

/// The multiplications among the nodes `s`.
pub open spec fn muls(nodes: Seq<SpecKey>, s: Set<int>) -> Set<int> {
    s.filter(|i: int| is_mul(nodes[i]))
}

proof fn lemma_muls_union(nodes: Seq<SpecKey>, a: Set<int>, b: Set<int>)
    requires
        a.finite(),
        b.finite(),
    ensures
        (a + b).finite(),
        muls(nodes, a + b).len() <= muls(nodes, a).len() + muls(nodes, b).len(),
{
    a.lemma_len_filter(|i: int| is_mul(nodes[i]));
    b.lemma_len_filter(|i: int| is_mul(nodes[i]));
    assert(muls(nodes, a + b) =~= muls(nodes, a) + muls(nodes, b));
    vstd::set_lib::lemma_len_union(muls(nodes, a), muls(nodes, b));
}

/// The multiplications reachable from a node number at most the
/// multiplications of the term it denotes.
proof fn lemma_reach_muls(nodes: Seq<SpecKey>, id: int)
    requires
        keys_topological(nodes),
    ensures
        reach(nodes, id).finite(),
        muls(nodes, reach(nodes, id)).len() <= term_mc(key_tree(nodes, id)),
    decreases id,
{
    let one = Set::<int>::empty().insert(id);
    if id < 0 || id >= nodes.len() {
        assert(muls(nodes, reach(nodes, id)) =~= Set::<int>::empty());
    } else {
        let k = nodes[id];
        assert(muls(nodes, one).len() == (if is_mul(k) { 1int } else { 0int })) by {
            if is_mul(k) {
                assert(muls(nodes, one) =~= one);
            } else {
                assert(muls(nodes, one) =~= Set::<int>::empty());
            }
        }
        match k {
            SpecKey::Add(a, b) | SpecKey::Mul(a, b) => {
                assert(key_children(k)[0] < id && key_children(k)[1] < id);
                lemma_reach_muls(nodes, a as int);
                lemma_reach_muls(nodes, b as int);
                let ra = reach(nodes, a as int);
                let rb = reach(nodes, b as int);
                lemma_muls_union(nodes, one, ra);
                lemma_muls_union(nodes, one + ra, rb);
                assert(reach(nodes, id) == one + ra + rb);
            },
            SpecKey::Neg(a) => {
                assert(key_children(k)[0] < id);
                lemma_reach_muls(nodes, a as int);
                let ra = reach(nodes, a as int);
                lemma_muls_union(nodes, one, ra);
                assert(reach(nodes, id) == one + ra);
            },
            _ => {
                assert(reach(nodes, id) == one);
            },
        }
    }
}

proof fn lemma_roots_mc(e: Seq<SpecLang>, srcs: Seq<usize>, nodes: Seq<SpecKey>, roots: Seq<usize>)
    requires
        keys_topological(nodes),
        roots.len() == srcs.len(),
        forall|k: int|
            0 <= k < roots.len() ==> key_tree(nodes, #[trigger] roots[k] as int) == expr_tree(
                e,
                srcs[k] as int,
            ),
    ensures
        reach_roots(nodes, roots).finite(),
        muls(nodes, reach_roots(nodes, roots)).len() <= srcs_mc(e, srcs),
    decreases roots.len(),
{
    if roots.len() == 0 {
        assert(muls(nodes, reach_roots(nodes, roots)) =~= Set::<int>::empty());
    } else {
        let n = roots.len() - 1;
        assert forall|k: int| 0 <= k < roots.drop_last().len() implies key_tree(
            nodes,
            #[trigger] roots.drop_last()[k] as int,
        ) == expr_tree(e, srcs.drop_last()[k] as int) by {
            assert(roots.drop_last()[k] == roots[k]);
        }
        lemma_roots_mc(e, srcs.drop_last(), nodes, roots.drop_last());
        assert(key_tree(nodes, roots[n] as int) == expr_tree(e, srcs[n] as int));
        lemma_reach_muls(nodes, roots.last() as int);
        lemma_muls_union(nodes, reach_roots(nodes, roots.drop_last()), reach(nodes, roots.last() as int));
    }
}

/// Sharing can only lower MC: a DAG whose roots denote the terms of the
/// source roots of a program has at most the multiplications of those
/// terms, which is the MC of the program's tree cost.
pub proof fn lemma_sharing_bounds_mc(e: Seq<SpecLang>, nodes: Seq<SpecKey>, roots: Seq<usize>)
    requires
        keys_topological(nodes),
        roots.len() == source_roots(e).len(),
        forall|k: int|
            0 <= k < roots.len() ==> key_tree(nodes, #[trigger] roots[k] as int) == expr_tree(
                e,
                source_roots(e)[k] as int,
            ),
    ensures
        spec_stats(nodes, roots).0 <= srcs_mc(e, source_roots(e)),
{
    lemma_roots_mc(e, source_roots(e), nodes, roots);
    assert(spec_stats(nodes, roots).0 == muls(nodes, reach_roots(nodes, roots)).len());
}

// ---------------------------------------------------------------------
// The tree cost of a whole program
// ---------------------------------------------------------------------
/// The cost `MinMdTreeCost::cost` gives a node of kind `kind` whose
/// children cost `cs`.
pub open spec fn cost_from(kind: FheLangDiscriminant, cs: Seq<MdCost>) -> MdCost {
    let r = spec_md_cost(kind, cs);
    MdCost { md: r.0 as usize, mc: r.1 as usize, ast_size: r.2 as usize }
}

/// The tree cost of node `id` of `e`, with `MinMdTreeCost::cost` applied
/// bottom-up: each child is costed the same way.
pub open spec fn node_cost(e: Seq<SpecLang>, id: int) -> MdCost
    decreases id,
{
    let leaf = MdCost { md: 0, mc: 0, ast_size: 1 };
    if id < 0 || id >= e.len() {
        leaf
    } else {
        match e[id] {
            SpecLang::Add(a, b) => if a < id && b < id {
                cost_from(
                    FheLangDiscriminant::Add,
                    seq![node_cost(e, a as int), node_cost(e, b as int)],
                )
            } else {
                leaf
            },
            SpecLang::Mul(a, b) => if a < id && b < id {
                cost_from(
                    FheLangDiscriminant::Mul,
                    seq![node_cost(e, a as int), node_cost(e, b as int)],
                )
            } else {
                leaf
            },
            SpecLang::Neg(a) => if a < id {
                cost_from(FheLangDiscriminant::Neg, seq![node_cost(e, a as int)])
            } else {
                leaf
            },
            _ => cost_from(spec_discriminant(e[id]), seq![]),
        }
    }
}

/// The tree cost of a program: its last node, and an `outputs` root costed
/// from its children.
pub open spec fn program_cost(e: Seq<SpecLang>) -> MdCost {
    match e.last() {
        SpecLang::Outputs(c) => cost_from(
            FheLangDiscriminant::Outputs,
            Seq::new(c.len(), |k: int| node_cost(e, c[k] as int)),
        ),
        _ => node_cost(e, e.len() - 1),
    }
}

proof fn lemma_term_md_bound(e: Seq<SpecLang>, id: int)
    ensures
        term_md(expr_tree(e, id)) <= if id < 0 {
            0
        } else {
            id
        },
    decreases id,
{
    if 0 <= id < e.len() {
        match e[id] {
            SpecLang::Add(a, b) | SpecLang::Mul(a, b) => {
                if a < id && b < id {
                    lemma_term_md_bound(e, a as int);
                    lemma_term_md_bound(e, b as int);
                }
            },
            SpecLang::Neg(a) => {
                if a < id {
                    lemma_term_md_bound(e, a as int);
                }
            },
            _ => {},
        }
    }
}

proof fn lemma_node_cost(e: Seq<SpecLang>, id: int)
    requires
        e.len() <= usize::MAX,
        term_mc(expr_tree(e, id)) <= usize::MAX,
    ensures
        node_cost(e, id).md == term_md(expr_tree(e, id)),
        node_cost(e, id).mc == term_mc(expr_tree(e, id)),
    decreases id,
{
    lemma_term_md_bound(e, id);
    if 0 <= id < e.len() {
        match e[id] {
            SpecLang::Add(a, b) | SpecLang::Mul(a, b) => {
                if a < id && b < id {
                    lemma_node_cost(e, a as int);
                    lemma_node_cost(e, b as int);
                }
            },
            SpecLang::Neg(a) => {
                if a < id {
                    lemma_node_cost(e, a as int);
                }
            },
            _ => {},
        }
    }
}

proof fn lemma_srcs_bounds(e: Seq<SpecLang>, srcs: Seq<usize>)
    ensures
        srcs_md(e, srcs) <= e.len(),
        forall|k: int|
            0 <= k < srcs.len() ==> term_mc(expr_tree(e, #[trigger] srcs[k] as int)) <= srcs_mc(
                e,
                srcs,
            ),
    decreases srcs.len(),
{
    if srcs.len() > 0 {
        lemma_srcs_bounds(e, srcs.drop_last());
        lemma_term_md_bound(e, srcs.last() as int);
        assert forall|k: int| 0 <= k < srcs.len() implies term_mc(
            expr_tree(e, #[trigger] srcs[k] as int),
        ) <= srcs_mc(e, srcs) by {
            if k < srcs.len() - 1 {
                assert(srcs[k] == srcs.drop_last()[k]);
            }
        }
    }
}

/// The tree cost that `MinMdTreeCost::cost` gives a whole program, when its
/// multiplications fit in a `usize`, has the depth and the multiplications
/// of the terms of its roots.
pub proof fn lemma_program_cost(e: Seq<SpecLang>)
    requires
        e.len() > 0,
        e.len() <= usize::MAX,
        srcs_mc(e, source_roots(e)) <= usize::MAX,
    ensures
        program_cost(e).md == srcs_md(e, source_roots(e)),
        program_cost(e).mc == srcs_mc(e, source_roots(e)),
{
    let srcs = source_roots(e);
    lemma_srcs_bounds(e, srcs);
    match e.last() {
        SpecLang::Outputs(c) => {
            let cs = Seq::new(c.len(), |k: int| node_cost(e, c[k] as int));
            assert(srcs == c);
            assert forall|k: int| 0 <= k < cs.len() implies (#[trigger] cs[k]).md == term_md(
                expr_tree(e, c[k] as int),
            ) && cs[k].mc == term_mc(expr_tree(e, c[k] as int)) by {
                assert(term_mc(expr_tree(e, srcs[k] as int)) <= srcs_mc(e, srcs));
                lemma_node_cost(e, c[k] as int);
            }
            assert(costs_of(e, c, cs));
            lemma_tree_cost_outputs(e, c, cs);
            assert(program_cost(e) == cost_from(FheLangDiscriminant::Outputs, cs));
        },
        _ => {
            let r = (e.len() - 1) as usize;
            assert(srcs == seq![r]);
            assert(srcs.drop_last() =~= Seq::<usize>::empty());
            assert(srcs.last() == r);
            assert(term_mc(expr_tree(e, srcs[0] as int)) <= srcs_mc(e, srcs));
            lemma_node_cost(e, e.len() - 1);
            assert(srcs_md(e, srcs.drop_last()) == 0);
            assert(srcs_mc(e, srcs.drop_last()) == 0);
            assert(srcs.last() as int == e.len() - 1);
            assert(program_cost(e) == node_cost(e, e.len() - 1));
        },
    }
}

} // verus!
