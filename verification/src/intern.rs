//! Building a shared DAG from an extracted program (`Dag::from_recexpr`):
//! source nodes are memoized and structurally equal nodes hash-consed.
use vstd::prelude::*;
use crate::dag::{
    dag_wf, key_children, keys_topological, keys_view, reach, reach_roots, spec_stats, Dag, DagId,
    DagKey, SpecKey,
};
use crate::cost::{
    lemma_md_unaffected_by_sharing, lemma_program_cost, lemma_sharing_bounds_mc, program_cost,
    srcs_mc, srcs_md,
};
use crate::lang::{nodes_topological, spec_children, FheLang, RecExpr, SpecLang};

verus! {

/// The term a node denotes, shared subterms unfolded.
pub enum Tree {
    Num(i64),
    Symbol(Seq<char>),
    Add(Box<Tree>, Box<Tree>),
    Mul(Box<Tree>, Box<Tree>),
    Neg(Box<Tree>),
    /// A node that denotes no arithmetic term (out of range, or an output list).
    Invalid,
}

pub open spec fn key_tree(nodes: Seq<SpecKey>, id: int) -> Tree
    decreases id,
{
    if id < 0 || id >= nodes.len() {
        Tree::Invalid
    } else {
        match nodes[id] {
            SpecKey::Num(n) => Tree::Num(n),
            SpecKey::Symbol(s) => Tree::Symbol(s),
            SpecKey::Add(a, b) => if a < id && b < id {
                Tree::Add(Box::new(key_tree(nodes, a as int)), Box::new(key_tree(nodes, b as int)))
            } else {
                Tree::Invalid
            },
            SpecKey::Mul(a, b) => if a < id && b < id {
                Tree::Mul(Box::new(key_tree(nodes, a as int)), Box::new(key_tree(nodes, b as int)))
            } else {
                Tree::Invalid
            },
            SpecKey::Neg(a) => if a < id {
                Tree::Neg(Box::new(key_tree(nodes, a as int)))
            } else {
                Tree::Invalid
            },
        }
    }
}

pub open spec fn expr_tree(e: Seq<SpecLang>, id: int) -> Tree
    decreases id,
{
    if id < 0 || id >= e.len() {
        Tree::Invalid
    } else {
        match e[id] {
            SpecLang::Num(n) => Tree::Num(n),
            SpecLang::Symbol(s) => Tree::Symbol(s),
            SpecLang::Add(a, b) => if a < id && b < id {
                Tree::Add(Box::new(expr_tree(e, a as int)), Box::new(expr_tree(e, b as int)))
            } else {
                Tree::Invalid
            },
            SpecLang::Mul(a, b) => if a < id && b < id {
                Tree::Mul(Box::new(expr_tree(e, a as int)), Box::new(expr_tree(e, b as int)))
            } else {
                Tree::Invalid
            },
            SpecLang::Neg(a) => if a < id {
                Tree::Neg(Box::new(expr_tree(e, a as int)))
            } else {
                Tree::Invalid
            },
            SpecLang::Outputs(_) => Tree::Invalid,
        }
    }
}

/// No `outputs` node is reachable from `src`.
pub open spec fn no_outputs_below(e: Seq<SpecLang>, src: int) -> bool
    decreases src,
{
    if src < 0 || src >= e.len() {
        false
    } else {
        match e[src] {
            SpecLang::Num(_) | SpecLang::Symbol(_) => true,
            SpecLang::Add(a, b) | SpecLang::Mul(a, b) => a < src && b < src && no_outputs_below(
                e,
                a as int,
            ) && no_outputs_below(e, b as int),
            SpecLang::Neg(a) => a < src && no_outputs_below(e, a as int),
            SpecLang::Outputs(_) => false,
        }
    }
}

/// The source nodes that become DAG roots: the children of a top-level
/// `outputs` node, or else the last node itself.
pub open spec fn source_roots(e: Seq<SpecLang>) -> Seq<usize> {
    match e.last() {
        SpecLang::Outputs(c) => c,
        _ => seq![(e.len() - 1) as usize],
    }
}

/// Inputs on which `from_recexpr` builds a DAG: a non-empty program whose
/// `outputs` node, if any, is the top-level root with at least one child.
pub open spec fn dag_convertible(e: Seq<SpecLang>) -> bool {
    &&& e.len() > 0
    &&& source_roots(e).len() > 0
    &&& forall|k: int|
        0 <= k < source_roots(e).len() ==> no_outputs_below(e, #[trigger] source_roots(e)[k] as int)
}

/// First index of `key` in `nodes`, from `i` on.
pub open spec fn find_key(nodes: Seq<SpecKey>, key: SpecKey, i: int) -> Option<nat>
    decreases nodes.len() - i,
{
    if i < 0 || i >= nodes.len() {
        None
    } else if nodes[i] == key {
        Some(i as nat)
    } else {
        find_key(nodes, key, i + 1)
    }
}

/// Structural hash-consing: reuse the node equal to `key`, or append it.
pub open spec fn hashcons(nodes: Seq<SpecKey>, key: SpecKey) -> (Seq<SpecKey>, nat) {
    match find_key(nodes, key, 0) {
        Some(i) => (nodes, i),
        None => (nodes.push(key), nodes.len()),
    }
}

/// Interning of source node `src`: the memo of source ids already visited,
/// the DAG nodes so far, and the DAG id of `src`. Children are interned
/// first, left to right.
pub open spec fn intern(e: Seq<SpecLang>, src: int, memo: Seq<Option<nat>>, nodes: Seq<SpecKey>) -> (
    Seq<Option<nat>>,
    Seq<SpecKey>,
    nat,
)
    decreases src,
{
    if src < 0 || src >= e.len() || src >= memo.len() {
        (memo, nodes, 0)
    } else if memo[src] is Some {
        (memo, nodes, memo[src].unwrap())
    } else {
        match e[src] {
            SpecLang::Num(v) => {
                let (n1, id) = hashcons(nodes, SpecKey::Num(v));
                (memo.update(src, Some(id)), n1, id)
            },
            SpecLang::Symbol(s) => {
                let (n1, id) = hashcons(nodes, SpecKey::Symbol(s));
                (memo.update(src, Some(id)), n1, id)
            },
            SpecLang::Add(a, b) => if a < src && b < src {
                let (m1, n1, l) = intern(e, a as int, memo, nodes);
                let (m2, n2, r) = intern(e, b as int, m1, n1);
                let (n3, id) = hashcons(n2, SpecKey::Add(l as usize, r as usize));
                (m2.update(src, Some(id)), n3, id)
            } else {
                (memo, nodes, 0)
            },
            SpecLang::Mul(a, b) => if a < src && b < src {
                let (m1, n1, l) = intern(e, a as int, memo, nodes);
                let (m2, n2, r) = intern(e, b as int, m1, n1);
                let (n3, id) = hashcons(n2, SpecKey::Mul(l as usize, r as usize));
                (m2.update(src, Some(id)), n3, id)
            } else {
                (memo, nodes, 0)
            },
            SpecLang::Neg(a) => if a < src {
                let (m1, n1, c) = intern(e, a as int, memo, nodes);
                let (n2, id) = hashcons(n1, SpecKey::Neg(c as usize));
                (m1.update(src, Some(id)), n2, id)
            } else {
                (memo, nodes, 0)
            },
            SpecLang::Outputs(_) => (memo, nodes, 0),
        }
    }
}

/// Interning of a list of source roots, in order.
pub open spec fn intern_list(
    e: Seq<SpecLang>,
    srcs: Seq<usize>,
    memo: Seq<Option<nat>>,
    nodes: Seq<SpecKey>,
) -> (Seq<Option<nat>>, Seq<SpecKey>, Seq<nat>)
    decreases srcs.len(),
{
    if srcs.len() == 0 {
        (memo, nodes, seq![])
    } else {
        let (m1, n1, ids) = intern_list(e, srcs.drop_last(), memo, nodes);
        let (m2, n2, id) = intern(e, srcs.last() as int, m1, n1);
        (m2, n2, ids.push(id))
    }
}

/// The DAG `from_recexpr` builds: its nodes and its roots.
pub open spec fn spec_from_recexpr(e: Seq<SpecLang>) -> (Seq<SpecKey>, Seq<nat>) {
    let (_, nodes, ids) = intern_list(
        e,
        source_roots(e),
        Seq::new(e.len(), |i: int| None),
        Seq::empty(),
    );
    (nodes, ids)
}

pub open spec fn keys_distinct(nodes: Seq<SpecKey>) -> bool {
    forall|i: int, j: int| 0 <= i < nodes.len() && 0 <= j < nodes.len() && i != j ==> nodes[i]
        != nodes[j]
}

pub open spec fn memo_view(m: Seq<Option<usize>>) -> Seq<Option<nat>> {
    m.map_values(|o: Option<usize>| if o is Some { Some(o.unwrap() as nat) } else { None })
}

/// What the interning state keeps: topological, duplicate-free nodes, and a
/// memo whose entries are nodes denoting the same terms as their sources.
pub open spec fn state_ok(e: Seq<SpecLang>, memo: Seq<Option<nat>>, nodes: Seq<SpecKey>) -> bool {
    &&& memo.len() == e.len()
    &&& keys_topological(nodes)
    &&& keys_distinct(nodes)
    &&& forall|i: int|
        0 <= i < memo.len() && #[trigger] memo[i] is Some ==> memo[i].unwrap() < nodes.len()
            && key_tree(nodes, memo[i].unwrap() as int) == expr_tree(e, i)
}

proof fn lemma_key_tree_push(nodes: Seq<SpecKey>, k: SpecKey, id: int)
    requires
        0 <= id < nodes.len(),
    ensures
        key_tree(nodes.push(k), id) == key_tree(nodes, id),
    decreases id,
{
    let n2 = nodes.push(k);
    assert(n2[id] == nodes[id]);
    match nodes[id] {
        SpecKey::Add(a, b) | SpecKey::Mul(a, b) => {
            if a < id && b < id {
                lemma_key_tree_push(nodes, k, a as int);
                lemma_key_tree_push(nodes, k, b as int);
            }
        },
        SpecKey::Neg(a) => {
            if a < id {
                lemma_key_tree_push(nodes, k, a as int);
            }
        },
        _ => {},
    }
}

proof fn lemma_find_key(nodes: Seq<SpecKey>, key: SpecKey, i: int)
    requires
        0 <= i,
    ensures
        match find_key(nodes, key, i) {
            Some(j) => i <= j < nodes.len() && nodes[j as int] == key,
            None => forall|j: int| i <= j < nodes.len() ==> nodes[j] != key,
        },
    decreases nodes.len() - i,
{
    if i < nodes.len() && nodes[i] != key {
        lemma_find_key(nodes, key, i + 1);
    }
}

fn key_eq(a: &DagKey, b: &DagKey) -> (res: bool)
    ensures
        res == (a@ == b@),
{
    match (a, b) {
        (DagKey::Num(x), DagKey::Num(y)) => *x == *y,
        (DagKey::Symbol(x), DagKey::Symbol(y)) => *x == *y,
        (DagKey::Add(x1, x2), DagKey::Add(y1, y2)) => *x1 == *y1 && *x2 == *y2,
        (DagKey::Mul(x1, x2), DagKey::Mul(y1, y2)) => *x1 == *y1 && *x2 == *y2,
        (DagKey::Neg(x), DagKey::Neg(y)) => *x == *y,
        _ => false,
    }
}

/// Reuse the node structurally equal to `key`, or append `key`.
fn hashcons_exec(nodes: &mut Vec<DagKey>, key: DagKey, Ghost(tree): Ghost<Tree>) -> (id: usize)
    requires
        keys_topological(keys_view(old(nodes)@)),
        keys_distinct(keys_view(old(nodes)@)),
        forall|k: int|
            0 <= k < key_children(key@).len() ==> #[trigger] key_children(key@)[k]
                < old(nodes)@.len(),
        key_tree(keys_view(old(nodes)@).push(key@), old(nodes)@.len() as int) == tree,
    ensures
        (keys_view(final(nodes)@), id as nat) == hashcons(keys_view(old(nodes)@), key@),
        keys_topological(keys_view(final(nodes)@)),
        keys_distinct(keys_view(final(nodes)@)),
        id < final(nodes)@.len(),
        final(nodes)@.len() >= old(nodes)@.len(),
        key_tree(keys_view(final(nodes)@), id as int) == tree,
        forall|j: int|
            0 <= j < old(nodes)@.len() ==> key_tree(keys_view(final(nodes)@), j) == key_tree(
                keys_view(old(nodes)@),
                j,
            ),
{
    let ghost kv = keys_view(nodes@);
    proof {
        lemma_find_key(kv, key@, 0);
    }
    let mut i: usize = 0;
    while i < nodes.len()
        invariant
            kv == keys_view(nodes@),
            keys_topological(kv),
            keys_distinct(kv),
            forall|k: int|
                0 <= k < key_children(key@).len() ==> #[trigger] key_children(key@)[k] < kv.len(),
            key_tree(kv.push(key@), kv.len() as int) == tree,
            i <= nodes@.len(),
            forall|j: int| 0 <= j < i ==> kv[j] != key@,
            find_key(kv, key@, 0) == find_key(kv, key@, i as int),
        decreases nodes@.len() - i,
    {
        if key_eq(&nodes[i], &key) {
            proof {
                assert(kv[i as int] == key@);
                assert(find_key(kv, key@, i as int) == Some(i as nat));
                // The pushed node does not change the key at `i`.
                let n2 = kv.push(key@);
                let t = key_tree(n2, kv.len() as int);
                assert(n2[kv.len() as int] == key@);
                lemma_same_tree_same_key(kv, key@, i as int);
            }
            return i;
        }
        i = i + 1;
    }
    let ghost old_nodes = nodes@;
    let id = nodes.len();
    nodes.push(key);
    proof {
        assert(keys_view(nodes@) =~= kv.push(key@));
        let nv = keys_view(nodes@);
        assert forall|a: int, k: int|
            0 <= a < nv.len() && 0 <= k < key_children(#[trigger] nv[a]).len() implies (
            #[trigger] key_children(nv[a])[k]) < a by {
            if a < kv.len() {
                assert(nv[a] == kv[a]);
            }
        }
        assert forall|a: int, b: int| 0 <= a < nv.len() && 0 <= b < nv.len() && a != b implies nv[a]
            != nv[b] by {
            if a < kv.len() {
                assert(nv[a] == kv[a]);
            }
            if b < kv.len() {
                assert(nv[b] == kv[b]);
            }
        }
        assert forall|j: int| 0 <= j < old_nodes.len() implies key_tree(nv, j) == key_tree(
            kv,
            j,
        ) by {
            lemma_key_tree_push(kv, key@, j);
        }
    }
    id
}

/// A node equal to the key appended at the end denotes the same term.
proof fn lemma_same_tree_same_key(kv: Seq<SpecKey>, key: SpecKey, i: int)
    requires
        0 <= i < kv.len(),
        kv[i] == key,
        keys_topological(kv),
    ensures
        key_tree(kv, i) == key_tree(kv.push(key), kv.len() as int),
{
    let n2 = kv.push(key);
    assert(n2[kv.len() as int] == key);
    assert(key_children(kv[i]).len() >= 0);
    match key {
        SpecKey::Add(a, b) | SpecKey::Mul(a, b) => {
            assert(key_children(kv[i])[0] == a);
            assert(key_children(kv[i])[1] == b);
            lemma_key_tree_push(kv, key, a as int);
            lemma_key_tree_push(kv, key, b as int);
        },
        SpecKey::Neg(a) => {
            assert(key_children(kv[i])[0] == a);
            lemma_key_tree_push(kv, key, a as int);
        },
        _ => {},
    }
}

proof fn lemma_state_push(
    e: Seq<SpecLang>,
    memo: Seq<Option<nat>>,
    before: Seq<SpecKey>,
    after: Seq<SpecKey>,
)
    requires
        state_ok(e, memo, before),
        keys_topological(after),
        keys_distinct(after),
        after.len() >= before.len(),
        forall|j: int| 0 <= j < before.len() ==> key_tree(after, j) == key_tree(before, j),
    ensures
        state_ok(e, memo, after),
{
}

fn intern_expr(
    e: &[FheLang],
    src: usize,
    memo: &mut Vec<Option<usize>>,
    nodes: &mut Vec<DagKey>,
) -> (id: DagId)
    requires
        nodes_topological(e@.map_values(|n: FheLang| n@)),
        src < e@.len(),
        no_outputs_below(e@.map_values(|n: FheLang| n@), src as int),
        state_ok(e@.map_values(|n: FheLang| n@), memo_view(old(memo)@), keys_view(old(nodes)@)),
    ensures
        (memo_view(final(memo)@), keys_view(final(nodes)@), id as nat) == intern(
            e@.map_values(|n: FheLang| n@),
            src as int,
            memo_view(old(memo)@),
            keys_view(old(nodes)@),
        ),
        state_ok(e@.map_values(|n: FheLang| n@), memo_view(final(memo)@), keys_view(final(nodes)@)),
        final(nodes)@.len() >= old(nodes)@.len(),
        id < final(nodes)@.len(),
        key_tree(keys_view(final(nodes)@), id as int) == expr_tree(
            e@.map_values(|n: FheLang| n@),
            src as int,
        ),
        forall|j: int|
            0 <= j < old(nodes)@.len() ==> key_tree(keys_view(final(nodes)@), j) == key_tree(
                keys_view(old(nodes)@),
                j,
            ),
        forall|j: int|
            0 <= j < old(nodes)@.len() ==> #[trigger] keys_view(final(nodes)@)[j] == keys_view(
                old(nodes)@,
            )[j],
        forall|j: int|
            old(nodes)@.len() <= j < final(nodes)@.len() ==> #[trigger] reach(
                keys_view(final(nodes)@),
                id as int,
            ).contains(j),
    decreases src,
{
    let ghost ev = e@.map_values(|n: FheLang| n@);
    let ghost m0 = memo_view(memo@);
    let ghost n0 = keys_view(nodes@);
    let ghost mut n1 = n0;
    assert(m0[src as int] == (if memo@[src as int] is Some {
        Some(memo@[src as int].unwrap() as nat)
    } else {
        None
    }));
    if let Some(dag_id) = memo[src] {
        return dag_id;
    }
    assert(ev[src as int] == e@[src as int]@);
    assert(m0.len() == e@.len());
    let ghost tree = expr_tree(ev, src as int);
    let key = match &e[src] {
        FheLang::Num(v) => DagKey::Num(*v),
        FheLang::Symbol(s) => DagKey::Symbol(s.clone()),
        FheLang::Add(a, b) => {
            let l = intern_expr(e, *a, memo, nodes);
            proof {
                n1 = keys_view(nodes@);
            }
            let r = intern_expr(e, *b, memo, nodes);
            DagKey::Add(l, r)
        },
        FheLang::Mul(a, b) => {
            let l = intern_expr(e, *a, memo, nodes);
            proof {
                n1 = keys_view(nodes@);
            }
            let r = intern_expr(e, *b, memo, nodes);
            DagKey::Mul(l, r)
        },
        FheLang::Neg(a) => {
            let c = intern_expr(e, *a, memo, nodes);
            proof {
                n1 = keys_view(nodes@);
            }
            DagKey::Neg(c)
        },
        FheLang::Outputs(_) => {
            proof {
                assert(false);
            }
            DagKey::Num(0)
        },
    };
    let ghost n_mid = keys_view(nodes@);
    let ghost m_mid = memo_view(memo@);
    proof {
        let nv = n_mid.push(key@);
        assert(nv[n_mid.len() as int] == key@);
        match key@ {
            SpecKey::Add(l, r) | SpecKey::Mul(l, r) => {
                lemma_key_tree_push(n_mid, key@, l as int);
                lemma_key_tree_push(n_mid, key@, r as int);
            },
            SpecKey::Neg(c) => {
                lemma_key_tree_push(n_mid, key@, c as int);
            },
            _ => {},
        }
    }
    let id = hashcons_exec(nodes, key, Ghost(tree));
    let ghost old_memo = memo@;
    memo.set(src, Some(id));
    proof {
        assert(memo_view(memo@) =~= m_mid.update(src as int, Some(id as nat)));
        lemma_state_push(ev, m_mid, n_mid, keys_view(nodes@));
        let mv = memo_view(memo@);
        assert forall|i: int| 0 <= i < mv.len() && #[trigger] mv[i] is Some implies mv[i].unwrap()
            < keys_view(nodes@).len() && key_tree(keys_view(nodes@), mv[i].unwrap() as int)
            == expr_tree(ev, i) by {
            if i != src {
                assert(mv[i] == m_mid[i]);
            }
        }
        let ch = key_children(key@);
        let l: int = if ch.len() >= 1 {
            ch[0] as int
        } else {
            0
        };
        let r: int = if ch.len() >= 2 {
            ch[1] as int
        } else {
            0
        };
        lemma_intern_reach(n0, n1, n_mid, keys_view(nodes@), key@, id as int, l, r);
    }
    id
}

/// When every node is reachable, the statistics count every node.
proof fn lemma_all_reached(nodes: Seq<SpecKey>, roots: Seq<usize>)
    requires
        forall|j: int| 0 <= j < nodes.len() ==> #[trigger] reach_roots(nodes, roots).contains(j),
    ensures
        spec_stats(nodes, roots).3 == nodes.len(),
{
    let r = reach_roots(nodes, roots);
    crate::dag::lemma_reach_roots_bounds(nodes, roots);
    assert(r =~= vstd::set_lib::set_int_range(0, nodes.len() as int));
    vstd::set_lib::lemma_int_range(0, nodes.len() as int);
}

/// The nodes appended while interning a source node are reachable from
/// the node it interns to: those of its first child from that child, those
/// of its second child from that one, and the node itself.
proof fn lemma_intern_reach(
    n0: Seq<SpecKey>,
    n1: Seq<SpecKey>,
    n2: Seq<SpecKey>,
    nv: Seq<SpecKey>,
    key: SpecKey,
    id: int,
    l: int,
    r: int,
)
    requires
        n0.len() <= n1.len() <= n2.len(),
        forall|j: int| 0 <= j < n1.len() ==> #[trigger] n2[j] == n1[j],
        (nv, id as nat) == hashcons(n2, key),
        keys_topological(nv),
        0 <= id < nv.len(),
        key_children(key).len() == 0 ==> n2 == n0,
        key_children(key).len() == 1 ==> n2 == n1,
        key_children(key).len() >= 1 ==> key_children(key)[0] == l && l < n1.len() && forall|j: int|
            n0.len() <= j < n1.len() ==> #[trigger] reach(n1, l).contains(j),
        key_children(key).len() >= 2 ==> key_children(key)[1] == r && r < n2.len() && forall|j: int|
            n1.len() <= j < n2.len() ==> #[trigger] reach(n2, r).contains(j),
    ensures
        forall|j: int| n0.len() <= j < nv.len() ==> #[trigger] reach(nv, id).contains(j),
{
    lemma_find_key(n2, key, 0);
    assert forall|j: int| 0 <= j < n2.len() implies #[trigger] nv[j] == n2[j] by {}
    assert(nv[id] == key);
    assert forall|j: int| n0.len() <= j < nv.len() implies #[trigger] reach(nv, id).contains(j) by {
        if j >= n2.len() {
            crate::dag::lemma_reach_bounds(nv, id);
        } else if j < n1.len() {
            assert(key_children(nv[id])[0] == l);
            crate::dag::lemma_reach_extend(n1, nv, l);
            crate::dag::lemma_reach_child(nv, id, 0);
            assert(reach(n1, l).contains(j));
        } else {
            assert(key_children(nv[id])[1] == r);
            crate::dag::lemma_reach_extend(n2, nv, r);
            crate::dag::lemma_reach_child(nv, id, 1);
            assert(reach(n2, r).contains(j));
        }
    }
}

impl RecExpr {
    /// Whether `Dag::from_recexpr` accepts this program.
    pub fn dag_convertible(&self) -> (res: bool)
        ensures
            res == dag_convertible(self@),
    {
        let e = self.nodes();
        let ghost ev = self@;
        let n = e.len();
        if n == 0 {
            return false;
        }
        let mut memo: Vec<Option<bool>> = Vec::new();
        while memo.len() < n
            invariant
                memo@.len() <= n,
                forall|i: int| 0 <= i < memo@.len() ==> #[trigger] memo@[i] is None,
            decreases n - memo@.len(),
        {
            memo.push(None);
        }
        assert(ev[n - 1] == e@[n - 1]@);
        match &e[n - 1] {
            FheLang::Outputs(c) => {
                if c.len() == 0 {
                    return false;
                }
                let mut k: usize = 0;
                while k < c.len()
                    invariant
                        ev == e@.map_values(|x: FheLang| x@),
                        ev == self@,
                        nodes_topological(ev),
                        n == ev.len(),
                        source_roots(ev) == c@,
                        k <= c@.len(),
                        memo@.len() == n,
                        forall|i: int|
                            0 <= i < n && #[trigger] memo@[i] is Some ==> memo@[i].unwrap()
                                == no_outputs_below(ev, i),
                        forall|j: int| 0 <= j < k ==> no_outputs_below(ev, #[trigger] c@[j] as int),
                    decreases c@.len() - k,
                {
                    assert(source_roots(ev)[k as int] == c@[k as int]);
                    if c[k] >= n {
                        assert(!no_outputs_below(ev, c@[k as int] as int));
                        return false;
                    }
                    if !check_no_outputs(e, c[k], &mut memo) {
                        return false;
                    }
                    k = k + 1;
                }
                assert forall|j: int|
                    0 <= j < source_roots(ev).len() implies no_outputs_below(
                    ev,
                    #[trigger] source_roots(ev)[j] as int,
                ) by {
                    assert(source_roots(ev)[j] == c@[j]);
                }
                true
            },
            _ => {
                assert(source_roots(ev) =~= seq![(n - 1) as usize]);
                assert(source_roots(ev)[0] == n - 1);
                check_no_outputs(e, n - 1, &mut memo)
            },
        }
    }
}

fn check_no_outputs(e: &[FheLang], src: usize, memo: &mut Vec<Option<bool>>) -> (res: bool)
    requires
        nodes_topological(e@.map_values(|n: FheLang| n@)),
        src < e@.len(),
        old(memo)@.len() == e@.len(),
        forall|i: int|
            0 <= i < e@.len() && #[trigger] old(memo)@[i] is Some ==> old(memo)@[i].unwrap()
                == no_outputs_below(e@.map_values(|n: FheLang| n@), i),
    ensures
        res == no_outputs_below(e@.map_values(|n: FheLang| n@), src as int),
        final(memo)@.len() == e@.len(),
        forall|i: int|
            0 <= i < e@.len() && #[trigger] final(memo)@[i] is Some ==> final(memo)@[i].unwrap()
                == no_outputs_below(e@.map_values(|n: FheLang| n@), i),
    decreases src,
{
    let ghost ev = e@.map_values(|n: FheLang| n@);
    if let Some(b) = memo[src] {
        return b;
    }
    assert(ev[src as int] == e@[src as int]@);
    let ok = match &e[src] {
        FheLang::Num(_) | FheLang::Symbol(_) => true,
        FheLang::Add(a, b) | FheLang::Mul(a, b) => {
            assert(spec_children(ev[src as int])[0] == *a);
            assert(spec_children(ev[src as int])[1] == *b);
            check_no_outputs(e, *a, memo) && check_no_outputs(e, *b, memo)
        },
        FheLang::Neg(a) => {
            assert(spec_children(ev[src as int])[0] == *a);
            check_no_outputs(e, *a, memo)
        },
        FheLang::Outputs(_) => false,
    };
    memo.set(src, Some(ok));
    ok
}

impl Dag {
    /// Build a shared arithmetic DAG from an extracted program.
    ///
    /// A top-level `outputs(o1, ..., on)` becomes the DAG roots; an ordinary
    /// arithmetic root is one output. Every root denotes the same term as its
    /// source node, and no two DAG nodes are equal.
    pub fn from_recexpr(expr: &RecExpr) -> (res: Dag)
        requires
            dag_convertible(expr@),
        ensures
            (res@.nodes, res@.roots.map_values(|r: usize| r as nat)) == spec_from_recexpr(expr@),
            keys_distinct(res@.nodes),
            res@.roots.len() == source_roots(expr@).len(),
            forall|k: int|
                0 <= k < res@.roots.len() ==> key_tree(res@.nodes, #[trigger] res@.roots[k] as int)
                    == expr_tree(expr@, source_roots(expr@)[k] as int),
            forall|j: int|
                0 <= j < res@.nodes.len() ==> #[trigger] reach_roots(res@.nodes, res@.roots).contains(
                    j,
                ),
            spec_stats(res@.nodes, res@.roots).3 == res@.nodes.len(),
            spec_stats(res@.nodes, res@.roots).1 == srcs_md(expr@, source_roots(expr@)),
            spec_stats(res@.nodes, res@.roots).0 <= srcs_mc(expr@, source_roots(expr@)),
            srcs_mc(expr@, source_roots(expr@)) <= usize::MAX ==> spec_stats(res@.nodes, res@.roots).1
                == program_cost(expr@).md && spec_stats(res@.nodes, res@.roots).0 <= program_cost(
                expr@,
            ).mc,
    {
        let e = expr.nodes();
        let ghost ev = expr@;
        let n = e.len();
        let mut memo: Vec<Option<usize>> = Vec::new();
        while memo.len() < n
            invariant
                memo@.len() <= n,
                forall|i: int| 0 <= i < memo@.len() ==> #[trigger] memo@[i] is None,
            decreases n - memo@.len(),
        {
            memo.push(None);
        }
        assert(memo_view(memo@) =~= Seq::new(ev.len(), |i: int| None));
        let mut nodes: Vec<DagKey> = Vec::new();
        assert(keys_view(nodes@) =~= Seq::<SpecKey>::empty());
        let root_src = n - 1;
        assert(ev[root_src as int] == e@[root_src as int]@);
        let srcs: Vec<usize> = match &e[root_src] {
            FheLang::Outputs(c) => c.clone(),
            _ => {
                let mut v = Vec::new();
                v.push(root_src);
                v
            },
        };
        assert(srcs@ =~= source_roots(ev));
        let mut roots: Vec<DagId> = Vec::new();
        let mut k: usize = 0;
        while k < srcs.len()
            invariant
                ev == e@.map_values(|x: FheLang| x@),
                nodes_topological(ev),
                dag_convertible(ev),
                srcs@ == source_roots(ev),
                k <= srcs@.len(),
                state_ok(ev, memo_view(memo@), keys_view(nodes@)),
                (memo_view(memo@), keys_view(nodes@), roots@.map_values(|r: usize| r as nat))
                    == intern_list(
                    ev,
                    srcs@.subrange(0, k as int),
                    Seq::new(ev.len(), |i: int| None),
                    Seq::empty(),
                ),
                roots@.len() == k,
                forall|j: int| 0 <= j < k ==> #[trigger] roots@[j] < nodes@.len(),
                forall|j: int|
                    0 <= j < k ==> key_tree(keys_view(nodes@), #[trigger] roots@[j] as int)
                        == expr_tree(ev, srcs@[j] as int),
                forall|j: int|
                    0 <= j < nodes@.len() ==> #[trigger] reach_roots(keys_view(nodes@), roots@).contains(
                        j,
                    ),
            decreases srcs@.len() - k,
        {
            let src = srcs[k];
            let ghost nodes_before = keys_view(nodes@);
            let ghost roots_before = roots@;
            let id = intern_expr(e, src, &mut memo, &mut nodes);
            roots.push(id);
            proof {
                assert(srcs@.subrange(0, k + 1).drop_last() =~= srcs@.subrange(0, k as int));
                assert(roots@.map_values(|r: usize| r as nat) =~= roots_before.map_values(
                    |r: usize| r as nat,
                ).push(id as nat));
                assert forall|j: int|
                    0 <= j < k + 1 implies key_tree(keys_view(nodes@), #[trigger] roots@[j] as int)
                    == expr_tree(ev, srcs@[j] as int) by {
                    if j < k {
                        assert(roots@[j] == roots_before[j]);
                    }
                }
                let nv = keys_view(nodes@);
                crate::dag::lemma_reach_roots_extend(nodes_before, nv, roots_before);
                assert(roots@.drop_last() =~= roots_before);
                assert(roots@.last() == id);
                assert forall|j: int| 0 <= j < nodes@.len() implies #[trigger] reach_roots(
                    nv,
                    roots@,
                ).contains(j) by {
                    if j < nodes_before.len() {
                        assert(reach_roots(nodes_before, roots_before).contains(j));
                    } else {
                        assert(reach(nv, id as int).contains(j));
                    }
                }
            }
            k = k + 1;
        }
        assert(srcs@.subrange(0, k as int) =~= srcs@);
        proof {
            lemma_all_reached(keys_view(nodes@), roots@);
            lemma_md_unaffected_by_sharing(ev, keys_view(nodes@), roots@);
            lemma_sharing_bounds_mc(ev, keys_view(nodes@), roots@);
            if srcs_mc(ev, source_roots(ev)) <= usize::MAX {
                lemma_program_cost(ev);
            }
        }
        Dag::from_wf_parts(nodes, roots)
    }
}

} // verus!
