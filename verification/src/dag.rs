//! The shared arithmetic DAG with one or more output roots, its cost
//! statistics, and its textual form.
use vstd::prelude::*;
use crate::text::{append_chars, i64_text, int_text, nat_digits, str_chars, string_from_chars,
    usize_digits};

verus! {

pub type DagId = usize;

#[derive(Clone, Debug, PartialEq, Eq, Hash)]
pub enum DagKey {
    Num(i64),
    Symbol(String),
    Add(DagId, DagId),
    Mul(DagId, DagId),
    Neg(DagId),
}

/// The mathematical value of a DAG node: symbols by their characters.
pub enum SpecKey {
    Num(i64),
    Symbol(Seq<char>),
    Add(usize, usize),
    Mul(usize, usize),
    Neg(usize),
}

impl View for DagKey {
    type V = SpecKey;

    open spec fn view(&self) -> SpecKey {
        match self {
            DagKey::Num(n) => SpecKey::Num(*n),
            DagKey::Symbol(s) => SpecKey::Symbol(s@),
            DagKey::Add(a, b) => SpecKey::Add(*a, *b),
            DagKey::Mul(a, b) => SpecKey::Mul(*a, *b),
            DagKey::Neg(a) => SpecKey::Neg(*a),
        }
    }
}

pub open spec fn keys_view(v: Seq<DagKey>) -> Seq<SpecKey> {
    v.map_values(|k: DagKey| k@)
}

pub open spec fn key_children(k: SpecKey) -> Seq<usize> {
    match k {
        SpecKey::Num(_) | SpecKey::Symbol(_) => seq![],
        SpecKey::Add(a, b) | SpecKey::Mul(a, b) => seq![a, b],
        SpecKey::Neg(a) => seq![a],
    }
}

pub open spec fn is_mul(k: SpecKey) -> bool {
    k is Mul
}

/// Every child of node `i` is an earlier node.
pub open spec fn keys_topological(nodes: Seq<SpecKey>) -> bool {
    forall|i: int, k: int|
        0 <= i < nodes.len() && 0 <= k < key_children(#[trigger] nodes[i]).len() ==> (
        #[trigger] key_children(nodes[i])[k]) < i
}

/// A DAG: topologically ordered nodes and at least one root, every root a
/// node.
pub open spec fn dag_wf(nodes: Seq<SpecKey>, roots: Seq<usize>) -> bool {
    &&& keys_topological(nodes)
    &&& roots.len() > 0
    &&& forall|i: int| 0 <= i < roots.len() ==> #[trigger] roots[i] < nodes.len()
}

/// Arithmetic DAG with one or more roots.
///
/// The virtual `outputs(...)` node of an extracted program is not
/// materialized as a `DagKey`: it describes the result tuple, not an
/// arithmetic operation.
pub struct Dag {
    nodes: Vec<DagKey>,
    roots: Vec<DagId>,
}

pub struct DagView {
    pub nodes: Seq<SpecKey>,
    pub roots: Seq<usize>,
}

impl View for Dag {
    type V = DagView;

    closed spec fn view(&self) -> DagView {
        DagView { nodes: keys_view(self.nodes@), roots: self.roots@ }
    }
}

#[derive(Debug, PartialEq, Eq, Structural)]
pub struct DagStats {
    pub mc: usize,
    pub md: usize,
    pub fhe_cost: usize,
    pub total_nodes: usize,
}

// ---------------------------------------------------------------------
// Reachability and depth
// ---------------------------------------------------------------------
/// Nodes reachable from `id`, `id` included.
pub open spec fn reach(nodes: Seq<SpecKey>, id: int) -> Set<int>
    decreases id,
{
    if id < 0 || id >= nodes.len() {
        Set::empty()
    } else {
        match nodes[id] {
            SpecKey::Num(_) | SpecKey::Symbol(_) => Set::empty().insert(id),
            SpecKey::Add(a, b) | SpecKey::Mul(a, b) => Set::empty().insert(id) + (if a < id {
                reach(nodes, a as int)
            } else {
                Set::empty()
            }) + (if b < id {
                reach(nodes, b as int)
            } else {
                Set::empty()
            }),
            SpecKey::Neg(a) => Set::empty().insert(id) + (if a < id {
                reach(nodes, a as int)
            } else {
                Set::empty()
            }),
        }
    }
}

/// Nodes reachable from any of the roots.
pub open spec fn reach_roots(nodes: Seq<SpecKey>, roots: Seq<usize>) -> Set<int>
    decreases roots.len(),
{
    if roots.len() == 0 {
        Set::empty()
    } else {
        reach_roots(nodes, roots.drop_last()) + reach(nodes, roots.last() as int)
    }
}

/// Multiplicative depth of a node: `Mul` adds one to the deeper operand.
pub open spec fn depth(nodes: Seq<SpecKey>, id: int) -> nat
    decreases id,
{
    if id < 0 || id >= nodes.len() {
        0
    } else {
        match nodes[id] {
            SpecKey::Num(_) | SpecKey::Symbol(_) => 0,
            SpecKey::Add(a, b) => if a < id && b < id {
                vstd::math::max(depth(nodes, a as int) as int, depth(nodes, b as int) as int) as nat
            } else {
                0
            },
            SpecKey::Mul(a, b) => if a < id && b < id {
                (vstd::math::max(depth(nodes, a as int) as int, depth(nodes, b as int) as int) + 1) as nat
            } else {
                0
            },
            SpecKey::Neg(a) => if a < id {
                depth(nodes, a as int)
            } else {
                0
            },
        }
    }
}

/// Largest depth of the roots (0 for no roots).
pub open spec fn max_root_depth(nodes: Seq<SpecKey>, roots: Seq<usize>) -> nat
    decreases roots.len(),
{
    if roots.len() == 0 {
        0
    } else {
        vstd::math::max(
            max_root_depth(nodes, roots.drop_last()) as int,
            depth(nodes, roots.last() as int) as int,
        ) as nat
    }
}

pub open spec fn sat_mul(a: nat, b: nat) -> nat {
    if a * b > usize::MAX {
        usize::MAX as nat
    } else {
        a * b
    }
}

/// The statistics of a DAG: over the reachable nodes, the number of
/// multiplications (MC), the largest root depth (MD), MC x MD^2 saturated at
/// `usize::MAX`, and the node count.
pub open spec fn spec_stats(nodes: Seq<SpecKey>, roots: Seq<usize>) -> (nat, nat, nat, nat) {
    let r = reach_roots(nodes, roots);
    let mc = r.filter(|i: int| is_mul(nodes[i])).len();
    let md = max_root_depth(nodes, roots);
    (mc, md, sat_mul(sat_mul(mc, md), md), r.len())
}

pub proof fn lemma_reach_bounds(nodes: Seq<SpecKey>, id: int)
    ensures
        forall|j: int| #[trigger] reach(nodes, id).contains(j) ==> 0 <= j <= id && j < nodes.len(),
        0 <= id < nodes.len() ==> reach(nodes, id).contains(id),
    decreases id,
{
    if 0 <= id < nodes.len() {
        match nodes[id] {
            SpecKey::Add(a, b) | SpecKey::Mul(a, b) => {
                if a < id {
                    lemma_reach_bounds(nodes, a as int);
                }
                if b < id {
                    lemma_reach_bounds(nodes, b as int);
                }
            },
            SpecKey::Neg(a) => {
                if a < id {
                    lemma_reach_bounds(nodes, a as int);
                }
            },
            _ => {},
        }
    }
}

pub proof fn lemma_reach_trans(nodes: Seq<SpecKey>, i: int, j: int)
    requires
        reach(nodes, i).contains(j),
    ensures
        reach(nodes, j).subset_of(reach(nodes, i)),
    decreases i,
{
    if 0 <= i < nodes.len() && j != i {
        match nodes[i] {
            SpecKey::Add(a, b) | SpecKey::Mul(a, b) => {
                if a < i && reach(nodes, a as int).contains(j) {
                    lemma_reach_trans(nodes, a as int, j);
                } else if b < i && reach(nodes, b as int).contains(j) {
                    lemma_reach_trans(nodes, b as int, j);
                }
            },
            SpecKey::Neg(a) => {
                if a < i && reach(nodes, a as int).contains(j) {
                    lemma_reach_trans(nodes, a as int, j);
                }
            },
            _ => {},
        }
    }
}

/// A set closed under reachability.
pub open spec fn closed(nodes: Seq<SpecKey>, s: Set<int>) -> bool {
    forall|i: int| #[trigger] s.contains(i) ==> reach(nodes, i).subset_of(s)
}

proof fn lemma_reach_closed(nodes: Seq<SpecKey>, id: int)
    ensures
        closed(nodes, reach(nodes, id)),
{
    assert forall|i: int| #[trigger] reach(nodes, id).contains(i) implies reach(
        nodes,
        i,
    ).subset_of(reach(nodes, id)) by {
        lemma_reach_trans(nodes, id, i);
    }
}

/// Appending nodes does not change what an existing node reaches.
pub proof fn lemma_reach_extend(small: Seq<SpecKey>, big: Seq<SpecKey>, id: int)
    requires
        small.len() <= big.len(),
        forall|j: int| 0 <= j < small.len() ==> #[trigger] big[j] == small[j],
        id < small.len(),
    ensures
        reach(big, id) == reach(small, id),
    decreases id,
{
    if 0 <= id {
        assert(big[id] == small[id]);
        match small[id] {
            SpecKey::Add(a, b) | SpecKey::Mul(a, b) => {
                if a < id {
                    lemma_reach_extend(small, big, a as int);
                }
                if b < id {
                    lemma_reach_extend(small, big, b as int);
                }
            },
            SpecKey::Neg(a) => {
                if a < id {
                    lemma_reach_extend(small, big, a as int);
                }
            },
            _ => {},
        }
    }
}

/// A node reaches what each of its (earlier) children reaches.
pub proof fn lemma_reach_child(nodes: Seq<SpecKey>, id: int, k: int)
    requires
        0 <= id < nodes.len(),
        0 <= k < key_children(nodes[id]).len(),
        key_children(nodes[id])[k] < id,
    ensures
        reach(nodes, key_children(nodes[id])[k] as int).subset_of(reach(nodes, id)),
{
}

/// Roots reach only nodes.
pub proof fn lemma_reach_roots_bounds(nodes: Seq<SpecKey>, roots: Seq<usize>)
    ensures
        forall|j: int| #[trigger] reach_roots(nodes, roots).contains(j) ==> 0 <= j < nodes.len(),
    decreases roots.len(),
{
    if roots.len() > 0 {
        lemma_reach_roots_bounds(nodes, roots.drop_last());
        lemma_reach_bounds(nodes, roots.last() as int);
        assert forall|j: int| #[trigger] reach_roots(nodes, roots).contains(j) implies 0 <= j
            < nodes.len() by {
            if reach_roots(nodes, roots.drop_last()).contains(j) {
            } else {
                assert(reach(nodes, roots.last() as int).contains(j));
            }
        }
    }
}

/// Appending nodes does not change what existing roots reach.
pub proof fn lemma_reach_roots_extend(small: Seq<SpecKey>, big: Seq<SpecKey>, roots: Seq<usize>)
    requires
        small.len() <= big.len(),
        forall|j: int| 0 <= j < small.len() ==> #[trigger] big[j] == small[j],
        forall|k: int| 0 <= k < roots.len() ==> #[trigger] roots[k] < small.len(),
    ensures
        reach_roots(big, roots) == reach_roots(small, roots),
    decreases roots.len(),
{
    if roots.len() > 0 {
        assert(roots.last() == roots[roots.len() - 1]);
        lemma_reach_extend(small, big, roots.last() as int);
        lemma_reach_roots_extend(small, big, roots.drop_last());
    }
}

pub proof fn lemma_depth_bound(nodes: Seq<SpecKey>, id: int)
    requires
        0 <= id,
    ensures
        depth(nodes, id) <= id,
    decreases id,
{
    if 0 <= id < nodes.len() {
        match nodes[id] {
            SpecKey::Add(a, b) | SpecKey::Mul(a, b) => {
                if a < id && b < id {
                    lemma_depth_bound(nodes, a as int);
                    lemma_depth_bound(nodes, b as int);
                }
            },
            SpecKey::Neg(a) => {
                if a < id {
                    lemma_depth_bound(nodes, a as int);
                }
            },
            _ => {},
        }
    }
}

pub open spec fn vset(v: Seq<bool>) -> Set<int> {
    Set::new(|i: int| 0 <= i < v.len() && v[i])
}

pub open spec fn children_below(nodes: Seq<SpecKey>, id: int) -> bool {
    forall|k: int|
        0 <= k < key_children(nodes[id]).len() ==> #[trigger] key_children(nodes[id])[k] < id
}

/// Marks every node reachable from `id`, skipping nodes already marked.
///
/// `done` is closed under reachability; `pending` holds the nodes whose
/// traversal is in progress, all above `id`.
fn collect_reachable(
    nodes: &[DagKey],
    id: DagId,
    visited: &mut Vec<bool>,
    Ghost(done): Ghost<Set<int>>,
    Ghost(pending): Ghost<Set<int>>,
)
    requires
        keys_topological(keys_view(nodes@)),
        id < nodes@.len(),
        old(visited)@.len() == nodes@.len(),
        vset(old(visited)@) == done + pending,
        closed(keys_view(nodes@), done),
        forall|t: int| #[trigger] pending.contains(t) ==> t > id,
    ensures
        final(visited)@.len() == nodes@.len(),
        vset(final(visited)@) == done + reach(keys_view(nodes@), id as int) + pending,
    decreases id,
{
    let ghost kv = keys_view(nodes@);
    proof {
        lemma_reach_bounds(kv, id as int);
    }
    if visited[id] {
        assert(vset(visited@).contains(id as int));
        assert(!pending.contains(id as int));
        assert(done.contains(id as int));
        assert(vset(visited@) =~= done + reach(kv, id as int) + pending);
        return ;
    }
    let ghost old_v = visited@;
    visited.set(id, true);
    let ghost pend1 = pending.insert(id as int);
    assert(vset(visited@) =~= vset(old_v).insert(id as int));
    assert(vset(visited@) =~= done + pend1);
    assert(kv[id as int] == nodes@[id as int]@);
    assert(children_below(kv, id as int)) by {
        assert forall|k: int|
            0 <= k < key_children(kv[id as int]).len() implies #[trigger] key_children(
            kv[id as int],
        )[k] < id by {}
    }
    match &nodes[id] {
        DagKey::Num(_) | DagKey::Symbol(_) => {
            assert(vset(visited@) =~= done + reach(kv, id as int) + pending);
        },
        DagKey::Add(a, b) | DagKey::Mul(a, b) => {
            assert(key_children(kv[id as int])[0] == *a);
            assert(key_children(kv[id as int])[1] == *b);
            collect_reachable(nodes, *a, visited, Ghost(done), Ghost(pend1));
            let ghost done1 = done + reach(kv, *a as int);
            proof {
                lemma_reach_closed(kv, *a as int);
                assert(closed(kv, done1));
                assert(vset(visited@) =~= done1 + pend1);
            }
            collect_reachable(nodes, *b, visited, Ghost(done1), Ghost(pend1));
            assert(vset(visited@) =~= done + reach(kv, id as int) + pending);
        },
        DagKey::Neg(a) => {
            assert(key_children(kv[id as int])[0] == *a);
            collect_reachable(nodes, *a, visited, Ghost(done), Ghost(pend1));
            assert(vset(visited@) =~= done + reach(kv, id as int) + pending);
        },
    }
}

/// Multiplicative depth of `id`, memoized.
fn dag_md(nodes: &[DagKey], id: DagId, memo: &mut Vec<Option<usize>>) -> (res: usize)
    requires
        keys_topological(keys_view(nodes@)),
        id < nodes@.len(),
        old(memo)@.len() == nodes@.len(),
        forall|i: int|
            0 <= i < old(memo)@.len() && #[trigger] old(memo)@[i] is Some ==> old(memo)@[i].unwrap()
                == depth(keys_view(nodes@), i),
    ensures
        res == depth(keys_view(nodes@), id as int),
        final(memo)@.len() == nodes@.len(),
        forall|i: int|
            0 <= i < final(memo)@.len() && #[trigger] final(memo)@[i] is Some
                ==> final(memo)@[i].unwrap() == depth(keys_view(nodes@), i),
    decreases id,
{
    let ghost kv = keys_view(nodes@);
    if let Some(cached) = memo[id] {
        return cached;
    }
    assert(kv[id as int] == nodes@[id as int]@);
    proof {
        lemma_depth_bound(kv, id as int);
    }
    let d = match &nodes[id] {
        DagKey::Num(_) | DagKey::Symbol(_) => 0,
        DagKey::Add(a, b) => {
            assert(key_children(kv[id as int])[0] == *a);
            assert(key_children(kv[id as int])[1] == *b);
            let x = dag_md(nodes, *a, memo);
            let y = dag_md(nodes, *b, memo);
            if x >= y {
                x
            } else {
                y
            }
        },
        DagKey::Mul(a, b) => {
            assert(key_children(kv[id as int])[0] == *a);
            assert(key_children(kv[id as int])[1] == *b);
            let x = dag_md(nodes, *a, memo);
            let y = dag_md(nodes, *b, memo);
            if x >= y {
                x + 1
            } else {
                y + 1
            }
        },
        DagKey::Neg(a) => {
            assert(key_children(kv[id as int])[0] == *a);
            dag_md(nodes, *a, memo)
        },
    };
    memo.set(id, Some(d));
    d
}

impl Dag {
    #[verifier::type_invariant]
    closed spec fn inv(self) -> bool {
        dag_wf(keys_view(self.nodes@), self.roots@)
    }

    pub(crate) fn from_wf_parts(nodes: Vec<DagKey>, roots: Vec<DagId>) -> (res: Dag)
        requires
            dag_wf(keys_view(nodes@), roots@),
        ensures
            res@.nodes == keys_view(nodes@),
            res@.roots == roots@,
    {
        Dag { nodes, roots }
    }

    /// A DAG of the given nodes and output roots (at least one). A `Dag`
    /// keeps its nodes in topological order, so nodes that refer to a node
    /// that is not earlier, or a root that is not a node, give `None`.
    pub fn from_parts(nodes: Vec<DagKey>, roots: Vec<DagId>) -> (res: Option<Dag>)
        requires
            roots@.len() > 0,
        ensures
            res is Some <==> dag_wf(keys_view(nodes@), roots@),
            res matches Some(d) ==> d@.nodes == keys_view(nodes@) && d@.roots == roots@,
    {
        let ghost kv = keys_view(nodes@);
        let mut i: usize = 0;
        while i < nodes.len()
            invariant
                kv == keys_view(nodes@),
                i <= nodes@.len(),
                forall|a: int, k: int|
                    0 <= a < i && 0 <= k < key_children(#[trigger] kv[a]).len() ==> (
                    #[trigger] key_children(kv[a])[k]) < a,
            decreases nodes@.len() - i,
        {
            assert(kv[i as int] == nodes@[i as int]@);
            let ok = match &nodes[i] {
                DagKey::Num(_) | DagKey::Symbol(_) => true,
                DagKey::Add(a, b) | DagKey::Mul(a, b) => *a < i && *b < i,
                DagKey::Neg(a) => *a < i,
            };
            if !ok {
                assert(!keys_topological(kv)) by {
                    let ch = key_children(kv[i as int]);
                    if ch.len() >= 1 && key_children(kv[i as int])[0] >= i {
                        assert(!(key_children(kv[i as int])[0] < i));
                    } else {
                        assert(ch.len() >= 2);
                        assert(!(key_children(kv[i as int])[1] < i));
                    }
                }
                return None;
            }
            i = i + 1;
        }
        let mut k: usize = 0;
        while k < roots.len()
            invariant
                kv == keys_view(nodes@),
                keys_topological(kv),
                k <= roots@.len(),
                forall|j: int| 0 <= j < k ==> #[trigger] roots@[j] < nodes@.len(),
            decreases roots@.len() - k,
        {
            if roots[k] >= nodes.len() {
                return None;
            }
            k = k + 1;
        }
        Some(Dag { nodes, roots })
    }

    pub fn nodes(&self) -> (res: &[DagKey])
        ensures
            keys_view(res@) == self@.nodes,
            dag_wf(self@.nodes, self@.roots),
    {
        proof {
            use_type_invariant(self);
        }
        self.nodes.as_slice()
    }

    pub fn roots(&self) -> (res: &[DagId])
        ensures
            res@ == self@.roots,
            dag_wf(self@.nodes, self@.roots),
    {
        proof {
            use_type_invariant(self);
        }
        self.roots.as_slice()
    }

    pub fn stats(&self) -> (res: DagStats)
        ensures
            (res.mc as nat, res.md as nat, res.fhe_cost as nat, res.total_nodes as nat)
                == spec_stats(self@.nodes, self@.roots),
    {
        proof {
            use_type_invariant(self);
        }
        let ghost kv = keys_view(self.nodes@);
        let n = self.nodes.len();
        let mut visited: Vec<bool> = Vec::new();
        while visited.len() < n
            invariant
                visited@.len() <= n,
                forall|i: int| 0 <= i < visited@.len() ==> !#[trigger] visited@[i],
            decreases n - visited@.len(),
        {
            visited.push(false);
        }
        assert(vset(visited@) =~= Set::<int>::empty());
        let mut k: usize = 0;
        while k < self.roots.len()
            invariant
                self.inv(),
                kv == keys_view(self.nodes@),
                n == kv.len(),
                k <= self.roots@.len(),
                visited@.len() == n,
                vset(visited@) == reach_roots(kv, self.roots@.subrange(0, k as int)),
                closed(kv, vset(visited@)),
            decreases self.roots@.len() - k,
        {
            let root = self.roots[k];
            let ghost before = vset(visited@);
            assert(before + Set::empty() =~= before);
            collect_reachable(
                self.nodes.as_slice(),
                root,
                &mut visited,
                Ghost(before),
                Ghost(Set::empty()),
            );
            proof {
                assert(self.roots@.subrange(0, k + 1).drop_last() =~= self.roots@.subrange(
                    0,
                    k as int,
                ));
                lemma_reach_closed(kv, root as int);
                assert(vset(visited@) =~= before + reach(kv, root as int));
            }
            k = k + 1;
        }
        assert(self.roots@.subrange(0, k as int) =~= self.roots@);
        let ghost r = reach_roots(kv, self.roots@);
        // Depth of the deepest root.
        let mut memo: Vec<Option<usize>> = Vec::new();
        while memo.len() < n
            invariant
                memo@.len() <= n,
                forall|i: int| 0 <= i < memo@.len() ==> #[trigger] memo@[i] is None,
            decreases n - memo@.len(),
        {
            memo.push(None);
        }
        let mut md: usize = 0;
        let mut j: usize = 0;
        while j < self.roots.len()
            invariant
                self.inv(),
                kv == keys_view(self.nodes@),
                n == kv.len(),
                j <= self.roots@.len(),
                memo@.len() == n,
                forall|i: int|
                    0 <= i < memo@.len() && #[trigger] memo@[i] is Some ==> memo@[i].unwrap()
                        == depth(kv, i),
                md == max_root_depth(kv, self.roots@.subrange(0, j as int)),
            decreases self.roots@.len() - j,
        {
            let d = dag_md(self.nodes.as_slice(), self.roots[j], &mut memo);
            assert(self.roots@.subrange(0, j + 1).drop_last() =~= self.roots@.subrange(
                0,
                j as int,
            ));
            if d > md {
                md = d;
            }
            j = j + 1;
        }
        assert(self.roots@.subrange(0, j as int) =~= self.roots@);
        // Counts over the reachable nodes.
        let mut total: usize = 0;
        let mut mc: usize = 0;
        let mut i: usize = 0;
        assert(Set::new(|x: int| 0 <= x < 0 && visited@[x]) =~= Set::<int>::empty());
        assert(Set::new(|x: int| 0 <= x < 0 && visited@[x] && is_mul(kv[x])) =~= Set::<int>::empty());
        while i < n
            invariant
                self.inv(),
                kv == keys_view(self.nodes@),
                n == kv.len(),
                visited@.len() == n,
                vset(visited@) == r,
                i <= n,
                Set::new(|x: int| 0 <= x < i && visited@[x]).finite(),
                total == Set::new(|x: int| 0 <= x < i && visited@[x]).len(),
                Set::new(|x: int| 0 <= x < i && visited@[x] && is_mul(kv[x])).finite(),
                mc == Set::new(|x: int| 0 <= x < i && visited@[x] && is_mul(kv[x])).len(),
                total <= i,
                mc <= i,
            decreases n - i,
        {
            let ghost s1 = Set::new(|x: int| 0 <= x < i && visited@[x]);
            let ghost s2 = Set::new(|x: int| 0 <= x < i && visited@[x] && is_mul(kv[x]));
            if visited[i] {
                assert(Set::new(|x: int| 0 <= x < i + 1 && visited@[x]) =~= s1.insert(i as int));
                total = total + 1;
                assert(kv[i as int] == self.nodes@[i as int]@);
                if let DagKey::Mul(_, _) = &self.nodes[i] {
                    assert(Set::new(|x: int| 0 <= x < i + 1 && visited@[x] && is_mul(kv[x]))
                        =~= s2.insert(i as int));
                    mc = mc + 1;
                } else {
                    assert(Set::new(|x: int| 0 <= x < i + 1 && visited@[x] && is_mul(kv[x]))
                        =~= s2);
                }
            } else {
                assert(Set::new(|x: int| 0 <= x < i + 1 && visited@[x]) =~= s1);
                assert(Set::new(|x: int| 0 <= x < i + 1 && visited@[x] && is_mul(kv[x])) =~= s2);
            }
            i = i + 1;
        }
        assert(Set::new(|x: int| 0 <= x < n && visited@[x]) =~= r);
        assert(Set::new(|x: int| 0 <= x < n && visited@[x] && is_mul(kv[x])) =~= r.filter(
            |x: int| is_mul(kv[x]),
        ));
        let fhe_cost = match mc.checked_mul(md) {
            Some(p) => match p.checked_mul(md) {
                Some(q) => q,
                None => usize::MAX,
            },
            None => usize::MAX,
        };
        proof {
            let a = mc as nat;
            let b = md as nat;
            if a * b > usize::MAX {
                assert(b >= 1) by (nonlinear_arith)
                    requires
                        a * b > usize::MAX,
                ;
                assert(usize::MAX as nat * b >= usize::MAX) by (nonlinear_arith)
                    requires
                        b >= 1,
                ;
            }
        }
        DagStats { mc, md, fhe_cost, total_nodes: total }
    }
}

// ---------------------------------------------------------------------
// Text form
// ---------------------------------------------------------------------
/// One node definition line, `nI = ...`.
pub open spec fn key_line(i: nat, k: SpecKey) -> Seq<char> {
    let head = "n"@ + nat_digits(i) + " = "@;
    match k {
        SpecKey::Num(v) => head + int_text(v as int) + "\n"@,
        SpecKey::Symbol(name) => head + name + "\n"@,
        SpecKey::Add(a, b) => head + "n"@ + nat_digits(a as nat) + " + n"@ + nat_digits(b as nat)
            + "\n"@,
        SpecKey::Mul(a, b) => head + "n"@ + nat_digits(a as nat) + " * n"@ + nat_digits(b as nat)
            + "\n"@,
        SpecKey::Neg(a) => head + "- n"@ + nat_digits(a as nat) + "\n"@,
    }
}

pub open spec fn nodes_text(nodes: Seq<SpecKey>) -> Seq<char>
    decreases nodes.len(),
{
    if nodes.len() == 0 {
        seq![]
    } else {
        nodes_text(nodes.drop_last()) + key_line((nodes.len() - 1) as nat, nodes.last())
    }
}

/// `nA, nB, ...`
pub open spec fn refs_text(roots: Seq<usize>) -> Seq<char>
    decreases roots.len(),
{
    if roots.len() == 0 {
        seq![]
    } else if roots.len() == 1 {
        "n"@ + nat_digits(roots[0] as nat)
    } else {
        refs_text(roots.drop_last()) + ", n"@ + nat_digits(roots.last() as nat)
    }
}

/// The text format of a DAG: one line per node, a blank line, then the
/// outputs declaration.
pub open spec fn dag_text(nodes: Seq<SpecKey>, roots: Seq<usize>) -> Seq<char> {
    nodes_text(nodes) + "\noutputs = "@ + refs_text(roots) + "\n"@
}

fn push_str(v: &mut Vec<char>, s: &str)
    ensures
        final(v)@ == old(v)@ + s@,
{
    append_chars(v, &str_chars(s));
}

/// The DAG in the text format that `ProgramDag::parse` reads.
pub fn dag_to_text(dag: &Dag) -> (res: String)
    ensures
        res@ == dag_text(dag@.nodes, dag@.roots),
{
    let nodes = dag.nodes();
    let roots = dag.roots();
    let ghost kv = keys_view(nodes@);
    let mut text: Vec<char> = Vec::new();
    let mut id: usize = 0;
    while id < nodes.len()
        invariant
            kv == keys_view(nodes@),
            id <= kv.len(),
            text@ == nodes_text(kv.subrange(0, id as int)),
        decreases kv.len() - id,
    {
        let ghost before = text@;
        assert(kv[id as int] == nodes@[id as int]@);
        push_str(&mut text, "n");
        append_chars(&mut text, &usize_digits(id));
        push_str(&mut text, " = ");
        match &nodes[id] {
            DagKey::Num(value) => {
                append_chars(&mut text, &i64_text(*value));
            },
            DagKey::Symbol(name) => {
                append_chars(&mut text, &str_chars(name.as_str()));
            },
            DagKey::Add(left, right) => {
                push_str(&mut text, "n");
                append_chars(&mut text, &usize_digits(*left));
                push_str(&mut text, " + n");
                append_chars(&mut text, &usize_digits(*right));
            },
            DagKey::Mul(left, right) => {
                push_str(&mut text, "n");
                append_chars(&mut text, &usize_digits(*left));
                push_str(&mut text, " * n");
                append_chars(&mut text, &usize_digits(*right));
            },
            DagKey::Neg(child) => {
                push_str(&mut text, "- n");
                append_chars(&mut text, &usize_digits(*child));
            },
        }
        push_str(&mut text, "\n");
        proof {
            let sub = kv.subrange(0, id + 1);
            assert(sub.drop_last() =~= kv.subrange(0, id as int));
            assert(sub.last() == kv[id as int]);
            assert(text@ =~= before + key_line(id as nat, kv[id as int]));
        }
        id = id + 1;
    }
    assert(kv.subrange(0, id as int) =~= kv);
    push_str(&mut text, "\noutputs = ");
    let ghost head = text@;
    let mut k: usize = 0;
    while k < roots.len()
        invariant
            k <= roots@.len(),
            text@ == head + refs_text(roots@.subrange(0, k as int)),
        decreases roots@.len() - k,
    {
        let ghost before = text@;
        if k == 0 {
            push_str(&mut text, "n");
        } else {
            push_str(&mut text, ", n");
        }
        append_chars(&mut text, &usize_digits(roots[k]));
        proof {
            let sub = roots@.subrange(0, k + 1);
            assert(sub.drop_last() =~= roots@.subrange(0, k as int));
            assert(sub.last() == roots@[k as int]);
            if k == 0 {
                assert(roots@.subrange(0, 0) =~= Seq::<usize>::empty());
                assert(sub[0] == roots@[0]);
            }
            assert(text@ =~= head + refs_text(sub));
        }
        k = k + 1;
    }
    assert(roots@.subrange(0, k as int) =~= roots@);
    push_str(&mut text, "\n");
    string_from_chars(&text)
}

} // verus!
