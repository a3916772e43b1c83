//! Global DAG extraction with a multiplication-depth upper bound: the
//! integer-program model of `min MC subject to MD <= D` over a saturated
//! e-graph (the candidate e-node implementations that survive safe pruning,
//! and the lists that the constraints range over), and the decoding of a
//! solved selection back into a program.
//!
//! Every used e-class selects exactly one e-node, so a selected e-class is
//! shared by all of its parents: the objective counts DAG multiplications,
//! not tree ones.
use vstd::prelude::*;
use crate::class_analysis::{
    attained, below, below_depths, bounds_are_depths, build_class_index, children_modelled,
    collect_root_reachable_classes, compute_min_depth_lower_bounds, derivation_depth, index_exact,
    is_fixed_point, is_path, lemma_bounds_below_derivations, lemma_bounds_exact,
    lemma_children_modelled, lemma_reachable_list, opt_le, opt_nat, reachable, reachable_list,
    EGraphSnapshot,
};
use crate::lang::{nodes_topological, relabel, spec_children, FheLang, RecExpr, SpecLang};
use crate::text::{append_chars, nat_digits, str_chars, string_from_chars, usize_digits};

verus! {

// ---------------------------------------------------------------------
// Candidate implementations
// ---------------------------------------------------------------------
/// One candidate implementation of a modelled class.
pub struct NodeRecord {
    /// Compact index of the class that owns this e-node.
    pub owner: usize,
    /// The e-node, its children still class positions.
    pub node: FheLang,
    /// Compact indices of the children, in the order of `node`'s children.
    pub children: Vec<usize>,
    /// True exactly for multiplication e-nodes.
    pub is_mul: bool,
    /// A safe lower bound on the multiplication depth of this
    /// implementation.
    pub min_depth: usize,
}

pub struct RecordView {
    pub owner: nat,
    pub node: SpecLang,
    pub children: Seq<usize>,
    pub is_mul: bool,
    pub min_depth: nat,
}

pub open spec fn record_view(r: NodeRecord) -> RecordView {
    RecordView {
        owner: r.owner as nat,
        node: r.node@,
        children: r.children@,
        is_mul: r.is_mul,
        min_depth: r.min_depth as nat,
    }
}

pub open spec fn records_view(v: Seq<NodeRecord>) -> Seq<RecordView> {
    v.map_values(|r: NodeRecord| record_view(r))
}

pub open spec fn map_children(cs: Seq<usize>, cidx: Seq<Option<usize>>) -> Seq<usize> {
    cs.map_values(|c: usize| cidx[c as int].unwrap())
}

/// The largest bound among compact children.
pub open spec fn max_lb(ch: Seq<usize>, lower: Seq<Option<usize>>) -> nat
    decreases ch.len(),
{
    if ch.len() == 0 {
        0
    } else {
        vstd::math::max(max_lb(ch.drop_last(), lower) as int, lower[ch.last() as int].unwrap() as int) as nat
    }
}

/// The record of an e-node of class `owner`, unless the e-node can never
/// occur in an acyclic extraction with MD at most `limit`: a direct
/// self-dependency, a child without finite derivation, or a lower bound
/// above the limit.
pub open spec fn node_record(
    node: SpecLang,
    owner: nat,
    cidx: Seq<Option<usize>>,
    lower: Seq<Option<usize>>,
    limit: nat,
) -> Option<RecordView> {
    let ch = map_children(spec_children(node), cidx);
    let d = max_lb(ch, lower) + if node is Mul {
        1nat
    } else {
        0nat
    };
    if exists|j: int| 0 <= j < ch.len() && (#[trigger] ch[j] == owner || lower[ch[j] as int] is None) {
        None
    } else if d > limit {
        None
    } else {
        Some(RecordView { owner, node, children: ch, is_mul: node is Mul, min_depth: d })
    }
}

pub open spec fn class_records(
    nodes: Seq<SpecLang>,
    owner: nat,
    cidx: Seq<Option<usize>>,
    lower: Seq<Option<usize>>,
    limit: nat,
) -> Seq<RecordView>
    decreases nodes.len(),
{
    if nodes.len() == 0 {
        seq![]
    } else {
        class_records(nodes.drop_last(), owner, cidx, lower, limit) + match node_record(
            nodes.last(),
            owner,
            cidx,
            lower,
            limit,
        ) {
            Some(r) => seq![r],
            None => seq![],
        }
    }
}

/// Records of the first `o` modelled classes, class by class.
pub open spec fn all_records(
    g: Seq<Seq<SpecLang>>,
    class_ids: Seq<usize>,
    cidx: Seq<Option<usize>>,
    lower: Seq<Option<usize>>,
    limit: nat,
    o: int,
) -> Seq<RecordView>
    decreases o,
{
    if o <= 0 {
        seq![]
    } else {
        all_records(g, class_ids, cidx, lower, limit, o - 1) + class_records(
            g[class_ids[o - 1] as int],
            (o - 1) as nat,
            cidx,
            lower,
            limit,
        )
    }
}

/// The record of one e-node, or `None` when it is pruned.
fn make_record(
    node: &FheLang,
    owner: usize,
    class_index: &[Option<usize>],
    lower: &[Option<usize>],
    md_limit: usize,
) -> (res: Option<NodeRecord>)
    requires
        forall|j: int|
            0 <= j < spec_children(node@).len() ==> (#[trigger] spec_children(node@)[j] as int)
                < class_index@.len() && class_index@[spec_children(node@)[j] as int] is Some && (
            class_index@[spec_children(node@)[j] as int].unwrap() as int) < lower@.len(),
        forall|i: int| 0 <= i < lower@.len() && #[trigger] lower@[i] is Some ==> lower@[i].unwrap() < lower@.len(),
    ensures
        match node_record(node@, owner as nat, class_index@, lower@, md_limit as nat) {
            Some(r) => res matches Some(x) && record_view(x) == r,
            None => res is None,
        },
        res matches Some(x) ==> x.children@.len() == spec_children(node@).len() && forall|j: int|
            0 <= j < x.children@.len() ==> (#[trigger] x.children@[j] as int) < lower@.len(),
{
    let ch = node.children();
    let lower_len = lower.len();
    let ghost mapped = map_children(ch@, class_index@);
    let mut children: Vec<usize> = Vec::with_capacity(ch.len());
    let mut child_depth_lb: usize = 0;
    let mut j: usize = 0;
    while j < ch.len()
        invariant
            ch@ == spec_children(node@),
            mapped == map_children(ch@, class_index@),
            j <= ch@.len(),
            children@ == mapped.subrange(0, j as int),
            child_depth_lb == max_lb(mapped.subrange(0, j as int), lower@),
            child_depth_lb < lower@.len() || child_depth_lb == 0,
            lower_len == lower@.len(),
            forall|j2: int| 0 <= j2 < j ==> #[trigger] mapped[j2] != owner && lower@[mapped[j2] as int] is Some,
            forall|j2: int|
                0 <= j2 < spec_children(node@).len() ==> (#[trigger] spec_children(node@)[j2] as int)
                    < class_index@.len() && class_index@[spec_children(node@)[j2] as int] is Some
                    && (class_index@[spec_children(node@)[j2] as int].unwrap() as int) < lower@.len(),
            forall|i: int| 0 <= i < lower@.len() && #[trigger] lower@[i] is Some ==> lower@[i].unwrap() < lower@.len(),
        decreases ch@.len() - j,
    {
        let child = ch[j];
        let child_index = class_index[child].unwrap();
        assert(mapped[j as int] == child_index);
        if child_index == owner {
            return None;
        }
        let lb = match lower[child_index] {
            Some(lb) => lb,
            None => {
                return None;
            },
        };
        let ghost sub = mapped.subrange(0, j + 1);
        assert(sub.drop_last() =~= mapped.subrange(0, j as int));
        assert(sub.last() == child_index);
        if lb > child_depth_lb {
            child_depth_lb = lb;
        }
        children.push(child_index);
        j = j + 1;
        assert(children@ =~= mapped.subrange(0, j as int));
    }
    assert(mapped.subrange(0, j as int) =~= mapped);
    let is_mul = match node {
        FheLang::Mul(..) => true,
        _ => false,
    };
    let node_min_depth = child_depth_lb + if is_mul {
        1
    } else {
        0
    };
    proof {
        assert(!(exists|j2: int| 0 <= j2 < mapped.len() && (#[trigger] mapped[j2] == owner || lower@[mapped[j2] as int] is None)));
    }
    if node_min_depth > md_limit {
        return None;
    }
    Some(NodeRecord { owner, node: node.clone_node(), children, is_mul, min_depth: node_min_depth })
}

/// The compact children of a record fit its e-node and the modelled
/// classes, and it is marked a multiplication exactly when its e-node is one.
pub open spec fn children_fit(r: RecordView, n: nat) -> bool {
    &&& r.is_mul == (r.node is Mul)
    &&& r.children.len() == spec_children(r.node).len()
    &&& forall|j: int| 0 <= j < r.children.len() ==> (#[trigger] r.children[j] as int) < n
}

pub open spec fn seqs_usize_view(v: Seq<Vec<usize>>) -> Seq<Seq<usize>> {
    v.map_values(|x: Vec<usize>| x@)
}

/// `lists[c]` holds, in increasing order, exactly the records owned by `c`.
pub open spec fn lists_owned(recs: Seq<RecordView>, lists: Seq<Seq<usize>>, n: nat) -> bool {
    &&& lists.len() == n
    &&& forall|c: int, k: int|
        0 <= c < n && 0 <= k < lists[c].len() ==> (#[trigger] lists[c][k] as int) < recs.len()
            && recs[lists[c][k] as int].owner == c
    &&& forall|c: int, a: int, b: int|
        0 <= c < n && 0 <= a < b < lists[c].len() ==> #[trigger] lists[c][a] < #[trigger] lists[c][b]
    &&& forall|i: int|
        0 <= i < recs.len() ==> (#[trigger] recs[i].owner) < n && lists[recs[i].owner as int].contains(
            i as usize,
        )
}

/// `lists[c]` holds, in increasing order, exactly the records that have `c`
/// among their children; a record with a repeated child is listed once.
pub open spec fn lists_parents(recs: Seq<RecordView>, lists: Seq<Seq<usize>>, n: nat) -> bool {
    &&& lists.len() == n
    &&& forall|c: int, k: int|
        0 <= c < n && 0 <= k < lists[c].len() ==> (#[trigger] lists[c][k] as int) < recs.len()
            && recs[lists[c][k] as int].children.contains(c as usize)
    &&& forall|c: int, a: int, b: int|
        0 <= c < n && 0 <= a < b < lists[c].len() ==> #[trigger] lists[c][a] < #[trigger] lists[c][b]
    &&& forall|i: int, j: int|
        0 <= i < recs.len() && 0 <= j < recs[i].children.len() ==> (#[trigger] recs[i].children[j]
            as int) < n && lists[recs[i].children[j] as int].contains(i as usize)
}

/// Candidate records of every modelled class, class by class, and for each
/// class the indices of its own records.
fn collect_records(
    g: &EGraphSnapshot,
    class_ids: &[usize],
    class_index: &[Option<usize>],
    lower: &[Option<usize>],
    md_limit: usize,
) -> (res: (Vec<NodeRecord>, Vec<Vec<usize>>))
    requires
        forall|o: int| 0 <= o < class_ids@.len() ==> (#[trigger] class_ids@[o] as int) < g@.len(),
        children_modelled(g@, class_ids@, class_index@),
        forall|c: int|
            0 <= c < class_index@.len() && #[trigger] class_index@[c] is Some ==> (
            class_index@[c].unwrap() as int) < class_ids@.len(),
        lower@.len() == class_ids@.len(),
        forall|i: int|
            0 <= i < lower@.len() && #[trigger] lower@[i] is Some ==> lower@[i].unwrap()
                < lower@.len(),
    ensures
        records_view(res.0@) == all_records(
            g@,
            class_ids@,
            class_index@,
            lower@,
            md_limit as nat,
            class_ids@.len() as int,
        ),
        lists_owned(records_view(res.0@), seqs_usize_view(res.1@), class_ids@.len()),
        forall|i: int|
            0 <= i < res.0@.len() ==> children_fit(#[trigger] record_view(res.0@[i]), class_ids@.len()),
{
    let n = class_ids.len();
    let ghost gv = g@;
    let ghost ids = class_ids@;
    let ghost cidx = class_index@;
    let ghost lv = lower@;
    let ghost limit = md_limit as nat;
    let mut records: Vec<NodeRecord> = Vec::new();
    let mut lists: Vec<Vec<usize>> = Vec::new();
    let mut o: usize = 0;
    while o < n
        invariant
            gv == g@,
            ids == class_ids@,
            cidx == class_index@,
            lv == lower@,
            limit == md_limit as nat,
            n == ids.len(),
            forall|o2: int| 0 <= o2 < ids.len() ==> (#[trigger] ids[o2] as int) < gv.len(),
            children_modelled(gv, ids, cidx),
            forall|c: int|
                0 <= c < cidx.len() && #[trigger] cidx[c] is Some ==> (cidx[c].unwrap() as int)
                    < ids.len(),
            lv.len() == n,
            forall|i: int| 0 <= i < lv.len() && #[trigger] lv[i] is Some ==> lv[i].unwrap() < lv.len(),
            o <= n,
            records_view(records@) == all_records(gv, ids, cidx, lv, limit, o as int),
            forall|i: int|
                0 <= i < records@.len() ==> children_fit(#[trigger] record_view(records@[i]), n as nat),
            lists_owned(records_view(records@), seqs_usize_view(lists@), o as nat),
        decreases n - o,
    {
        let nodes = g.class_nodes(class_ids[o]);
        let ghost cls = gv[ids[o as int] as int];
        let ghost before = records_view(records@);
        let start = records.len();
        let mut mine: Vec<usize> = Vec::new();
        let mut k: usize = 0;
        while k < nodes.len()
            invariant
                gv == g@,
                ids == class_ids@,
                cidx == class_index@,
                lv == lower@,
                limit == md_limit as nat,
                n == ids.len(),
                o < n,
                nodes@.map_values(|x: FheLang| x@) == cls,
                cls == gv[ids[o as int] as int],
                children_modelled(gv, ids, cidx),
                forall|c: int|
                    0 <= c < cidx.len() && #[trigger] cidx[c] is Some ==> (cidx[c].unwrap() as int)
                        < ids.len(),
                lv.len() == n,
                forall|i: int| 0 <= i < lv.len() && #[trigger] lv[i] is Some ==> lv[i].unwrap() < lv.len(),
                k <= nodes@.len(),
                before == all_records(gv, ids, cidx, lv, limit, o as int),
                records_view(records@) == before + class_records(
                    cls.subrange(0, k as int),
                    o as nat,
                    cidx,
                    lv,
                    limit,
                ),
                start == before.len(),
                forall|i: int|
                    0 <= i < records@.len() ==> children_fit(#[trigger] record_view(records@[i]), n as nat),
                lists_owned(before, seqs_usize_view(lists@), o as nat),
                mine@.len() == records@.len() - start,
                forall|t: int| 0 <= t < mine@.len() ==> #[trigger] mine@[t] == start + t,
                forall|i: int| start <= i < records@.len() ==> (#[trigger] records@[i]).owner == o,
            decreases nodes@.len() - k,
        {
            let node = &nodes[k];
            assert(node@ == cls[k as int]);
            proof {
                assert forall|j: int|
                    0 <= j < spec_children(node@).len() implies (#[trigger] spec_children(node@)[j] as int)
                        < class_index@.len() && class_index@[spec_children(node@)[j] as int] is Some && (
                    class_index@[spec_children(node@)[j] as int].unwrap() as int) < lower@.len() by {
                    assert(spec_children(gv[ids[o as int] as int][k as int])[j] == spec_children(node@)[j]);
                }
            }
            let made = make_record(node, o, class_index, lower, md_limit);
            let ghost sub = cls.subrange(0, k + 1);
            assert(sub.drop_last() =~= cls.subrange(0, k as int));
            assert(sub.last() == node@);
            match made {
                Some(r) => {
                    let ghost old_recs = records@;
                    mine.push(records.len());
                    records.push(r);
                    assert(records_view(records@) =~= records_view(old_recs).push(record_view(r)));
                },
                None => {},
            }
            k = k + 1;
            assert(records_view(records@) =~= before + class_records(
                cls.subrange(0, k as int),
                o as nat,
                cidx,
                lv,
                limit,
            ));
        }
        assert(cls.subrange(0, k as int) =~= cls);
        let ghost old_lists = lists@;
        lists.push(mine);
        proof {
            let rv = records_view(records@);
            let lsv = seqs_usize_view(lists@);
            assert(lsv =~= seqs_usize_view(old_lists).push(mine@));
            assert forall|i: int| 0 <= i < rv.len() implies (#[trigger] rv[i].owner) < o + 1
                && lsv[rv[i].owner as int].contains(i as usize) by {
                if i < start {
                    assert(rv[i] == before[i]);
                } else {
                    assert(mine@[i - start] == i);
                }
            }
            assert forall|c: int, t: int|
                0 <= c < o + 1 && 0 <= t < lsv[c].len() implies (#[trigger] lsv[c][t] as int) < rv.len()
                && rv[lsv[c][t] as int].owner == c by {
                if c < o {
                    assert(lsv[c] == seqs_usize_view(old_lists)[c]);
                    assert(rv[lsv[c][t] as int] == before[lsv[c][t] as int]);
                }
            }
        }
        o = o + 1;
    }
    (records, lists)
}

/// For every class, the records that have it among their children.
fn collect_parents(records: &[NodeRecord], n: usize) -> (res: Vec<Vec<usize>>)
    requires
        forall|i: int| 0 <= i < records@.len() ==> children_fit(#[trigger] record_view(records@[i]), n as nat),
    ensures
        lists_parents(records_view(records@), seqs_usize_view(res@), n as nat),
{
    let ghost rv = records_view(records@);
    let mut lists: Vec<Vec<usize>> = Vec::new();
    while lists.len() < n
        invariant
            lists@.len() <= n,
            forall|c: int| 0 <= c < lists@.len() ==> (#[trigger] lists@[c])@.len() == 0,
        decreases n - lists@.len(),
    {
        lists.push(Vec::new());
    }
    let mut i: usize = 0;
    assert forall|i2: int| 0 <= i2 < rv.len() implies children_fit(#[trigger] rv[i2], n as nat) by {
        assert(rv[i2] == record_view(records@[i2]));
    }
    while i < records.len()
        invariant
            rv == records_view(records@),
            forall|i2: int| 0 <= i2 < rv.len() ==> children_fit(#[trigger] rv[i2], n as nat),
            lists@.len() == n,
            i <= records@.len(),
            forall|c: int, k: int|
                0 <= c < n && 0 <= k < lists@[c]@.len() ==> (#[trigger] lists@[c]@[k] as int) < i
                    && rv[lists@[c]@[k] as int].children.contains(c as usize),
            forall|c: int, a: int, b: int|
                0 <= c < n && 0 <= a < b < lists@[c]@.len() ==> #[trigger] lists@[c]@[a]
                    < #[trigger] lists@[c]@[b],
            forall|i2: int, j: int|
                0 <= i2 < i && 0 <= j < rv[i2].children.len() ==> lists@[#[trigger] rv[i2].children[j] as int]@.contains(
                    i2 as usize,
                ),
        decreases records@.len() - i,
    {
        let ch = &records[i].children;
        assert(ch@ == rv[i as int].children);
        assert(children_fit(rv[i as int], n as nat));
        let mut j: usize = 0;
        while j < ch.len()
            invariant
                rv == records_view(records@),
                i < records@.len(),
                ch@ == rv[i as int].children,
                forall|i2: int| 0 <= i2 < rv.len() ==> children_fit(#[trigger] rv[i2], n as nat),
                lists@.len() == n,
                j <= ch@.len(),
                forall|c: int, k: int|
                    0 <= c < n && 0 <= k < lists@[c]@.len() ==> (#[trigger] lists@[c]@[k] as int) <= i
                        && rv[lists@[c]@[k] as int].children.contains(c as usize),
                forall|c: int, a: int, b: int|
                    0 <= c < n && 0 <= a < b < lists@[c]@.len() ==> #[trigger] lists@[c]@[a]
                        < #[trigger] lists@[c]@[b],
                forall|i2: int, j2: int|
                    0 <= i2 < i && 0 <= j2 < rv[i2].children.len() ==> lists@[#[trigger] rv[i2].children[j2] as int]@.contains(
                        i2 as usize,
                    ),
                forall|j2: int| 0 <= j2 < j ==> lists@[#[trigger] ch@[j2] as int]@.contains(i),
            decreases ch@.len() - j,
        {
            let c = ch[j];
            assert(rv[i as int].children.contains(c)) by {
                assert(rv[i as int].children[j as int] == c);
            }
            let l = lists[c].len();
            if l == 0 || lists[c][l - 1] != i {
                let ghost old_lists = lists@;
                proof {
                    assert forall|k: int| 0 <= k < l implies #[trigger] old_lists[c as int]@[k] < i by {
                        if k < l - 1 {
                            assert(old_lists[c as int]@[k] < old_lists[c as int]@[l - 1]);
                        }
                    }
                }
                lists[c].push(i);
                proof {
                    assert(lists@[c as int]@ == old_lists[c as int]@.push(i));
                    assert forall|c2: int| 0 <= c2 < n && c2 != c implies #[trigger] lists@[c2] == old_lists[c2] by {}
                    assert forall|i2: int, j2: int|
                        0 <= i2 < i && 0 <= j2 < rv[i2].children.len() implies lists@[#[trigger] rv[i2].children[j2] as int]@.contains(
                            i2 as usize,
                        ) by {
                        let c2 = rv[i2].children[j2] as int;
                        assert(children_fit(rv[i2], n as nat));
                        if c2 == c {
                            let w = choose|w: int| 0 <= w < old_lists[c2]@.len() && old_lists[c2]@[w] == i2 as usize;
                            assert(lists@[c2]@[w] == i2 as usize);
                        }
                    }
                    assert forall|j2: int| 0 <= j2 < j + 1 implies lists@[#[trigger] ch@[j2] as int]@.contains(i) by {
                        let c2 = ch@[j2] as int;
                        if c2 == c {
                            assert(lists@[c2]@[l as int] == i);
                        } else {
                            assert(lists@[c2] == old_lists[c2]);
                        }
                    }
                }
            } else {
                assert(lists@[c as int]@[l - 1] == i);
            }
            j = j + 1;
        }
        i = i + 1;
    }
    proof {
        let lsv = seqs_usize_view(lists@);
        assert forall|c: int| 0 <= c < n implies #[trigger] lsv[c] == lists@[c]@ by {}
    }
    lists
}

// ---------------------------------------------------------------------
// The model
// ---------------------------------------------------------------------
/// What the integer program ranges over.
pub struct MipView {
    pub md_limit: nat,
    pub class_ids: Seq<usize>,
    pub class_index: Seq<Option<usize>>,
    pub root_index: nat,
    pub min_depth_lb: Seq<Option<usize>>,
    pub records: Seq<RecordView>,
    pub nodes_by_class: Seq<Seq<usize>>,
    pub parent_records: Seq<Seq<usize>>,
}

/// `m` is the model of `min MC subject to MD <= limit` for the extraction
/// of class `root` of `g`: the root-reachable classes in snapshot order and
/// their compact index, the greatest fixed point of the depth lower bounds,
/// the candidate records that survive safe pruning, and for every class its
/// own records and the records that use it.
pub open spec fn model_of(g: Seq<Seq<SpecLang>>, root: int, limit: nat, m: MipView) -> bool {
    &&& m.md_limit == limit
    &&& m.class_ids == reachable_list(g, root, g.len() as int)
    &&& index_exact(g.len(), m.class_ids, m.class_index)
    &&& m.root_index < m.class_ids.len() && m.class_ids[m.root_index as int] == root
    &&& is_fixed_point(g, m.class_ids, m.class_index, m.min_depth_lb)
    &&& forall|l2: Seq<Option<usize>>|
        #[trigger] is_fixed_point(g, m.class_ids, m.class_index, l2) ==> below(l2, m.min_depth_lb)
    &&& exists|h: nat| #[trigger] attained(g, m.class_ids, m.class_index, m.min_depth_lb, h)
    &&& m.records == all_records(
        g,
        m.class_ids,
        m.class_index,
        m.min_depth_lb,
        limit,
        m.class_ids.len() as int,
    )
    &&& lists_owned(m.records, m.nodes_by_class, m.class_ids.len())
    &&& lists_parents(m.records, m.parent_records, m.class_ids.len())
}

/// The root's bound is within the limit and one of its implementations
/// survived pruning.
pub open spec fn model_feasible(m: MipView) -> bool {
    &&& m.min_depth_lb[m.root_index as int] matches Some(lb) && lb <= m.md_limit
    &&& m.nodes_by_class[m.root_index as int].len() > 0
}

/// Why an infeasible model is refused.
pub open spec fn refusal_text(m: MipView) -> Seq<char> {
    match m.min_depth_lb[m.root_index as int] {
        None => "The output root has no finite acyclic derivation in the saturated e-graph"@,
        Some(lb) => if lb > m.md_limit {
            "MD bound "@ + nat_digits(m.md_limit) + " is infeasible: the output root has lower-bound MD "@
                + nat_digits(lb as nat)
        } else {
            "MD bound "@ + nat_digits(m.md_limit)
                + " is infeasible: no root implementation remains after safe pruning"@
        },
    }
}

/// The consistency that decoding relies on.
pub open spec fn mip_wf(m: MipView) -> bool {
    &&& m.root_index < m.class_ids.len()
    &&& m.min_depth_lb.len() == m.class_ids.len()
    &&& lists_owned(m.records, m.nodes_by_class, m.class_ids.len())
    &&& lists_parents(m.records, m.parent_records, m.class_ids.len())
    &&& forall|i: int|
        0 <= i < m.records.len() ==> children_fit(#[trigger] m.records[i], m.class_ids.len())
}

/// The data of the integer program for one depth bound.
pub struct MipModel {
    md_limit: usize,
    class_ids: Vec<usize>,
    class_index: Vec<Option<usize>>,
    root_index: usize,
    min_depth_lb: Vec<Option<usize>>,
    records: Vec<NodeRecord>,
    nodes_by_class: Vec<Vec<usize>>,
    parent_records: Vec<Vec<usize>>,
}

impl View for MipModel {
    type V = MipView;

    closed spec fn view(&self) -> MipView {
        MipView {
            md_limit: self.md_limit as nat,
            class_ids: self.class_ids@,
            class_index: self.class_index@,
            root_index: self.root_index as nat,
            min_depth_lb: self.min_depth_lb@,
            records: records_view(self.records@),
            nodes_by_class: seqs_usize_view(self.nodes_by_class@),
            parent_records: seqs_usize_view(self.parent_records@),
        }
    }
}

impl MipModel {
    #[verifier::type_invariant]
    closed spec fn inv(self) -> bool {
        mip_wf(self@)
    }

    /// The depth bound `D` of the constraint `MD <= D`.
    pub fn md_limit(&self) -> (res: usize)
        ensures
            res == self@.md_limit,
    {
        self.md_limit
    }

    /// Number of modelled classes.
    pub fn class_count(&self) -> (res: usize)
        ensures
            res == self@.class_ids.len(),
            mip_wf(self@),
    {
        proof {
            use_type_invariant(self);
        }
        self.class_ids.len()
    }

    /// Snapshot positions of the modelled classes, by compact index.
    pub fn class_ids(&self) -> (res: &[usize])
        ensures
            res@ == self@.class_ids,
    {
        self.class_ids.as_slice()
    }

    /// Compact index of the output root.
    pub fn root_index(&self) -> (res: usize)
        ensures
            res == self@.root_index,
    {
        self.root_index
    }

    /// Lower bound on the multiplication depth of each modelled class.
    pub fn min_depth_lb(&self) -> (res: &[Option<usize>])
        ensures
            res@ == self@.min_depth_lb,
    {
        self.min_depth_lb.as_slice()
    }

    /// The candidate implementations.
    pub fn records(&self) -> (res: &[NodeRecord])
        ensures
            records_view(res@) == self@.records,
    {
        self.records.as_slice()
    }

    /// For each class, its own records in increasing order.
    pub fn nodes_by_class(&self) -> (res: &Vec<Vec<usize>>)
        ensures
            seqs_usize_view(res@) == self@.nodes_by_class,
    {
        &self.nodes_by_class
    }

    /// For each class, the records that use it as a child.
    pub fn parent_records(&self) -> (res: &Vec<Vec<usize>>)
        ensures
            seqs_usize_view(res@) == self@.parent_records,
    {
        &self.parent_records
    }
}

fn refusal_message(lb: Option<usize>, md_limit: usize) -> (res: Vec<char>)
    ensures
        forall|m: MipView|
            m.min_depth_lb[m.root_index as int] == lb && m.md_limit == md_limit ==> #[trigger] refusal_text(m) == res@,
{
    proof {
        reveal_strlit("The output root has no finite acyclic derivation in the saturated e-graph");
        reveal_strlit("MD bound ");
        reveal_strlit(" is infeasible: the output root has lower-bound MD ");
        reveal_strlit(" is infeasible: no root implementation remains after safe pruning");
    }
    match lb {
        None => str_chars("The output root has no finite acyclic derivation in the saturated e-graph"),
        Some(lb) => {
            let mut m = str_chars("MD bound ");
            append_chars(&mut m, &usize_digits(md_limit));
            if lb > md_limit {
                append_chars(&mut m, &str_chars(" is infeasible: the output root has lower-bound MD "));
                append_chars(&mut m, &usize_digits(lb));
            } else {
                append_chars(
                    &mut m,
                    &str_chars(" is infeasible: no root implementation remains after safe pruning"),
                );
            }
            m
        },
    }
}

/// The model for the extraction of class `root` of `g`.
#[verifier::rlimit(40)]
fn assemble_model(g: &EGraphSnapshot, root: usize, md_limit: usize) -> (res: MipModel)
    requires
    root < g@.len(),
    ensures
    model_of(g@, root as int, md_limit as nat, res@),
{
    let n = g.class_count();
    let ghost gv = g@;
    let class_ids = collect_root_reachable_classes(g, root);
    proof {
        lemma_reachable_list(gv, root as int, n as int);
        let p = seq![root as int];
        assert(is_path(gv, p));
        assert(p[0] == root as int && p.last() == root as int);
        assert(reachable(gv, root as int, root as int));
    }
    let class_index = build_class_index(n, class_ids.as_slice());
    proof {
        lemma_children_modelled(gv, root as int, class_ids@, class_index@);
    }
    let root_index = class_index[root].unwrap();
    let lower = compute_min_depth_lower_bounds(g, class_ids.as_slice(), class_index.as_slice());
    let (records, nodes_by_class) = collect_records(
        g,
        class_ids.as_slice(),
        class_index.as_slice(),
        lower.as_slice(),
        md_limit,
    );
    let parent_records = collect_parents(records.as_slice(), class_ids.len());
    let model = MipModel {
        md_limit,
        class_ids,
        class_index,
        root_index,
        min_depth_lb: lower,
        records,
        nodes_by_class,
        parent_records,
    };
    proof {
        assert(model_of(gv, root as int, md_limit as nat, model@));
    }
    model
}

// ---------------------------------------------------------------------
// The extractor
// ---------------------------------------------------------------------
/// Global DAG extraction of the output root of an e-graph snapshot under a
/// multiplication-depth bound.
///
/// The extractor borrows the snapshot, so models for different depth bounds
/// can be built without rebuilding or re-saturating the e-graph.
pub struct MdMcExtractor<'a> {
    egraph: &'a EGraphSnapshot,
    root: usize,
}

impl<'a> MdMcExtractor<'a> {
    #[verifier::type_invariant]
    closed spec fn inv(self) -> bool {
        self.root < self.egraph@.len()
    }

    pub closed spec fn graph(&self) -> Seq<Seq<SpecLang>> {
        self.egraph@
    }

    pub closed spec fn root_class(&self) -> nat {
        self.root as nat
    }

    /// An extractor for the class `root` of `egraph`, the virtual
    /// `outputs(...)` root.
    pub fn new(egraph: &'a EGraphSnapshot, root: usize) -> (res: Self)
        requires
            root < egraph@.len(),
        ensures
            res.graph() == egraph@,
            res.root_class() == root,
    {
        MdMcExtractor { egraph, root }
    }

    /// The model of `min MC` subject to the extracted DAG satisfying
    /// `MD <= md_limit`, or the reason the bound is infeasible before any
    /// solving: the root has no finite derivation, its lower bound exceeds
    /// the limit, or no implementation of it survives safe pruning.
    pub fn build_model(&self, md_limit: usize) -> (res: Result<MipModel, String>)
        ensures
            res matches Ok(m) ==> model_of(self.graph(), self.root_class() as int, md_limit as nat, m@)
                && model_feasible(m@),
            res matches Err(e) ==> exists|m: MipView|
                #[trigger] model_of(self.graph(), self.root_class() as int, md_limit as nat, m)
                    && !model_feasible(m) && e@ == refusal_text(m),
    {
        proof {
            use_type_invariant(self);
        }
        let model = assemble_model(self.egraph, self.root, md_limit);
        let _ = model.class_count();
        let ri = model.root_index;
        let lb = model.min_depth_lb[ri];
        let feasible = match lb {
            Some(x) => x <= md_limit && model.nodes_by_class[ri].len() > 0,
            None => false,
        };
        if feasible {
            Ok(model)
        } else {
            let msg = refusal_message(lb, md_limit);
            proof {
                assert(refusal_text(model@) == msg@);
                assert(!model_feasible(model@));
                assert(model_of(self.graph(), self.root_class() as int, md_limit as nat, model@));
            }
            Err(string_from_chars(msg.as_slice()))
        }
    }
}

// ---------------------------------------------------------------------
// Decoding a solved selection
// ---------------------------------------------------------------------
/// The first of the first `k` records that is selected for class `c`.
pub open spec fn first_selected(recs: Seq<RecordView>, sel: Seq<bool>, c: int, k: int) -> Option<
    usize,
>
    decreases k,
{
    if k <= 0 {
        None
    } else {
        match first_selected(recs, sel, c, k - 1) {
            Some(i) => Some(i),
            None => if sel[k - 1] && recs[k - 1].owner == c {
                Some((k - 1) as usize)
            } else {
                None
            },
        }
    }
}

/// The implementation selected for every class.
pub open spec fn selection(recs: Seq<RecordView>, sel: Seq<bool>, n: nat) -> Seq<Option<usize>> {
    Seq::new(n, |c: int| first_selected(recs, sel, c, recs.len() as int))
}

/// The first of the first `k` records that is selected while an earlier
/// record of its class is selected too.
pub open spec fn first_duplicate(recs: Seq<RecordView>, sel: Seq<bool>, k: int) -> Option<nat>
    decreases k,
{
    if k <= 0 {
        None
    } else {
        match first_duplicate(recs, sel, k - 1) {
            Some(i) => Some(i),
            None => if sel[k - 1] && first_selected(recs, sel, recs[k - 1].owner as int, k - 1) is Some {
                Some((k - 1) as nat)
            } else {
                None
            },
        }
    }
}

/// Number of selected multiplication records among the first `k`.
pub open spec fn selected_mul_count(recs: Seq<RecordView>, sel: Seq<bool>, k: int) -> nat
    decreases k,
{
    if k <= 0 {
        0
    } else {
        selected_mul_count(recs, sel, k - 1) + if sel[k - 1] && recs[k - 1].is_mul {
            1nat
        } else {
            0nat
        }
    }
}

/// Class `b` is a child of the implementation selected for class `a`.
pub open spec fn sel_edge(recs: Seq<RecordView>, pick: Seq<Option<usize>>, a: int, b: int) -> bool {
    &&& 0 <= a < pick.len()
    &&& pick[a] is Some
    &&& exists|j: int|
        0 <= j < recs[pick[a].unwrap() as int].children.len() && #[trigger] recs[pick[a].unwrap() as int].children[j]
            as int == b
}

pub open spec fn sel_path(recs: Seq<RecordView>, pick: Seq<Option<usize>>, p: Seq<int>) -> bool {
    &&& p.len() > 0
    &&& forall|i: int| 0 <= i < p.len() - 1 ==> sel_edge(recs, pick, #[trigger] p[i], p[i + 1])
}

/// Class `c` is used by the selected DAG under `root`.
pub open spec fn sel_reachable(recs: Seq<RecordView>, pick: Seq<Option<usize>>, root: int, c: int) -> bool {
    exists|p: Seq<int>| #[trigger] sel_path(recs, pick, p) && p[0] == root && p.last() == c
}

/// Every class used under `root` has a selected implementation.
pub open spec fn sel_closed(recs: Seq<RecordView>, pick: Seq<Option<usize>>, root: int) -> bool {
    forall|c: int| #[trigger] sel_reachable(recs, pick, root, c) ==> 0 <= c < pick.len() && pick[c] is Some
}

/// Class `c` lies on a cycle of the selection.
pub open spec fn on_cycle(recs: Seq<RecordView>, pick: Seq<Option<usize>>, c: int) -> bool {
    exists|p: Seq<int>| #[trigger] sel_path(recs, pick, p) && p.len() >= 2 && p[0] == c && p.last() == c
}

/// Some class used under `root` lies on a cycle of the selection.
pub open spec fn sel_cyclic(recs: Seq<RecordView>, pick: Seq<Option<usize>>, root: int) -> bool {
    exists|c: int| #[trigger] sel_reachable(recs, pick, root, c) && on_cycle(recs, pick, c)
}

/// Class `c` is placed at node `pos[c]` of `expr`, which is its selected
/// implementation with the children placed at its child classes' nodes.
pub open spec fn placed(
    expr: Seq<SpecLang>,
    pos: Seq<Option<usize>>,
    recs: Seq<RecordView>,
    pick: Seq<Option<usize>>,
    c: int,
) -> bool {
    let p = pos[c].unwrap() as int;
    let r = recs[pick[c].unwrap() as int];
    &&& p < expr.len()
    &&& pick[c] is Some
    &&& expr[p] == relabel(r.node, spec_children(expr[p]))
    &&& spec_children(expr[p]).len() == r.children.len()
    &&& forall|j: int|
        0 <= j < r.children.len() ==> pos[#[trigger] r.children[j] as int] == Some(
            spec_children(expr[p])[j],
        )
}

/// The placement of classes at the nodes of `expr` is one to one, and every
/// node holds a class whose placement is sound.
pub open spec fn placement(
    expr: Seq<SpecLang>,
    pos: Seq<Option<usize>>,
    recs: Seq<RecordView>,
    pick: Seq<Option<usize>>,
) -> bool {
    &&& pos.len() == pick.len()
    &&& forall|c: int| 0 <= c < pos.len() && #[trigger] pos[c] is Some ==> placed(expr, pos, recs, pick, c)
    &&& forall|c1: int, c2: int|
        0 <= c1 < pos.len() && 0 <= c2 < pos.len() && #[trigger] pos[c1] is Some && pos[c1]
            == #[trigger] pos[c2] ==> c1 == c2
    &&& forall|q: int| 0 <= q < expr.len() ==> #[trigger] holds_class(pos, q)
}

/// Some class is placed at node `q`.
pub open spec fn holds_class(pos: Seq<Option<usize>>, q: int) -> bool {
    exists|c: int| 0 <= c < pos.len() && #[trigger] pos[c] == Some(q as usize)
}

/// `expr` is the selected DAG under `root`: exactly the classes it uses are
/// placed, each once, and the root last.
pub open spec fn encodes(
    expr: Seq<SpecLang>,
    pos: Seq<Option<usize>>,
    recs: Seq<RecordView>,
    pick: Seq<Option<usize>>,
    root: int,
) -> bool {
    &&& placement(expr, pos, recs, pick)
    &&& 0 <= root < pos.len()
    &&& expr.len() > 0
    &&& pos[root] == Some((expr.len() - 1) as usize)
    &&& forall|c: int| 0 <= c < pos.len() ==> (#[trigger] pos[c] is Some <==> sel_reachable(recs, pick, root, c))
}

pub open spec fn duplicate_text(c: nat) -> Seq<char> {
    "Solver selected more than one implementation for e-class "@ + nat_digits(c)
}

pub open spec fn missing_root_text() -> Seq<char> {
    "Solver did not select an implementation for the root e-class"@
}

pub open spec fn missing_text(c: nat) -> Seq<char> {
    "Selected parent requires e-class "@ + nat_digits(c) + ", but no implementation was selected"@
}

pub open spec fn cycle_text(c: nat) -> Seq<char> {
    "Selected implementations form a cycle through e-class "@ + nat_digits(c)
}

/// The refusal of a selection under `root` that is not closed or not
/// acyclic names a class at fault.
pub open spec fn selection_fault(
    recs: Seq<RecordView>,
    pick: Seq<Option<usize>>,
    root: int,
    e: Seq<char>,
) -> bool {
    ||| exists|c: int|
        #[trigger] sel_reachable(recs, pick, root, c) && 0 <= c < pick.len() && pick[c] is None && e
            == missing_text(c as nat)
    ||| exists|c: int|
        #[trigger] sel_reachable(recs, pick, root, c) && on_cycle(recs, pick, c) && 0 <= c && e
            == cycle_text(c as nat)
}

/// Number of `false` entries.
pub open spec fn free_count(a: Seq<bool>) -> nat
    decreases a.len(),
{
    if a.len() == 0 {
        0
    } else {
        free_count(a.drop_last()) + if a.last() {
            0nat
        } else {
            1nat
        }
    }
}

proof fn lemma_free_count_mono(a: Seq<bool>, b: Seq<bool>)
    requires
        a.len() == b.len(),
        forall|i: int| 0 <= i < a.len() && #[trigger] a[i] ==> b[i],
    ensures
        free_count(b) <= free_count(a),
    decreases a.len(),
{
    if a.len() > 0 {
        lemma_free_count_mono(a.drop_last(), b.drop_last());
    }
}

proof fn lemma_free_count_set(a: Seq<bool>, i: int)
    requires
        0 <= i < a.len(),
        !a[i],
    ensures
        free_count(a.update(i, true)) + 1 == free_count(a),
    decreases a.len(),
{
    let b = a.update(i, true);
    if i < a.len() - 1 {
        assert(b.drop_last() =~= a.drop_last().update(i, true));
        lemma_free_count_set(a.drop_last(), i);
    } else {
        assert(b.drop_last() =~= a.drop_last());
    }
}

proof fn lemma_path_push(recs: Seq<RecordView>, pick: Seq<Option<usize>>, p: Seq<int>, c: int)
    requires
        sel_path(recs, pick, p),
        sel_edge(recs, pick, p.last(), c),
    ensures
        sel_path(recs, pick, p.push(c)),
        p.push(c)[0] == p[0],
        p.push(c).last() == c,
{
    let q = p.push(c);
    assert forall|i: int| 0 <= i < q.len() - 1 implies sel_edge(recs, pick, #[trigger] q[i], q[i + 1]) by {
        if i < p.len() - 1 {
            assert(q[i] == p[i] && q[i + 1] == p[i + 1]);
        } else {
            assert(q[i] == p.last());
        }
    }
}

/// The suffix of a path from position `k` is a path.
proof fn lemma_path_suffix(recs: Seq<RecordView>, pick: Seq<Option<usize>>, p: Seq<int>, k: int)
    requires
        sel_path(recs, pick, p),
        0 <= k < p.len(),
    ensures
        sel_path(recs, pick, p.subrange(k, p.len() as int)),
{
    let q = p.subrange(k, p.len() as int);
    assert forall|i: int| 0 <= i < q.len() - 1 implies sel_edge(recs, pick, #[trigger] q[i], q[i + 1]) by {
        assert(q[i] == p[k + i] && q[i + 1] == p[k + i + 1]);
    }
}

/// The prefix of a path up to position `k` is a path.
proof fn lemma_path_prefix(recs: Seq<RecordView>, pick: Seq<Option<usize>>, p: Seq<int>, k: int)
    requires
        sel_path(recs, pick, p),
        0 <= k < p.len(),
    ensures
        sel_path(recs, pick, p.subrange(0, k + 1)),
{
    let q = p.subrange(0, k + 1);
    assert forall|i: int| 0 <= i < q.len() - 1 implies sel_edge(recs, pick, #[trigger] q[i], q[i + 1]) by {
        assert(q[i] == p[i] && q[i + 1] == p[i + 1]);
    }
}

/// A placed class's child along a selected edge is placed at an earlier
/// node.
proof fn lemma_edge_step(
    expr: Seq<SpecLang>,
    pos: Seq<Option<usize>>,
    recs: Seq<RecordView>,
    pick: Seq<Option<usize>>,
    a: int,
    b: int,
)
    requires
        placement(expr, pos, recs, pick),
        nodes_topological(expr),
        0 <= a < pos.len(),
        pos[a] is Some,
        sel_edge(recs, pick, a, b),
        forall|i: int| 0 <= i < recs.len() ==> children_fit(#[trigger] recs[i], pick.len()),
        forall|c: int| 0 <= c < pick.len() && #[trigger] pick[c] is Some ==> (pick[c].unwrap() as int) < recs.len(),
    ensures
        0 <= b < pos.len(),
        pos[b] is Some,
        pos[b].unwrap() < pos[a].unwrap(),
{
    assert(placed(expr, pos, recs, pick, a));
    let r = recs[pick[a].unwrap() as int];
    assert(children_fit(r, pick.len()));
    let j = choose|j: int| 0 <= j < r.children.len() && r.children[j] as int == b;
    let q = pos[a].unwrap() as int;
    assert(pos[r.children[j] as int] == Some(spec_children(expr[q])[j]));
    assert(spec_children(expr[q])[j] < q);
}

/// Every class on a selected path from a placed class is placed.
proof fn lemma_path_placed(
    expr: Seq<SpecLang>,
    pos: Seq<Option<usize>>,
    recs: Seq<RecordView>,
    pick: Seq<Option<usize>>,
    p: Seq<int>,
)
    requires
        placement(expr, pos, recs, pick),
        nodes_topological(expr),
        sel_path(recs, pick, p),
        0 <= p[0] < pos.len(),
        pos[p[0]] is Some,
        forall|i: int| 0 <= i < recs.len() ==> children_fit(#[trigger] recs[i], pick.len()),
        forall|c: int| 0 <= c < pick.len() && #[trigger] pick[c] is Some ==> (pick[c].unwrap() as int) < recs.len(),
    ensures
        0 <= p.last() < pos.len(),
        pos[p.last()] is Some,
        p.len() >= 2 ==> pos[p.last()].unwrap() < pos[p[0]].unwrap(),
    decreases p.len(),
{
    if p.len() >= 2 {
        let q = p.drop_last();
        assert forall|i: int| 0 <= i < q.len() - 1 implies sel_edge(recs, pick, #[trigger] q[i], q[i + 1]) by {
            assert(q[i] == p[i] && q[i + 1] == p[i + 1]);
        }
        lemma_path_placed(expr, pos, recs, pick, q);
        assert(sel_edge(recs, pick, p[p.len() - 2], p[p.len() - 1]));
        lemma_edge_step(expr, pos, recs, pick, q.last(), p.last());
    }
}

fn missing_message(c: usize) -> (res: String)
    ensures
        res@ == missing_text(c as nat),
{
    proof {
        reveal_strlit("Selected parent requires e-class ");
        reveal_strlit(", but no implementation was selected");
    }
    let mut m = str_chars("Selected parent requires e-class ");
    append_chars(&mut m, &usize_digits(c));
    append_chars(&mut m, &str_chars(", but no implementation was selected"));
    string_from_chars(m.as_slice())
}

fn cycle_message(c: usize) -> (res: String)
    ensures
        res@ == cycle_text(c as nat),
{
    proof {
        reveal_strlit("Selected implementations form a cycle through e-class ");
    }
    let mut m = str_chars("Selected implementations form a cycle through e-class ");
    append_chars(&mut m, &usize_digits(c));
    string_from_chars(m.as_slice())
}

/// A selected edge from the end of a path back to one of its classes closes
/// a cycle through that class, which the path's start reaches.
proof fn lemma_back_edge(recs: Seq<RecordView>, pick: Seq<Option<usize>>, stack: Seq<int>, c: int)
    requires
        sel_path(recs, pick, stack),
        stack.contains(c),
        sel_edge(recs, pick, stack.last(), c),
    ensures
        sel_reachable(recs, pick, stack[0], c),
        on_cycle(recs, pick, c),
{
    let k = choose|k: int| 0 <= k < stack.len() && stack[k] == c;
    let tail = stack.subrange(k, stack.len() as int);
    lemma_path_suffix(recs, pick, stack, k);
    assert(tail.last() == stack.last());
    lemma_path_push(recs, pick, tail, c);
    assert(tail.push(c)[0] == c);
    lemma_path_prefix(recs, pick, stack, k);
    let head = stack.subrange(0, k + 1);
    assert(head[0] == stack[0] && head.last() == c);
}

proof fn lemma_push_contains(stack: Seq<int>, c: int)
    ensures
        forall|c2: int| #[trigger] stack.push(c).contains(c2) <==> (stack.contains(c2) || c2 == c),
{
    assert forall|c2: int| #[trigger] stack.push(c).contains(c2) <==> (stack.contains(c2) || c2 == c) by {
        if c2 == c {
            assert(stack.push(c)[stack.len() as int] == c2);
        } else if stack.contains(c2) {
            let w = choose|w: int| 0 <= w < stack.len() && stack[w] == c2;
            assert(stack.push(c)[w] == c2);
        } else if stack.push(c).contains(c2) {
            let w = choose|w: int| 0 <= w < stack.len() + 1 && stack.push(c)[w] == c2;
            assert(stack[w] == c2);
        }
    }
}

impl MipModel {
    /// Places `class` after every class that its selected implementation
    /// needs and that is not placed yet, in post-order. `active` marks the
    /// classes whose placement has begun; those not placed yet are exactly
    /// the classes on `stack`, a selected path from the root to `class`.
    fn rebuild(
        &self,
        class: usize,
        pick: &[Option<usize>],
        expr: &mut RecExpr,
        memo: &mut Vec<Option<usize>>,
        active: &mut Vec<bool>,
        Ghost(stack): Ghost<Seq<int>>,
    ) -> (res: Result<usize, String>)
        requires
            mip_wf(self@),
            pick@.len() == self@.class_ids.len(),
            forall|c: int|
                0 <= c < pick@.len() && #[trigger] pick@[c] is Some ==> (pick@[c].unwrap() as int)
                    < self@.records.len(),
            old(memo)@.len() == pick@.len(),
            old(active)@.len() == pick@.len(),
            class < pick@.len(),
            old(active)@[class as int],
            old(memo)@[class as int] is None,
            sel_path(self@.records, pick@, stack),
            stack.last() == class,
            forall|c: int|
                0 <= c < pick@.len() ==> ((old(active)@[c] && old(memo)@[c] is None)
                    <==> stack.contains(c)),
            forall|c: int|
                0 <= c < pick@.len() && #[trigger] old(memo)@[c] is Some ==> old(active)@[c]
                    && sel_reachable(self@.records, pick@, stack[0], c),
            placement(old(expr)@, old(memo)@, self@.records, pick@),
        ensures
            final(memo)@.len() == pick@.len(),
            final(active)@.len() == pick@.len(),
            res matches Ok(id) ==> {
                &&& final(memo)@[class as int] == Some(id)
                &&& id == final(expr)@.len() - 1
                &&& placement(final(expr)@, final(memo)@, self@.records, pick@)
                &&& forall|c: int|
                    0 <= c < pick@.len() && #[trigger] final(memo)@[c] is Some ==> final(active)@[c]
                        && sel_reachable(self@.records, pick@, stack[0], c)
                &&& forall|c: int|
                    0 <= c < pick@.len() ==> ((final(active)@[c] && final(memo)@[c] is None) <==> (
                    old(active)@[c] && old(memo)@[c] is None && c != class))
                &&& forall|c: int|
                    0 <= c < pick@.len() && #[trigger] old(memo)@[c] is Some ==> final(memo)@[c]
                        == old(memo)@[c]
                &&& forall|c: int| 0 <= c < pick@.len() && #[trigger] old(active)@[c] ==> final(active)@[c]
                &&& old(expr)@.len() <= final(expr)@.len()
                &&& final(expr)@.subrange(0, old(expr)@.len() as int) == old(expr)@
            },
            res matches Err(e) ==> selection_fault(self@.records, pick@, stack[0], e@),
        decreases free_count(old(active)@),
    {
        let ghost rv = self@.records;
        let ghost pk = pick@;
        let ghost n = pk.len();
        let ghost root0 = stack[0];
        let ghost memo0 = memo@;
        let ghost active0 = active@;
        let ghost expr0 = expr@;
        let r = match pick[class] {
            Some(r) => r,
            None => {
                proof {
                    assert(sel_reachable(rv, pk, root0, class as int));
                }
                return Err(missing_message(class));
            },
        };
        let rec = &self.records[r];
        let ch = &rec.children;
        assert(record_view(*rec) == rv[r as int]);
        assert(children_fit(rv[r as int], n));
        let mut ids: Vec<usize> = Vec::new();
        let mut j: usize = 0;
        while j < ch.len()
            invariant
                mip_wf(self@),
                rv == self@.records,
                pk == pick@,
                n == pk.len(),
                n == self@.class_ids.len(),
                forall|c: int| 0 <= c < n && #[trigger] pk[c] is Some ==> (pk[c].unwrap() as int) < rv.len(),
                class < n,
                pk[class as int] == Some(r),
                (r as int) < rv.len(),
                ch@ == rv[r as int].children,
                children_fit(rv[r as int], n),
                sel_path(rv, pk, stack),
                stack.last() == class,
                root0 == stack[0],
                memo0[class as int] is None,
                active0[class as int],
                memo0.len() == n,
                active0.len() == n,
                memo@.len() == n,
                active@.len() == n,
                j <= ch@.len(),
                ids@.len() == j,
                forall|j2: int| 0 <= j2 < j ==> memo@[#[trigger] ch@[j2] as int] == Some(ids@[j2]),
                placement(expr@, memo@, rv, pk),
                forall|c: int|
                    0 <= c < n && #[trigger] memo@[c] is Some ==> active@[c] && sel_reachable(rv, pk, root0, c),
                forall|c: int|
                    0 <= c < n ==> ((active@[c] && memo@[c] is None) <==> (active0[c] && memo0[c] is None)),
                forall|c: int| 0 <= c < n ==> ((active0[c] && memo0[c] is None) <==> stack.contains(c)),
                forall|c: int| 0 <= c < n && #[trigger] memo0[c] is Some ==> memo@[c] == memo0[c],
                forall|c: int| 0 <= c < n && #[trigger] active0[c] ==> active@[c],
                expr0.len() <= expr@.len(),
                expr@.subrange(0, expr0.len() as int) == expr0,
                free_count(active@) <= free_count(active0),
                active0 == old(active)@,
            decreases ch@.len() - j,
        {
            let c = ch[j];
            assert(rv[r as int].children[j as int] == c);
            assert(sel_edge(rv, pk, class as int, c as int));
            match memo[c] {
                Some(id) => {
                    ids.push(id);
                },
                None => {
                    if active[c] {
                        proof {
                            assert(stack.contains(c as int));
                            lemma_back_edge(rv, pk, stack, c as int);
                        }
                        return Err(cycle_message(c));
                    }
                    let ghost before = active@;
                    active.set(c, true);
                    proof {
                        lemma_free_count_set(before, c as int);
                        lemma_path_push(rv, pk, stack, c as int);
                        lemma_push_contains(stack, c as int);
                        assert(free_count(active@) < free_count(active0));
                    }
                    let ghost memo1 = memo@;
                    let ghost active1 = active@;
                    let ghost expr1 = expr@;
                    match self.rebuild(c, pick, expr, memo, active, Ghost(stack.push(c as int))) {
                        Ok(id) => {
                            ids.push(id);
                            proof {
                                assert(stack.push(c as int)[0] == root0);
                                assert forall|j2: int| 0 <= j2 < j + 1 implies memo@[#[trigger] ch@[j2] as int] == Some(ids@[j2]) by {
                                    if j2 < j {
                                        assert(memo1[ch@[j2] as int] is Some);
                                    }
                                }
                                assert(expr@.subrange(0, expr0.len() as int) =~= expr1.subrange(0, expr0.len() as int));
                                lemma_free_count_mono(active1, active@);
                            }
                        },
                        Err(e) => {
                            proof {
                                assert(stack.push(c as int)[0] == root0);
                            }
                            return Err(e);
                        },
                    }
                },
            }
            j = j + 1;
        }
        let node = rec.node.with_children(ids.as_slice());
        let ghost expr2 = expr@;
        let ghost memo2 = memo@;
        proof {
            assert forall|k: int| 0 <= k < spec_children(node@).len() implies #[trigger] spec_children(node@)[k] < expr@.len() by {
                let c = ch@[k] as int;
                assert(memo@[c] == Some(ids@[k]));
                assert(placed(expr@, memo@, rv, pk, c));
            }
        }
        let id = expr.add(node);
        memo.set(class, Some(id));
        proof {
            assert forall|c: int| 0 <= c < n && #[trigger] memo@[c] is Some implies placed(expr@, memo@, rv, pk, c) by {
                if c != class as int {
                    assert(placed(expr2, memo2, rv, pk, c));
                    let q = memo2[c].unwrap() as int;
                    assert(expr@[q] == expr2[q]);
                    let rc = rv[pk[c].unwrap() as int];
                    assert forall|j2: int| 0 <= j2 < rc.children.len() implies memo@[#[trigger] rc.children[j2] as int]
                        == Some(spec_children(expr@[q])[j2]) by {
                        assert(memo2[rc.children[j2] as int] is Some);
                    }
                } else {
                    assert forall|j2: int| 0 <= j2 < ch@.len() implies memo@[#[trigger] ch@[j2] as int]
                        == Some(spec_children(expr@[id as int])[j2]) by {
                        assert(memo2[ch@[j2] as int] is Some);
                    }
                }
            }
            assert forall|c1: int, c2: int|
                0 <= c1 < n && 0 <= c2 < n && #[trigger] memo@[c1] is Some && memo@[c1] == #[trigger] memo@[c2] implies c1 == c2 by {
                if c1 != class as int && c2 != class as int {
                } else if c1 == class as int && c2 != class as int {
                    assert(placed(expr2, memo2, rv, pk, c2));
                } else if c2 == class as int && c1 != class as int {
                    assert(placed(expr2, memo2, rv, pk, c1));
                }
            }
            assert forall|q: int| 0 <= q < expr@.len() implies #[trigger] holds_class(memo@, q) by {
                if q < expr2.len() {
                    assert(holds_class(memo2, q));
                    let c = choose|c: int| 0 <= c < memo2.len() && #[trigger] memo2[c] == Some(q as usize);
                    assert(memo@[c] == Some(q as usize));
                } else {
                    assert(memo@[class as int] == Some(q as usize));
                }
            }
            assert(sel_reachable(rv, pk, root0, class as int));
            assert(expr@.subrange(0, expr0.len() as int) =~= expr2.subrange(0, expr0.len() as int));
        }
        Ok(id)
    }
}

proof fn lemma_duplicate_stays(recs: Seq<RecordView>, sel: Seq<bool>, k: int, k2: int)
    requires
        first_duplicate(recs, sel, k) is Some,
        k <= k2,
    ensures
        first_duplicate(recs, sel, k2) == first_duplicate(recs, sel, k),
    decreases k2 - k,
{
    if k < k2 {
        lemma_duplicate_stays(recs, sel, k, k2 - 1);
    }
}

fn duplicate_message(c: usize) -> (res: String)
    ensures
        res@ == duplicate_text(c as nat),
{
    proof {
        reveal_strlit("Solver selected more than one implementation for e-class ");
    }
    let mut m = str_chars("Solver selected more than one implementation for e-class ");
    append_chars(&mut m, &usize_digits(c));
    string_from_chars(m.as_slice())
}

impl MipModel {
    /// The program that a solved selection describes, and the number of
    /// selected multiplications, `selected[i]` telling whether record `i`
    /// was chosen.
    ///
    /// Refused, in this order: a class with two selected records (the first
    /// record that repeats a class names it), a root without a selected
    /// record, and a selection under the root that uses a class without a
    /// selected record or runs in a cycle. Otherwise the program holds every
    /// class the selection uses under the root exactly once, in post-order,
    /// the root last.
    pub fn decode(&self, selected: &[bool]) -> (res: Result<(RecExpr, usize), String>)
        requires
            selected@.len() == self@.records.len(),
        ensures
            first_duplicate(self@.records, selected@, self@.records.len() as int) matches Some(i)
                ==> (res matches Err(e) && e@ == duplicate_text(self@.records[i as int].owner)),
            first_duplicate(self@.records, selected@, self@.records.len() as int) is None
                && selection(self@.records, selected@, self@.class_ids.len())[self@.root_index as int] is None
                ==> (res matches Err(e) && e@ == missing_root_text()),
            first_duplicate(self@.records, selected@, self@.records.len() as int) is None
                && selection(self@.records, selected@, self@.class_ids.len())[self@.root_index as int] is Some
                ==> (res is Ok <==> (sel_closed(
                self@.records,
                selection(self@.records, selected@, self@.class_ids.len()),
                self@.root_index as int,
            ) && !sel_cyclic(
                self@.records,
                selection(self@.records, selected@, self@.class_ids.len()),
                self@.root_index as int,
            ))),
            res matches Ok((expr, mc)) ==> mc == selected_mul_count(
                self@.records,
                selected@,
                self@.records.len() as int,
            ) && exists|pos: Seq<Option<usize>>|
                #[trigger] encodes(
                    expr@,
                    pos,
                    self@.records,
                    selection(self@.records, selected@, self@.class_ids.len()),
                    self@.root_index as int,
                ),
            first_duplicate(self@.records, selected@, self@.records.len() as int) is None
                && selection(self@.records, selected@, self@.class_ids.len())[self@.root_index as int] is Some
                ==> (res matches Err(e) ==> selection_fault(
                self@.records,
                selection(self@.records, selected@, self@.class_ids.len()),
                self@.root_index as int,
                e@,
            )),
    {
        proof {
            use_type_invariant(self);
        }
        let ghost rv = self@.records;
        let ghost sv = selected@;
        let n = self.class_ids.len();
        let mut pick: Vec<Option<usize>> = Vec::new();
        while pick.len() < n
            invariant
                pick@.len() <= n,
                forall|c: int| 0 <= c < pick@.len() ==> #[trigger] pick@[c] is None,
            decreases n - pick@.len(),
        {
            pick.push(None);
        }
        let mut mc: usize = 0;
        let mut i: usize = 0;
        while i < self.records.len()
            invariant
                mip_wf(self@),
                rv == self@.records,
                sv == selected@,
                sv.len() == rv.len(),
                n == self@.class_ids.len(),
                i <= rv.len(),
                pick@.len() == n,
                forall|c: int| 0 <= c < n ==> #[trigger] pick@[c] == first_selected(rv, sv, c, i as int),
                forall|c: int| 0 <= c < n && #[trigger] pick@[c] is Some ==> pick@[c].unwrap() < i,
                first_duplicate(rv, sv, i as int) is None,
                mc == selected_mul_count(rv, sv, i as int),
                mc <= i,
            decreases rv.len() - i,
        {
            assert(record_view(self.records@[i as int]) == rv[i as int]);
            if selected[i] {
                let owner = self.records[i].owner;
                assert(rv[i as int].owner < n);
                if pick[owner].is_some() {
                    proof {
                        assert(first_duplicate(rv, sv, i + 1) == Some(i as nat));
                        lemma_duplicate_stays(rv, sv, i + 1, rv.len() as int);
                    }
                    return Err(duplicate_message(owner));
                }
                pick.set(owner, Some(i));
                if self.records[i].is_mul {
                    mc = mc + 1;
                }
            }
            i = i + 1;
        }
        assert(i == rv.len());
        assert(mc == selected_mul_count(rv, sv, rv.len() as int));
        let root = self.root_index;
        let ghost pk = pick@;
        assert(pk =~= selection(rv, sv, n as nat));
        if pick[root].is_none() {
            return Err(string_from_chars(&str_chars("Solver did not select an implementation for the root e-class")));
        }
        let mut memo: Vec<Option<usize>> = Vec::new();
        let mut active: Vec<bool> = Vec::new();
        while memo.len() < n
            invariant
                memo@.len() == active@.len(),
                memo@.len() <= n,
                forall|c: int| 0 <= c < memo@.len() ==> #[trigger] memo@[c] is None && !active@[c],
            decreases n - memo@.len(),
        {
            memo.push(None);
            active.push(false);
        }
        active.set(root, true);
        let mut expr = RecExpr::new();
        let ghost stack = seq![root as int];
        proof {
            assert(sel_path(rv, pk, stack));
            assert forall|c: int| 0 <= c < n implies ((active@[c] && memo@[c] is None) <==> stack.contains(c)) by {
                if c == root as int {
                    assert(stack[0] == c);
                } else if stack.contains(c) {
                    let w = choose|w: int| 0 <= w < stack.len() && stack[w] == c;
                    assert(stack[w] == root as int);
                }
            }
            assert(placement(expr@, memo@, rv, pk));
        }
        match self.rebuild(root, pick.as_slice(), &mut expr, &mut memo, &mut active, Ghost(stack)) {
            Ok(id) => {
                let _ = expr.nodes();
                proof {
                    let pos = memo@;
                    assert forall|c: int| 0 <= c < pos.len() implies (#[trigger] pos[c] is Some
                        <==> sel_reachable(rv, pk, root as int, c)) by {
                        if sel_reachable(rv, pk, root as int, c) {
                            let p = choose|p: Seq<int>| #[trigger] sel_path(rv, pk, p) && p[0] == root as int && p.last() == c;
                            lemma_path_placed(expr@, pos, rv, pk, p);
                        }
                    }
                    assert(encodes(expr@, pos, rv, pk, root as int));
                    assert(encodes(
                        expr@,
                        pos,
                        self@.records,
                        selection(self@.records, selected@, self@.class_ids.len()),
                        self@.root_index as int,
                    ));
                    assert forall|c: int| #[trigger] sel_reachable(rv, pk, root as int, c) implies 0 <= c < pk.len() && pk[c] is Some by {
                        let p = choose|p: Seq<int>| #[trigger] sel_path(rv, pk, p) && p[0] == root as int && p.last() == c;
                        lemma_path_placed(expr@, pos, rv, pk, p);
                        assert(placed(expr@, pos, rv, pk, c));
                    }
                    if sel_cyclic(rv, pk, root as int) {
                        let c = choose|c: int| #[trigger] sel_reachable(rv, pk, root as int, c) && on_cycle(rv, pk, c);
                        let p = choose|p: Seq<int>| #[trigger] sel_path(rv, pk, p) && p[0] == root as int && p.last() == c;
                        lemma_path_placed(expr@, pos, rv, pk, p);
                        let q = choose|q: Seq<int>| #[trigger] sel_path(rv, pk, q) && q.len() >= 2 && q[0] == c && q.last() == c;
                        lemma_path_placed(expr@, pos, rv, pk, q);
                    }
                }
                assert(mc == selected_mul_count(self@.records, selected@, self@.records.len() as int));
                let res = (expr, mc);
                assert(encodes(
                    res.0@,
                    memo@,
                    self@.records,
                    selection(self@.records, selected@, self@.class_ids.len()),
                    self@.root_index as int,
                ));
                assert(exists|pos: Seq<Option<usize>>|
                    #[trigger] encodes(
                        res.0@,
                        pos,
                        self@.records,
                        selection(self@.records, selected@, self@.class_ids.len()),
                        self@.root_index as int,
                    ));
                Ok(res)
            },
            Err(e) => Err(e),
        }
    }
}

// ---------------------------------------------------------------------
// The model is determined by the e-graph, the root and the bound
// ---------------------------------------------------------------------
pub open spec fn strictly_increasing(a: Seq<usize>) -> bool {
    forall|i: int, j: int| 0 <= i < j < a.len() ==> #[trigger] a[i] < #[trigger] a[j]
}

/// Two strictly increasing sequences with the same elements are equal.
proof fn lemma_sorted_unique(a: Seq<usize>, b: Seq<usize>)
    requires
        strictly_increasing(a),
        strictly_increasing(b),
        forall|x: usize| a.contains(x) <==> b.contains(x),
    ensures
        a == b,
    decreases a.len(),
{
    if a.len() == 0 {
        if b.len() > 0 {
            assert(b.contains(b[0]));
        }
        assert(a =~= b);
    } else {
        assert(a.contains(a[0]));
        assert(b.len() > 0);
        assert(b.contains(b[0]));
        let ka = choose|k: int| 0 <= k < b.len() && b[k] == a[0];
        let kb = choose|k: int| 0 <= k < a.len() && a[k] == b[0];
        if ka > 0 {
            assert(b[0] < b[ka]);
        }
        if kb > 0 {
            assert(a[0] < a[kb]);
        }
        assert(a[0] == b[0]);
        let a1 = a.drop_first();
        let b1 = b.drop_first();
        assert forall|x: usize| a1.contains(x) <==> b1.contains(x) by {
            if a1.contains(x) {
                let k = choose|k: int| 0 <= k < a1.len() && a1[k] == x;
                assert(a[k + 1] == x);
                assert(a[0] < a[k + 1]);
                assert(b.contains(x));
                let k2 = choose|k2: int| 0 <= k2 < b.len() && b[k2] == x;
                assert(k2 != 0);
                assert(b1[k2 - 1] == x);
            }
            if b1.contains(x) {
                let k = choose|k: int| 0 <= k < b1.len() && b1[k] == x;
                assert(b[k + 1] == x);
                assert(b[0] < b[k + 1]);
                assert(a.contains(x));
                let k2 = choose|k2: int| 0 <= k2 < a.len() && a[k2] == x;
                assert(k2 != 0);
                assert(a1[k2 - 1] == x);
            }
        }
        lemma_sorted_unique(a1, b1);
        assert(a =~= b) by {
            assert forall|i: int| 0 <= i < a.len() implies a[i] == b[i] by {
                if i > 0 {
                    assert(a[i] == a1[i - 1]);
                    assert(b[i] == b1[i - 1]);
                }
            }
        }
    }
}

proof fn lemma_index_unique(n: nat, ids: Seq<usize>, c1: Seq<Option<usize>>, c2: Seq<Option<usize>>)
    requires
        index_exact(n, ids, c1),
        index_exact(n, ids, c2),
        strictly_increasing(ids),
    ensures
        c1 == c2,
{
    assert forall|c: int| 0 <= c < n implies c1[c] == c2[c] by {
        if c1[c] is Some {
            let o = c1[c].unwrap() as int;
            assert(ids[o] as int == c);
            assert(c2[ids[o] as int] == Some(o as usize));
        } else if c2[c] is Some {
            let o = c2[c].unwrap() as int;
            assert(c1[ids[o] as int] == Some(o as usize));
        }
    }
    assert(c1 =~= c2);
}

proof fn lemma_greatest_unique(
    g: Seq<Seq<SpecLang>>,
    ids: Seq<usize>,
    cidx: Seq<Option<usize>>,
    l1: Seq<Option<usize>>,
    l2: Seq<Option<usize>>,
)
    requires
        is_fixed_point(g, ids, cidx, l1),
        forall|l: Seq<Option<usize>>| #[trigger] is_fixed_point(g, ids, cidx, l) ==> below(l, l1),
        is_fixed_point(g, ids, cidx, l2),
        forall|l: Seq<Option<usize>>| #[trigger] is_fixed_point(g, ids, cidx, l) ==> below(l, l2),
    ensures
        l1 == l2,
{
    assert(below(l1, l2));
    assert(below(l2, l1));
    assert forall|i: int| 0 <= i < l1.len() implies l1[i] == l2[i] by {
        assert(opt_le(opt_nat(l1[i]), opt_nat(l2[i])));
        assert(opt_le(opt_nat(l2[i]), opt_nat(l1[i])));
    }
    assert(l1 =~= l2);
}

/// The model of a bound for a root of an e-graph is unique: any two models
/// of the same extraction problem are equal, so the integer program is
/// reproducible.
pub proof fn lemma_model_determined(
    g: Seq<Seq<SpecLang>>,
    root: int,
    limit: nat,
    m1: MipView,
    m2: MipView,
)
    requires
        g.len() <= usize::MAX,
        model_of(g, root, limit, m1),
        model_of(g, root, limit, m2),
    ensures
        m1 == m2,
{
    let n = m1.class_ids.len();
    lemma_reachable_list(g, root, g.len() as int);
    lemma_index_unique(g.len(), m1.class_ids, m1.class_index, m2.class_index);
    lemma_greatest_unique(g, m1.class_ids, m1.class_index, m1.min_depth_lb, m2.min_depth_lb);
    assert(m1.records == m2.records);
    let recs = m1.records;
    assert forall|c: int| 0 <= c < n implies m1.nodes_by_class[c] == m2.nodes_by_class[c] by {
        let a = m1.nodes_by_class[c];
        let b = m2.nodes_by_class[c];
        assert forall|x: usize| a.contains(x) <==> b.contains(x) by {
            if a.contains(x) {
                let k = choose|k: int| 0 <= k < a.len() && a[k] == x;
                assert(recs[a[k] as int].owner == c);
            }
            if b.contains(x) {
                let k = choose|k: int| 0 <= k < b.len() && b[k] == x;
                assert(recs[b[k] as int].owner == c);
            }
        }
        lemma_sorted_unique(a, b);
    }
    assert(m1.nodes_by_class =~= m2.nodes_by_class);
    assert forall|c: int| 0 <= c < n implies m1.parent_records[c] == m2.parent_records[c] by {
        let a = m1.parent_records[c];
        let b = m2.parent_records[c];
        assert forall|x: usize| a.contains(x) <==> b.contains(x) by {
            if a.contains(x) {
                let k = choose|k: int| 0 <= k < a.len() && a[k] == x;
                let i = a[k] as int;
                assert(recs[i].children.contains(c as usize));
                let j = choose|j: int| 0 <= j < recs[i].children.len() && recs[i].children[j] == c as usize;
                assert(m2.parent_records[recs[i].children[j] as int].contains(i as usize));
            }
            if b.contains(x) {
                let k = choose|k: int| 0 <= k < b.len() && b[k] == x;
                let i = b[k] as int;
                assert(recs[i].children.contains(c as usize));
                let j = choose|j: int| 0 <= j < recs[i].children.len() && recs[i].children[j] == c as usize;
                assert(m1.parent_records[recs[i].children[j] as int].contains(i as usize));
            }
        }
        lemma_sorted_unique(a, b);
    }
    assert(m1.parent_records =~= m2.parent_records);
}

/// The depth bounds of a model are the least multiplication depths of the
/// derivations of its classes: no bound exceeds the depth of a derivation
/// of any height, and at some height every bound is attained, a class
/// without a finite derivation having none.
pub proof fn lemma_model_bounds_exact(g: Seq<Seq<SpecLang>>, root: int, limit: nat, m: MipView)
    requires
        model_of(g, root, limit, m),
    ensures
        forall|h: nat| #[trigger] below_depths(m.min_depth_lb, derivation_depth(g, m.class_ids, m.class_index, h)),
        exists|h: nat| #[trigger] bounds_are_depths(g, m.class_ids, m.class_index, m.min_depth_lb, h),
{
    assert forall|h: nat| #[trigger] below_depths(m.min_depth_lb, derivation_depth(g, m.class_ids, m.class_index, h)) by {
        lemma_bounds_below_derivations(g, m.class_ids, m.class_index, m.min_depth_lb, h);
    }
    let h = choose|h: nat| #[trigger] attained(g, m.class_ids, m.class_index, m.min_depth_lb, h);
    lemma_bounds_exact(g, m.class_ids, m.class_index, m.min_depth_lb, h);
}

} // verus!
