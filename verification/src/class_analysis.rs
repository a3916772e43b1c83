//! The e-graph as the extraction model sees it, and the analyses that the
//! model is built from: the classes reachable from the output root, and
//! safe lower bounds on the multiplication depth of every class.
//!
//! The e-graph is seen through [`EGraphSnapshot`]: its classes in iteration
//! order, each with its e-nodes, whose children are class positions.
use vstd::prelude::*;
use crate::lang::{spec_children, FheLang, SpecLang};

verus! {

// ---------------------------------------------------------------------
// The e-graph snapshot
// ---------------------------------------------------------------------
/// The classes of an e-graph, each a list of e-nodes whose children are
/// class positions.
pub struct EGraphSnapshot {
    classes: Vec<Vec<FheLang>>,
}

pub open spec fn classes_view(v: Seq<Vec<FheLang>>) -> Seq<Seq<SpecLang>> {
    v.map_values(|c: Vec<FheLang>| c@.map_values(|n: FheLang| n@))
}

/// Every child of every e-node is a class.
pub open spec fn snapshot_wf(g: Seq<Seq<SpecLang>>) -> bool {
    forall|c: int, k: int, j: int|
        0 <= c < g.len() && 0 <= k < g[c].len() && 0 <= j < spec_children(g[c][k]).len() ==> (
        #[trigger] spec_children(#[trigger] g[c][k])[j]) < g.len()
}

pub open spec fn dangling_text(x: nat) -> Seq<char> {
    "E-node child "@ + crate::text::nat_digits(x) + " is not an e-class"@
}

impl View for EGraphSnapshot {
    type V = Seq<Seq<SpecLang>>;

    closed spec fn view(&self) -> Seq<Seq<SpecLang>> {
        classes_view(self.classes@)
    }
}

/// `b` is a child class of some e-node of class `a`.
pub open spec fn edge(g: Seq<Seq<SpecLang>>, a: int, b: int) -> bool {
    0 <= a < g.len() && exists|k: int, j: int|
        0 <= k < g[a].len() && 0 <= j < spec_children(g[a][k]).len() && #[trigger] spec_children(
            g[a][k],
        )[j] == b
}

pub open spec fn is_path(g: Seq<Seq<SpecLang>>, p: Seq<int>) -> bool {
    &&& p.len() > 0
    &&& forall|i: int| 0 <= i < p.len() - 1 ==> edge(g, #[trigger] p[i], p[i + 1])
}

/// Class `c` can occur in an extraction rooted at `root`.
pub open spec fn reachable(g: Seq<Seq<SpecLang>>, root: int, c: int) -> bool {
    exists|p: Seq<int>| is_path(g, p) && p[0] == root && p.last() == c
}

/// The reachable classes among the first `n`, in order.
pub open spec fn reachable_list(g: Seq<Seq<SpecLang>>, root: int, n: int) -> Seq<usize>
    decreases n,
{
    if n <= 0 {
        seq![]
    } else if reachable(g, root, n - 1) {
        reachable_list(g, root, n - 1).push((n - 1) as usize)
    } else {
        reachable_list(g, root, n - 1)
    }
}

impl EGraphSnapshot {
    #[verifier::type_invariant]
    closed spec fn inv(self) -> bool {
        snapshot_wf(self@)
    }

    /// A snapshot of the given classes, or the refusal naming a child that
    /// is not a class.
    pub fn from_classes(classes: Vec<Vec<FheLang>>) -> (res: Result<EGraphSnapshot, String>)
        ensures
            snapshot_wf(classes_view(classes@)) <==> res is Ok,
            res matches Ok(g) ==> g@ == classes_view(classes@),
            res matches Err(e) ==> exists|c: int, k: int, j: int|
                0 <= c < classes@.len() && 0 <= k < classes_view(classes@)[c].len() && 0 <= j
                    < spec_children(classes_view(classes@)[c][k]).len() && #[trigger] spec_children(
                    classes_view(classes@)[c][k],
                )[j] >= classes@.len() && e@ == dangling_text(
                    spec_children(classes_view(classes@)[c][k])[j] as nat,
                ),
    {
        let n = classes.len();
        let ghost gv = classes_view(classes@);
        let mut c: usize = 0;
        while c < n
            invariant
                n == classes@.len(),
                gv == classes_view(classes@),
                c <= n,
                forall|c2: int, k: int, j: int|
                    0 <= c2 < c && 0 <= k < gv[c2].len() && 0 <= j < spec_children(
                        gv[c2][k],
                    ).len() ==> (#[trigger] spec_children(#[trigger] gv[c2][k])[j]) < n,
            decreases n - c,
        {
            let nodes = &classes[c];
            assert(gv[c as int] == nodes@.map_values(|x: FheLang| x@));
            let mut k: usize = 0;
            while k < nodes.len()
                invariant
                    n == classes@.len(),
                    gv == classes_view(classes@),
                    c < n,
                    nodes == classes@[c as int],
                    gv[c as int] == nodes@.map_values(|x: FheLang| x@),
                    k <= nodes@.len(),
                    forall|c2: int, k2: int, j: int|
                        0 <= c2 < c && 0 <= k2 < gv[c2].len() && 0 <= j < spec_children(
                            gv[c2][k2],
                        ).len() ==> (#[trigger] spec_children(#[trigger] gv[c2][k2])[j]) < n,
                    forall|k2: int, j: int|
                        0 <= k2 < k && 0 <= j < spec_children(gv[c as int][k2]).len() ==> (
                        #[trigger] spec_children(#[trigger] gv[c as int][k2])[j]) < n,
                decreases nodes@.len() - k,
            {
                let ch = nodes[k].children();
                assert(gv[c as int][k as int] == nodes@[k as int]@);
                let mut j: usize = 0;
                while j < ch.len()
                    invariant
                        gv == classes_view(classes@),
                        n == gv.len(),
                        c < n,
                        k < gv[c as int].len(),
                        j <= ch@.len(),
                        ch@ == spec_children(gv[c as int][k as int]),
                        forall|j2: int| 0 <= j2 < j ==> #[trigger] ch@[j2] < n,
                    decreases ch@.len() - j,
                {
                    if ch[j] >= n {
                        let mut msg = crate::text::str_chars("E-node child ");
                        crate::text::append_chars(&mut msg, &crate::text::usize_digits(ch[j]));
                        crate::text::append_chars(
                            &mut msg,
                            &crate::text::str_chars(" is not an e-class"),
                        );
                        proof {
                            reveal_strlit("E-node child ");
                            reveal_strlit(" is not an e-class");
                            assert(gv.len() == n);
                            let x = spec_children(gv[c as int][k as int])[j as int];
                            assert(x == ch@[j as int]);
                            assert(x >= gv.len());
                            assert(!snapshot_wf(gv));
                            assert(msg@ == dangling_text(x as nat));
                        }
                        return Err(crate::text::string_from_chars(&msg));
                    }
                    j = j + 1;
                }
                k = k + 1;
            }
            c = c + 1;
        }
        Ok(EGraphSnapshot { classes })
    }

    pub fn class_count(&self) -> (res: usize)
        ensures
            res == self@.len(),
            snapshot_wf(self@),
    {
        proof {
            use_type_invariant(self);
        }
        self.classes.len()
    }

    /// The e-nodes of a class.
    pub fn class_nodes(&self, c: usize) -> (res: &Vec<FheLang>)
        requires
            c < self@.len(),
        ensures
            res@.map_values(|n: FheLang| n@) == self@[c as int],
            snapshot_wf(self@),
    {
        proof {
            use_type_invariant(self);
        }
        &self.classes[c]
    }
}

// ---------------------------------------------------------------------
// Reachable classes
// ---------------------------------------------------------------------
pub(crate) proof fn lemma_path_extend(g: Seq<Seq<SpecLang>>, p: Seq<int>, c: int)
    requires
        is_path(g, p),
        edge(g, p.last(), c),
    ensures
        is_path(g, p.push(c)),
        p.push(c)[0] == p[0],
        p.push(c).last() == c,
{
    let q = p.push(c);
    assert forall|i: int| 0 <= i < q.len() - 1 implies edge(g, #[trigger] q[i], q[i + 1]) by {
        if i < p.len() - 1 {
            assert(q[i] == p[i] && q[i + 1] == p[i + 1]);
        } else {
            assert(q[i] == p.last());
        }
    }
}

/// Every class on a path from a class of a closed set stays in the set.
proof fn lemma_closed_path(g: Seq<Seq<SpecLang>>, s: Set<int>, p: Seq<int>)
    requires
        is_path(g, p),
        s.contains(p[0]),
        forall|a: int, b: int| #[trigger] s.contains(a) && edge(g, a, b) ==> #[trigger] s.contains(b),
    ensures
        s.contains(p.last()),
    decreases p.len(),
{
    if p.len() > 1 {
        let q = p.drop_last();
        assert forall|i: int| 0 <= i < q.len() - 1 implies edge(g, #[trigger] q[i], q[i + 1]) by {
            assert(q[i] == p[i] && q[i + 1] == p[i + 1]);
        }
        lemma_closed_path(g, s, q);
        assert(edge(g, p[p.len() - 2], p[p.len() - 1]));
        assert(s.contains(p[p.len() - 2]));
    }
}

pub open spec fn bset(v: Seq<bool>) -> Set<int> {
    Set::new(|i: int| 0 <= i < v.len() && v[i])
}

/// Appends every child class of every e-node of class `id`.
fn push_children(g: &EGraphSnapshot, id: usize, todo: &mut Vec<usize>)
    requires
        id < g@.len(),
    ensures
        old(todo)@.len() <= final(todo)@.len(),
        forall|i: int| 0 <= i < old(todo)@.len() ==> final(todo)@[i] == #[trigger] old(todo)@[i],
        forall|i: int|
            old(todo)@.len() <= i < final(todo)@.len() ==> #[trigger] final(todo)@[i] < g@.len()
                && edge(g@, id as int, final(todo)@[i] as int),
        forall|b: int| #[trigger] edge(g@, id as int, b) ==> final(todo)@.contains(b as usize),
{
    let ghost gv = g@;
    let ghost t0 = todo@;
    let nodes = g.class_nodes(id);
    let mut k: usize = 0;
    while k < nodes.len()
        invariant
            gv == g@,
            snapshot_wf(gv),
            id < gv.len(),
            nodes@.map_values(|x: FheLang| x@) == gv[id as int],
            k <= nodes@.len(),
            t0.len() <= todo@.len(),
            forall|i: int| 0 <= i < t0.len() ==> todo@[i] == #[trigger] t0[i],
            forall|i: int|
                t0.len() <= i < todo@.len() ==> #[trigger] todo@[i] < gv.len() && edge(
                    gv,
                    id as int,
                    todo@[i] as int,
                ),
            forall|k2: int, j: int|
                0 <= k2 < k && 0 <= j < spec_children(gv[id as int][k2]).len() ==> todo@.contains(
                    #[trigger] spec_children(gv[id as int][k2])[j],
                ),
        decreases nodes@.len() - k,
    {
        let ch = nodes[k].children();
        assert(gv[id as int][k as int] == nodes@[k as int]@);
        let mut j: usize = 0;
        while j < ch.len()
            invariant
                gv == g@,
                snapshot_wf(gv),
                id < gv.len(),
                k < gv[id as int].len(),
                ch@ == spec_children(gv[id as int][k as int]),
                j <= ch@.len(),
                t0.len() <= todo@.len(),
                forall|i: int| 0 <= i < t0.len() ==> todo@[i] == #[trigger] t0[i],
                forall|i: int|
                    t0.len() <= i < todo@.len() ==> #[trigger] todo@[i] < gv.len() && edge(
                        gv,
                        id as int,
                        todo@[i] as int,
                    ),
                forall|k2: int, j2: int|
                    0 <= k2 < k && 0 <= j2 < spec_children(gv[id as int][k2]).len()
                        ==> todo@.contains(#[trigger] spec_children(gv[id as int][k2])[j2]),
                forall|j2: int| 0 <= j2 < j ==> todo@.contains(#[trigger] ch@[j2]),
            decreases ch@.len() - j,
        {
            let child = ch[j];
            assert(spec_children(gv[id as int][k as int])[j as int] == child);
            assert(edge(gv, id as int, child as int));
            let ghost before = todo@;
            todo.push(child);
            proof {
                assert(todo@[before.len() as int] == child);
                assert forall|k2: int, j2: int|
                    0 <= k2 < k && 0 <= j2 < spec_children(gv[id as int][k2]).len()
                        implies todo@.contains(#[trigger] spec_children(gv[id as int][k2])[j2]) by {
                    let x = spec_children(gv[id as int][k2])[j2];
                    let w = choose|w: int| 0 <= w < before.len() && before[w] == x;
                    assert(todo@[w] == x);
                }
                assert forall|j2: int| 0 <= j2 < j + 1 implies todo@.contains(
                    #[trigger] ch@[j2],
                ) by {
                    if j2 < j {
                        let w = choose|w: int| 0 <= w < before.len() && before[w] == ch@[j2];
                        assert(todo@[w] == ch@[j2]);
                    }
                }
            }
            j = j + 1;
        }
        k = k + 1;
    }
    proof {
        assert forall|b: int| #[trigger] edge(gv, id as int, b) implies todo@.contains(
            b as usize,
        ) by {
            let (k2, j2) = choose|k2: int, j2: int|
                0 <= k2 < gv[id as int].len() && 0 <= j2 < spec_children(gv[id as int][k2]).len()
                    && #[trigger] spec_children(gv[id as int][k2])[j2] == b;
            assert(todo@.contains(spec_children(gv[id as int][k2])[j2]));
        }
    }
}

/// `visited[c]` exactly for the classes reachable from `root`.
#[verifier::rlimit(30)]
fn mark_reachable(g: &EGraphSnapshot, root: usize) -> (visited: Vec<bool>)
    requires
        root < g@.len(),
    ensures
        visited@.len() == g@.len(),
        forall|c: int| 0 <= c < g@.len() ==> (visited@[c] <==> reachable(g@, root as int, c)),
{
    let n = g.class_count();
    let ghost gv = g@;
    let mut visited: Vec<bool> = Vec::new();
    while visited.len() < n
        invariant
            visited@.len() <= n,
            forall|i: int| 0 <= i < visited@.len() ==> !#[trigger] visited@[i],
        decreases n - visited@.len(),
    {
        visited.push(false);
    }
    assert(bset(visited@) =~= Set::<int>::empty());
    let mut todo: Vec<usize> = Vec::new();
    todo.push(root);
    assert(todo@[0] == root);
    let mut marked: usize = 0;
    proof {
        let p = seq![root as int];
        assert(is_path(gv, p));
        assert(p.last() == root as int);
        lemma_int_range_finite(n as int);
    }
    while todo.len() > 0
        invariant
            gv == g@,
            n == gv.len(),
            visited@.len() == n,
            root < n,
            forall|i: int| 0 <= i < todo@.len() ==> #[trigger] todo@[i] < n,
            forall|i: int|
                0 <= i < todo@.len() ==> reachable(gv, root as int, #[trigger] todo@[i] as int),
            forall|c: int| #[trigger] bset(visited@).contains(c) ==> reachable(gv, root as int, c),
            bset(visited@).contains(root as int) || todo@.contains(root),
            forall|a: int, b: int|
                #![trigger edge(gv, a, b)]
                bset(visited@).contains(a) && edge(gv, a, b) ==> bset(visited@).contains(b)
                    || todo@.contains(b as usize),
            bset(visited@).finite(),
            bset(visited@).len() == marked,
            marked <= n,
        decreases n - marked, todo@.len(),
    {
        let ghost todo_before = todo@;
        let id = todo.pop().unwrap();
        let ghost todo_rest = todo@;
        assert(todo_before =~= todo_rest.push(id));
        assert(todo_before[todo_before.len() - 1] == id);
        if visited[id] {
            proof {
                lemma_still_closed(gv, bset(visited@), todo_before, todo@, id, root);
                assert forall|i: int| 0 <= i < todo@.len() implies #[trigger] todo@[i] < n
                    && reachable(gv, root as int, todo@[i] as int) by {
                    assert(todo_before[i] == todo@[i]);
                }
            }
            continue ;
        }
        let ghost vis_before = bset(visited@);
        visited.set(id, true);
        proof {
            assert(bset(visited@) =~= vis_before.insert(id as int));
            lemma_int_range_finite(n as int);
            assert(bset(visited@).subset_of(set_range(n as int)));
            vstd::set_lib::lemma_len_subset(bset(visited@), set_range(n as int));
        }
        marked = marked + 1;
        push_children(g, id, &mut todo);
        proof {
            assert forall|i: int|
                0 <= i < todo@.len() implies #[trigger] todo@[i] < n && reachable(gv, root as int, todo@[i] as int) by {
                if i >= todo_rest.len() {
                    let p = choose|p: Seq<int>| is_path(gv, p) && p[0] == root && p.last() == id;
                    lemma_path_extend(gv, p, todo@[i] as int);
                } else {
                    assert(todo@[i] == todo_rest[i]);
                    assert(todo_before[i] == todo_rest[i]);
                }
            }
            lemma_still_closed(gv, vis_before, todo_before, todo_rest, id, root);
            assert forall|a: int, b: int|
                #![trigger edge(gv, a, b)]
                bset(visited@).contains(a) && edge(gv, a, b) implies bset(visited@).contains(b)
                    || todo@.contains(b as usize) by {
                if a == id {
                } else {
                    assert(vis_before.contains(a));
                    if !vis_before.contains(b) && b != id {
                        assert(todo_rest.contains(b as usize));
                        let w = choose|w: int| 0 <= w < todo_rest.len() && todo_rest[w] == b as usize;
                        assert(todo@[w] == todo_rest[w]);
                    }
                }
            }
            if !bset(visited@).contains(root as int) {
                assert(todo_rest.contains(root));
                let w = choose|w: int| 0 <= w < todo_rest.len() && todo_rest[w] == root;
                assert(todo@[w] == todo_rest[w]);
            }
        }
    }
    proof {
        assert forall|c: int| reachable(gv, root as int, c) implies #[trigger] bset(
            visited@,
        ).contains(c) by {
            let p = choose|p: Seq<int>| is_path(gv, p) && p[0] == root && p.last() == c;
            lemma_closed_path(gv, bset(visited@), p);
        }
        assert forall|c: int| 0 <= c < n implies (visited@[c] <==> reachable(gv, root as int, c)) by {
            if visited@[c] {
                assert(bset(visited@).contains(c));
            }
            if reachable(gv, root as int, c) {
                assert(bset(visited@).contains(c));
            }
        }
    }
    visited
}

/// Popping an already visited class keeps closure: whatever was pending
/// and is not visited is still pending.
proof fn lemma_still_closed(
    gv: Seq<Seq<SpecLang>>,
    vis: Set<int>,
    todo_before: Seq<usize>,
    todo_after: Seq<usize>,
    id: usize,
    root: usize,
)
    requires
        todo_before == todo_after.push(id),
        vis.contains(root as int) || todo_before.contains(root),
        forall|a: int, b: int|
            #![trigger edge(gv, a, b)]
            vis.contains(a) && edge(gv, a, b) ==> vis.contains(b) || todo_before.contains(
                b as usize,
            ),
    ensures
        forall|a: int, b: int|
            #![trigger edge(gv, a, b)]
            vis.insert(id as int).contains(a) && edge(gv, a, b) && a != id ==> vis.insert(
                id as int,
            ).contains(b) || todo_after.contains(b as usize),
        vis.insert(id as int).contains(root as int) || todo_after.contains(root),
{
    assert forall|a: int, b: int|
        #![trigger edge(gv, a, b)]
        vis.insert(id as int).contains(a) && edge(gv, a, b) && a != id implies vis.insert(
            id as int,
        ).contains(b) || todo_after.contains(b as usize) by {
        if !vis.contains(b) && b != id {
            let w = choose|w: int| 0 <= w < todo_before.len() && todo_before[w] == b as usize;
            if w < todo_after.len() {
                assert(todo_after[w] == todo_before[w]);
            }
        }
    }
    if !vis.contains(root as int) && root != id {
        let w = choose|w: int| 0 <= w < todo_before.len() && todo_before[w] == root;
        if w < todo_after.len() {
            assert(todo_after[w] == todo_before[w]);
        }
    }
}

/// Returns the classes that can occur in an extraction rooted at `root`,
/// following all e-node child links, in snapshot order.
pub fn collect_root_reachable_classes(g: &EGraphSnapshot, root: usize) -> (res: Vec<usize>)
    requires
        root < g@.len(),
    ensures
        res@ == reachable_list(g@, root as int, g@.len() as int),
{
    let n = g.class_count();
    let ghost gv = g@;
    let visited = mark_reachable(g, root);
    let mut res: Vec<usize> = Vec::new();
    let mut i: usize = 0;
    while i < n
        invariant
            gv == g@,
            n == gv.len(),
            visited@.len() == n,
            i <= n,
            forall|c: int| 0 <= c < n ==> (visited@[c] <==> reachable(gv, root as int, c)),
            res@ == reachable_list(gv, root as int, i as int),
        decreases n - i,
    {
        if visited[i] {
            res.push(i);
        }
        i = i + 1;
    }
    res
}

pub open spec fn set_range(n: int) -> Set<int> {
    Set::new(|i: int| 0 <= i < n)
}

proof fn lemma_int_range_finite(n: int)
    requires
        n >= 0,
    ensures
        set_range(n).finite(),
        set_range(n).len() == n,
{
    vstd::set_lib::lemma_int_range(0, n);
    assert(set_range(n) =~= vstd::set_lib::set_int_range(0, n));
}

// ---------------------------------------------------------------------
// Lower bounds on multiplication depth
// ---------------------------------------------------------------------
/// The known bound of the class at position `c`, through the compact index.
pub open spec fn lb_of(cidx: Seq<Option<usize>>, lower: Seq<Option<usize>>, c: usize) -> Option<
    nat,
> {
    if (c as int) < cidx.len() && cidx[c as int] is Some && (cidx[c as int].unwrap() as int)
        < lower.len() && lower[cidx[c as int].unwrap() as int] is Some {
        Some(lower[cidx[c as int].unwrap() as int].unwrap() as nat)
    } else {
        None
    }
}

/// The largest bound among the children, `None` if one is unknown.
pub open spec fn children_max(cs: Seq<usize>, cidx: Seq<Option<usize>>, lower: Seq<Option<usize>>) -> Option<
    nat,
>
    decreases cs.len(),
{
    if cs.len() == 0 {
        Some(0)
    } else {
        match (children_max(cs.drop_last(), cidx, lower), lb_of(cidx, lower, cs.last())) {
            (Some(a), Some(b)) => Some(vstd::math::max(a as int, b as int) as nat),
            _ => None,
        }
    }
}

/// The depth bound of one implementation: its deepest child, plus one for
/// a multiplication.
pub open spec fn candidate(n: SpecLang, cidx: Seq<Option<usize>>, lower: Seq<Option<usize>>) -> Option<
    nat,
> {
    match children_max(spec_children(n), cidx, lower) {
        Some(m) => Some(
            m + if n is Mul {
                1nat
            } else {
                0nat
            },
        ),
        None => None,
    }
}

/// Minimum of two bounds, `None` standing for "no finite bound".
pub open spec fn opt_min(a: Option<nat>, b: Option<nat>) -> Option<nat> {
    match (a, b) {
        (None, _) => b,
        (_, None) => a,
        (Some(x), Some(y)) => if y < x {
            Some(y)
        } else {
            Some(x)
        },
    }
}

/// `a` is at most `b`, `None` being the top.
pub open spec fn opt_le(a: Option<nat>, b: Option<nat>) -> bool {
    match (a, b) {
        (_, None) => true,
        (None, Some(_)) => false,
        (Some(x), Some(y)) => x <= y,
    }
}

pub open spec fn opt_nat(a: Option<usize>) -> Option<nat> {
    match a {
        Some(x) => Some(x as nat),
        None => None,
    }
}

/// The best bound among the implementations of a class.
pub open spec fn best_node(nodes: Seq<SpecLang>, cidx: Seq<Option<usize>>, lower: Seq<Option<usize>>) -> Option<
    nat,
>
    decreases nodes.len(),
{
    if nodes.len() == 0 {
        None
    } else {
        opt_min(best_node(nodes.drop_last(), cidx, lower), candidate(nodes.last(), cidx, lower))
    }
}

/// Every class's bound is the best bound of its implementations.
pub open spec fn is_fixed_point(
    g: Seq<Seq<SpecLang>>,
    class_ids: Seq<usize>,
    cidx: Seq<Option<usize>>,
    lower: Seq<Option<usize>>,
) -> bool {
    &&& lower.len() == class_ids.len()
    &&& forall|o: int|
        0 <= o < lower.len() ==> opt_nat(#[trigger] lower[o]) == best_node(
            g[class_ids[o] as int],
            cidx,
            lower,
        )
}

/// Pointwise `a <= b`.
pub open spec fn below(a: Seq<Option<usize>>, b: Seq<Option<usize>>) -> bool {
    a.len() == b.len() && forall|i: int| 0 <= i < a.len() ==> opt_le(opt_nat(#[trigger] a[i]), opt_nat(b[i]))
}

/// The positions and compact indices agree: `cidx[class_ids[o]] == o`, and
/// every compact index names a listed class.
pub open spec fn index_consistent(
    g: Seq<Seq<SpecLang>>,
    class_ids: Seq<usize>,
    cidx: Seq<Option<usize>>,
) -> bool {
    &&& cidx.len() == g.len()
    &&& forall|o: int| 0 <= o < class_ids.len() ==> (#[trigger] class_ids[o] as int) < g.len()
    &&& forall|c: int|
        0 <= c < cidx.len() && #[trigger] cidx[c] is Some ==> (cidx[c].unwrap() as int)
            < class_ids.len()
}

proof fn lemma_children_max_mono(
    cs: Seq<usize>,
    cidx: Seq<Option<usize>>,
    l1: Seq<Option<usize>>,
    l2: Seq<Option<usize>>,
)
    requires
        below(l1, l2),
    ensures
        opt_le(children_max(cs, cidx, l1), children_max(cs, cidx, l2)),
    decreases cs.len(),
{
    if cs.len() > 0 {
        lemma_children_max_mono(cs.drop_last(), cidx, l1, l2);
        let c = cs.last();
        if (c as int) < cidx.len() && cidx[c as int] is Some && (cidx[c as int].unwrap() as int)
            < l1.len() {
            let i = cidx[c as int].unwrap() as int;
            assert(opt_le(opt_nat(l1[i]), opt_nat(l2[i])));
        }
    }
}

proof fn lemma_best_mono(
    nodes: Seq<SpecLang>,
    cidx: Seq<Option<usize>>,
    l1: Seq<Option<usize>>,
    l2: Seq<Option<usize>>,
)
    requires
        below(l1, l2),
    ensures
        opt_le(best_node(nodes, cidx, l1), best_node(nodes, cidx, l2)),
    decreases nodes.len(),
{
    if nodes.len() > 0 {
        lemma_best_mono(nodes.drop_last(), cidx, l1, l2);
        lemma_children_max_mono(spec_children(nodes.last()), cidx, l1, l2);
    }
}

/// Number of known bounds.
pub open spec fn count_some(l: Seq<Option<usize>>) -> nat
    decreases l.len(),
{
    if l.len() == 0 {
        0
    } else {
        count_some(l.drop_last()) + if l.last() is Some {
            1nat
        } else {
            0nat
        }
    }
}

/// Termination measure: a known bound counts its value, an unknown one
/// `top`.
pub open spec fn potential(l: Seq<Option<usize>>, top: nat) -> nat
    decreases l.len(),
{
    if l.len() == 0 {
        0
    } else {
        potential(l.drop_last(), top) + match l.last() {
            Some(v) => v as nat,
            None => top,
        }
    }
}

proof fn lemma_update_measures(l: Seq<Option<usize>>, i: int, x: Option<usize>, top: nat)
    requires
        0 <= i < l.len(),
    ensures
        potential(l.update(i, x), top) + match l[i] {
            Some(v) => v as nat,
            None => top,
        } == potential(l, top) + match x {
            Some(v) => v as nat,
            None => top,
        },
        count_some(l.update(i, x)) + (if l[i] is Some {
            1nat
        } else {
            0nat
        }) == count_some(l) + (if x is Some {
            1nat
        } else {
            0nat
        }),
    decreases l.len(),
{
    let u = l.update(i, x);
    if i == l.len() - 1 {
        assert(u.drop_last() =~= l.drop_last());
    } else {
        lemma_update_measures(l.drop_last(), i, x, top);
        assert(u.drop_last() =~= l.drop_last().update(i, x));
    }
}

proof fn lemma_count_bound(l: Seq<Option<usize>>)
    ensures
        count_some(l) <= l.len(),
    decreases l.len(),
{
    if l.len() > 0 {
        lemma_count_bound(l.drop_last());
    }
}

/// Children bounds are below the number of known bounds.
pub open spec fn values_small(l: Seq<Option<usize>>) -> bool {
    forall|i: int| 0 <= i < l.len() && #[trigger] l[i] is Some ==> (l[i].unwrap() as nat) < count_some(l)
}

proof fn lemma_children_max_small(cs: Seq<usize>, cidx: Seq<Option<usize>>, l: Seq<Option<usize>>)
    requires
        values_small(l),
    ensures
        children_max(cs, cidx, l) matches Some(m) ==> (m < count_some(l) || (cs.len() == 0 && m
            == 0)),
        children_max(cs, cidx, l) matches Some(m) ==> cs.len() > 0 ==> count_some(l) > 0,
    decreases cs.len(),
{
    if cs.len() > 0 {
        lemma_children_max_small(cs.drop_last(), cidx, l);
    }
}

/// The least depth bound each listed class can reach through
/// implementations whose children all have bounds: the greatest fixed
/// point of `best_node` below "no bound", computed by iterating until no
/// bound changes.
///
/// `None` means that no finite acyclic derivation from leaves exists.
#[verifier::rlimit(40)]
pub(crate) fn compute_min_depth_lower_bounds(
    g: &EGraphSnapshot,
    class_ids: &[usize],
    class_index: &[Option<usize>],
) -> (lower: Vec<Option<usize>>)
    requires
        index_consistent(g@, class_ids@, class_index@),
    ensures
        is_fixed_point(g@, class_ids@, class_index@, lower@),
        forall|l2: Seq<Option<usize>>|
            #[trigger] is_fixed_point(g@, class_ids@, class_index@, l2) ==> below(l2, lower@),
        forall|i: int|
            0 <= i < lower@.len() && #[trigger] lower@[i] is Some ==> (lower@[i].unwrap() as int)
                < lower@.len(),
        exists|h: nat| #[trigger] attained(g@, class_ids@, class_index@, lower@, h),
{
    let ghost gv = g@;
    let ghost ids = class_ids@;
    let ghost cidx = class_index@;
    let n = class_ids.len();
    let ghost top = (n + 1) as nat;
    let mut lower: Vec<Option<usize>> = Vec::new();
    while lower.len() < n
        invariant
            lower@.len() <= n,
            forall|i: int| 0 <= i < lower@.len() ==> #[trigger] lower@[i] is None,
        decreases n - lower@.len(),
    {
        lower.push(None);
    }
    proof {
        lemma_all_none(lower@);
    }
    let ghost mut h: nat = 0;
    assert(attained(gv, ids, cidx, lower@, h));
    let mut changed = true;
    while changed
        invariant
            gv == g@,
            ids == class_ids@,
            cidx == class_index@,
            n == ids.len(),
            top == n + 1,
            index_consistent(gv, ids, cidx),
            lower@.len() == n,
            values_small(lower@),
            attained(gv, ids, cidx, lower@, h),
            forall|l2: Seq<Option<usize>>|
                #[trigger] is_fixed_point(gv, ids, cidx, l2) ==> below(l2, lower@),
            forall|o: int|
                0 <= o < n && #[trigger] lower@[o] is Some ==> opt_le(
                    best_node(gv[ids[o] as int], cidx, lower@),
                    opt_nat(lower@[o]),
                ),
            !changed ==> forall|o: int|
                0 <= o < n ==> opt_le(
                    opt_nat(#[trigger] lower@[o]),
                    best_node(gv[ids[o] as int], cidx, lower@),
                ),
        decreases potential(lower@, top) + if changed {
            1nat
        } else {
            0nat
        },
    {
        changed = false;
        let ghost start_potential = potential(lower@, top);
        let mut owner: usize = 0;
        while owner < n
            invariant
                gv == g@,
                ids == class_ids@,
                cidx == class_index@,
                n == ids.len(),
                top == n + 1,
                index_consistent(gv, ids, cidx),
                lower@.len() == n,
                owner <= n,
                values_small(lower@),
                attained(gv, ids, cidx, lower@, h),
                forall|l2: Seq<Option<usize>>|
                    #[trigger] is_fixed_point(gv, ids, cidx, l2) ==> below(l2, lower@),
                forall|o: int|
                    0 <= o < n && #[trigger] lower@[o] is Some ==> opt_le(
                        best_node(gv[ids[o] as int], cidx, lower@),
                        opt_nat(lower@[o]),
                    ),
                !changed ==> potential(lower@, top) == start_potential,
                changed ==> potential(lower@, top) < start_potential,
                !changed ==> forall|o: int|
                    0 <= o < owner ==> opt_le(
                        opt_nat(#[trigger] lower@[o]),
                        best_node(gv[ids[o] as int], cidx, lower@),
                    ),
            decreases n - owner,
        {
            let best = class_best(g, class_ids[owner], class_index, &lower, lower[owner]);
            let ghost old_lower = lower@;
            let ghost b = best_node(gv[ids[owner as int] as int], cidx, old_lower);
            proof {
                assert(opt_nat(best) == opt_min(opt_nat(old_lower[owner as int]), b));
            }
            if best != lower[owner] {
                lower.set(owner, best);
                changed = true;
                proof {
                    lemma_update_step(gv, ids, cidx, old_lower, owner as int, best, top);
                    lemma_attained_step(gv, ids, cidx, old_lower, h, owner as int, best);
                    h = h + 1;
                }
            } else {
                proof {
                    assert(opt_le(opt_nat(lower@[owner as int]), b));
                }
            }
            owner = owner + 1;
        }
    }
    proof {
        assert forall|o: int| 0 <= o < n implies opt_nat(#[trigger] lower@[o]) == best_node(
            gv[ids[o] as int],
            cidx,
            lower@,
        ) by {
            let b = best_node(gv[ids[o] as int], cidx, lower@);
            assert(opt_le(opt_nat(lower@[o]), b));
            if lower@[o] is Some {
                assert(opt_le(b, opt_nat(lower@[o])));
            }
        }
        lemma_count_bound(lower@);
        assert(attained(g@, class_ids@, class_index@, lower@, h));
    }
    lower
}

proof fn lemma_all_none(l: Seq<Option<usize>>)
    requires
        forall|i: int| 0 <= i < l.len() ==> #[trigger] l[i] is None,
    ensures
        count_some(l) == 0,
        values_small(l),
        forall|l2: Seq<Option<usize>>| l2.len() == l.len() ==> #[trigger] below(l2, l),
    decreases l.len(),
{
    if l.len() > 0 {
        lemma_all_none(l.drop_last());
    }
    assert forall|l2: Seq<Option<usize>>| l2.len() == l.len() implies #[trigger] below(l2, l) by {
        assert forall|i: int| 0 <= i < l2.len() implies opt_le(
            opt_nat(#[trigger] l2[i]),
            opt_nat(l[i]),
        ) by {
            assert(l[i] is None);
        }
    }
}

/// One update at `owner` to `min(lower[owner], best)` keeps the loop facts.
proof fn lemma_update_step(
    gv: Seq<Seq<SpecLang>>,
    ids: Seq<usize>,
    cidx: Seq<Option<usize>>,
    l: Seq<Option<usize>>,
    owner: int,
    new_val: Option<usize>,
    top: nat,
)
    requires
        index_consistent(gv, ids, cidx),
        l.len() == ids.len(),
        top == ids.len() + 1,
        0 <= owner < l.len(),
        new_val != l[owner],
        opt_nat(new_val) == opt_min(
            opt_nat(l[owner]),
            best_node(gv[ids[owner] as int], cidx, l),
        ),
        values_small(l),
        forall|l2: Seq<Option<usize>>|
            #[trigger] is_fixed_point(gv, ids, cidx, l2) ==> below(l2, l),
        forall|o: int|
            0 <= o < l.len() && #[trigger] l[o] is Some ==> opt_le(
                best_node(gv[ids[o] as int], cidx, l),
                opt_nat(l[o]),
            ),
    ensures
        values_small(l.update(owner, new_val)),
        forall|l2: Seq<Option<usize>>|
            #[trigger] is_fixed_point(gv, ids, cidx, l2) ==> below(l2, l.update(owner, new_val)),
        forall|o: int|
            0 <= o < l.len() && #[trigger] l.update(owner, new_val)[o] is Some ==> opt_le(
                best_node(gv[ids[o] as int], cidx, l.update(owner, new_val)),
                opt_nat(l.update(owner, new_val)[o]),
            ),
        potential(l.update(owner, new_val), top) < potential(l, top),
{
    let u = l.update(owner, new_val);
    let b = best_node(gv[ids[owner] as int], cidx, l);
    // The new value is the best bound, strictly below the old one.
    assert(new_val is Some);
    assert(opt_nat(new_val) == b);
    lemma_update_measures(l, owner, new_val, top);
    lemma_count_bound(l);
    // The lowered sequence is below the old one.
    assert(below(u, l)) by {
        assert forall|i: int| 0 <= i < u.len() implies opt_le(opt_nat(#[trigger] u[i]), opt_nat(l[i])) by {
            if i == owner {
            }
        }
    }
    // The new value is small: its children bounds are.
    lemma_candidate_small(gv[ids[owner] as int], cidx, l);
    assert(values_small(u)) by {
        assert forall|i: int| 0 <= i < u.len() && #[trigger] u[i] is Some implies (u[i].unwrap() as nat)
            < count_some(u) by {
            if i != owner {
                assert(u[i] == l[i]);
            }
        }
    }
    // Every fixed point stays below.
    assert forall|l2: Seq<Option<usize>>| #[trigger] is_fixed_point(gv, ids, cidx, l2) implies below(
        l2,
        u,
    ) by {
        assert(below(l2, l));
        lemma_best_mono(gv[ids[owner] as int], cidx, l2, l);
        assert forall|i: int| 0 <= i < l2.len() implies opt_le(opt_nat(#[trigger] l2[i]), opt_nat(u[i])) by {
            if i == owner {
                assert(opt_nat(l2[i]) == best_node(gv[ids[i] as int], cidx, l2));
            } else {
                assert(u[i] == l[i]);
            }
        }
    }
    // Known bounds stay achievable: bounds only went down.
    assert forall|o: int| 0 <= o < l.len() && #[trigger] u[o] is Some implies opt_le(
        best_node(gv[ids[o] as int], cidx, u),
        opt_nat(u[o]),
    ) by {
        lemma_best_mono(gv[ids[o] as int], cidx, u, l);
        if o != owner {
            assert(u[o] == l[o]);
        }
    }
    // The potential drops.
    if l[owner] is Some {
        assert(new_val.unwrap() < l[owner].unwrap());
    } else {
        assert((new_val.unwrap() as nat) < count_some(u));
        lemma_count_bound(u);
    }
}

proof fn lemma_candidate_small(nodes: Seq<SpecLang>, cidx: Seq<Option<usize>>, l: Seq<Option<usize>>)
    requires
        values_small(l),
    ensures
        best_node(nodes, cidx, l) matches Some(v) ==> v <= count_some(l),
    decreases nodes.len(),
{
    if nodes.len() > 0 {
        lemma_candidate_small(nodes.drop_last(), cidx, l);
        let n = nodes.last();
        lemma_children_max_small(spec_children(n), cidx, l);
        if n is Mul {
            assert(spec_children(n).len() == 2);
        }
    }
}

/// `min(init, best bound of the implementations)` for class position `c`.
fn class_best(
    g: &EGraphSnapshot,
    c: usize,
    class_index: &[Option<usize>],
    lower: &Vec<Option<usize>>,
    init: Option<usize>,
) -> (res: Option<usize>)
    requires
        c < g@.len(),
        class_index@.len() == g@.len(),
        forall|i: int|
            0 <= i < class_index@.len() && #[trigger] class_index@[i] is Some ==> (
            class_index@[i].unwrap() as int) < lower@.len(),
        values_small(lower@),
        init is Some ==> (init.unwrap() as nat) < count_some(lower@) || lower@.len() == 0,
        lower@.len() <= usize::MAX,
    ensures
        opt_nat(res) == opt_min(opt_nat(init), best_node(g@[c as int], class_index@, lower@)),
{
    let nodes = g.class_nodes(c);
    let ghost gv = g@;
    let ghost nv = gv[c as int];
    let ghost cidx = class_index@;
    proof {
        lemma_count_bound(lower@);
        lemma_candidate_small(nv, cidx, lower@);
    }
    let mut best = init;
    let mut k: usize = 0;
    while k < nodes.len()
        invariant
            nv == gv[c as int],
            nodes@.map_values(|x: FheLang| x@) == nv,
            cidx == class_index@,
            k <= nodes@.len(),
            opt_nat(best) == opt_min(opt_nat(init), best_node(nv.subrange(0, k as int), cidx, lower@)),
            values_small(lower@),
            count_some(lower@) <= lower@.len(),
            lower@.len() <= usize::MAX,
            forall|i: int|
                0 <= i < class_index@.len() && #[trigger] class_index@[i] is Some ==> (
                class_index@[i].unwrap() as int) < lower@.len(),
        decreases nodes@.len() - k,
    {
        let node = &nodes[k];
        assert(nv[k as int] == node@);
        let ch = node.children();
        let mut all_known = true;
        let mut max_child: usize = 0;
        let mut j: usize = 0;
        assert(ch@.subrange(0, ch@.len() as int) =~= ch@);
        while j < ch.len()
            invariant
                ch@ == spec_children(node@),
                ch@.subrange(0, ch@.len() as int) == ch@,
                cidx == class_index@,
                j <= ch@.len(),
                values_small(lower@),
                count_some(lower@) <= lower@.len(),
                lower@.len() <= usize::MAX,
                forall|i: int|
                    0 <= i < class_index@.len() && #[trigger] class_index@[i] is Some ==> (
                    class_index@[i].unwrap() as int) < lower@.len(),
                all_known ==> children_max(ch@.subrange(0, j as int), cidx, lower@) == Some(
                    max_child as nat,
                ),
                !all_known ==> children_max(ch@, cidx, lower@) is None,
                max_child < lower@.len() || (j == 0 && max_child == 0),
            ensures
                all_known ==> children_max(ch@, cidx, lower@) == Some(max_child as nat),
                !all_known ==> children_max(ch@, cidx, lower@) is None,
                max_child < lower@.len() || max_child == 0,
            decreases ch@.len() - j,
        {
            let child = ch[j];
            let known = if child < class_index.len() {
                match class_index[child] {
                    Some(ci) => lower[ci],
                    None => None,
                }
            } else {
                None
            };
            let ghost sub = ch@.subrange(0, j + 1);
            assert(sub.drop_last() =~= ch@.subrange(0, j as int));
            assert(sub.last() == child);
            assert(opt_nat(known) == lb_of(cidx, lower@, child));
            match known {
                Some(v) => {
                    if v > max_child {
                        max_child = v;
                    }
                },
                None => {
                    proof {
                        lemma_children_max_none(ch@, cidx, lower@, j as int);
                    }
                    all_known = false;
                    break ;
                },
            }
            j = j + 1;
        }
        let ghost sub = nv.subrange(0, k + 1);
        assert(sub.drop_last() =~= nv.subrange(0, k as int));
        assert(sub.last() == node@);
        let ghost prev_best = best;
        let ghost cand = candidate(node@, cidx, lower@);
        proof {
            lemma_opt_min_assoc(
                opt_nat(init),
                best_node(nv.subrange(0, k as int), cidx, lower@),
                cand,
            );
            assert(best_node(sub, cidx, lower@) == opt_min(
                best_node(nv.subrange(0, k as int), cidx, lower@),
                cand,
            ));
        }
        if all_known {
            let is_mul = match node {
                FheLang::Mul(..) => true,
                _ => false,
            };
            let candidate: usize = if is_mul {
                max_child + 1
            } else {
                max_child
            };
            let better = match best {
                None => true,
                Some(current) => candidate < current,
            };
            if better {
                best = Some(candidate);
            }
            assert(cand == Some(candidate as nat));
        } else {
            assert(cand is None);
        }
        assert(opt_nat(best) == opt_min(opt_nat(prev_best), cand));
        k = k + 1;
    }
    assert(nv.subrange(0, k as int) =~= nv);
    best
}

proof fn lemma_opt_min_assoc(a: Option<nat>, b: Option<nat>, c: Option<nat>)
    ensures
        opt_min(opt_min(a, b), c) == opt_min(a, opt_min(b, c)),
{
}

proof fn lemma_children_max_none(
    cs: Seq<usize>,
    cidx: Seq<Option<usize>>,
    l: Seq<Option<usize>>,
    j: int,
)
    requires
        0 <= j < cs.len(),
        lb_of(cidx, l, cs[j]) is None,
    ensures
        children_max(cs, cidx, l) is None,
    decreases cs.len(),
{
    if j < cs.len() - 1 {
        lemma_children_max_none(cs.drop_last(), cidx, l, j);
    }
}

// ---------------------------------------------------------------------
// Compact indices of the modelled classes
// ---------------------------------------------------------------------
/// `class_index[class_ids[o]] == o`, and no other position has an index.
pub open spec fn index_exact(n: nat, class_ids: Seq<usize>, cidx: Seq<Option<usize>>) -> bool {
    &&& cidx.len() == n
    &&& forall|o: int| 0 <= o < class_ids.len() ==> (#[trigger] class_ids[o] as int) < n && cidx[class_ids[o] as int] == Some(o as usize)
    &&& forall|c: int|
        0 <= c < n && #[trigger] cidx[c] is Some ==> (cidx[c].unwrap() as int) < class_ids.len()
            && class_ids[cidx[c].unwrap() as int] == c
}

/// The modelled classes hold every child of their e-nodes.
pub open spec fn children_modelled(g: Seq<Seq<SpecLang>>, class_ids: Seq<usize>, cidx: Seq<Option<usize>>) -> bool {
    forall|o: int, k: int, j: int|
        0 <= o < class_ids.len() && 0 <= k < g[class_ids[o] as int].len() && 0 <= j
            < spec_children(g[class_ids[o] as int][k]).len() ==> (#[trigger] spec_children(
            #[trigger] g[class_ids[o] as int][k],
        )[j] as int) < cidx.len() && cidx[spec_children(g[class_ids[o] as int][k])[j] as int] is Some
}

pub(crate) fn build_class_index(n: usize, class_ids: &[usize]) -> (res: Vec<Option<usize>>)
    requires
        forall|o: int| 0 <= o < class_ids@.len() ==> (#[trigger] class_ids@[o] as int) < n,
        forall|a: int, b: int| 0 <= a < b < class_ids@.len() ==> class_ids@[a] < class_ids@[b],
    ensures
        index_exact(n as nat, class_ids@, res@),
{
    let mut res: Vec<Option<usize>> = Vec::new();
    while res.len() < n
        invariant
            res@.len() <= n,
            forall|i: int| 0 <= i < res@.len() ==> #[trigger] res@[i] is None,
        decreases n - res@.len(),
    {
        res.push(None);
    }
    let mut o: usize = 0;
    while o < class_ids.len()
        invariant
            res@.len() == n,
            o <= class_ids@.len(),
            forall|x: int| 0 <= x < class_ids@.len() ==> (#[trigger] class_ids@[x] as int) < n,
            forall|a: int, b: int| 0 <= a < b < class_ids@.len() ==> class_ids@[a] < class_ids@[b],
            forall|x: int| 0 <= x < o ==> res@[#[trigger] class_ids@[x] as int] == Some(x as usize),
            forall|c: int|
                0 <= c < n && #[trigger] res@[c] is Some ==> (res@[c].unwrap() as int) < o
                    && class_ids@[res@[c].unwrap() as int] == c,
        decreases class_ids@.len() - o,
    {
        let c = class_ids[o];
        res.set(c, Some(o));
        proof {
            assert forall|x: int| 0 <= x < o + 1 implies res@[#[trigger] class_ids@[x] as int] == Some(x as usize) by {
                if x < o {
                    assert(class_ids@[x] < class_ids@[o as int]);
                }
            }
        }
        o = o + 1;
    }
    res
}

pub(crate) proof fn lemma_reachable_list(g: Seq<Seq<SpecLang>>, root: int, m: int)
    requires
        0 <= m <= usize::MAX,
    ensures
        forall|i: int| 0 <= i < reachable_list(g, root, m).len() ==> (#[trigger] reachable_list(g, root, m)[i] as int) < m && reachable(g, root, reachable_list(g, root, m)[i] as int),
        forall|a: int, b: int|
            0 <= a < b < reachable_list(g, root, m).len() ==> reachable_list(g, root, m)[a]
                < reachable_list(g, root, m)[b],
        forall|c: int| 0 <= c < m && reachable(g, root, c) ==> reachable_list(g, root, m).contains(c as usize),
        reachable_list(g, root, m).len() <= m,
    decreases m,
{
    if m > 0 {
        lemma_reachable_list(g, root, m - 1);
        let prev = reachable_list(g, root, m - 1);
        let cur = reachable_list(g, root, m);
        if reachable(g, root, m - 1) {
            assert(cur == prev.push((m - 1) as usize));
            assert(cur[prev.len() as int] == (m - 1) as usize);
            assert forall|i: int| 0 <= i < prev.len() implies #[trigger] cur[i] == prev[i] by {}
        } else {
            assert(cur == prev);
        }
        assert forall|c: int| 0 <= c < m && reachable(g, root, c) implies cur.contains(c as usize) by {
            if c < m - 1 {
                let w = choose|w: int| 0 <= w < prev.len() && prev[w] == c as usize;
                assert(cur[w] == prev[w]);
            } else {
                assert(cur[cur.len() - 1] == (m - 1) as usize);
            }
        }
    }
}

pub(crate) proof fn lemma_children_modelled(
    g: Seq<Seq<SpecLang>>,
    root: int,
    class_ids: Seq<usize>,
    cidx: Seq<Option<usize>>,
)
    requires
        snapshot_wf(g),
        g.len() <= usize::MAX,
        class_ids == reachable_list(g, root, g.len() as int),
        index_exact(g.len(), class_ids, cidx),
    ensures
        children_modelled(g, class_ids, cidx),
{
    lemma_reachable_list(g, root, g.len() as int);
    assert forall|o: int, k: int, j: int|
        0 <= o < class_ids.len() && 0 <= k < g[class_ids[o] as int].len() && 0 <= j
            < spec_children(g[class_ids[o] as int][k]).len() implies (#[trigger] spec_children(
        #[trigger] g[class_ids[o] as int][k],
    )[j] as int) < cidx.len() && cidx[spec_children(g[class_ids[o] as int][k])[j] as int] is Some by {
        let a = class_ids[o] as int;
        let b = spec_children(g[a][k])[j] as int;
        assert(edge(g, a, b));
        let p = choose|p: Seq<int>| is_path(g, p) && p[0] == root && p.last() == a;
        lemma_path_extend(g, p, b);
        assert(reachable(g, root, b));
        let w = choose|w: int| 0 <= w < class_ids.len() && class_ids[w] == b as usize;
        assert(cidx[class_ids[w] as int] == Some(w as usize));
    }
}

// ---------------------------------------------------------------------
// The bounds are safe
// ---------------------------------------------------------------------
/// The depth of the deepest child, through the compact index, in a vector
/// of depths; `None` if a child has none.
pub open spec fn children_depth(cs: Seq<usize>, cidx: Seq<Option<usize>>, v: Seq<Option<nat>>) -> Option<
    nat,
>
    decreases cs.len(),
{
    if cs.len() == 0 {
        Some(0)
    } else {
        let c = cs.last();
        let d = if (c as int) < cidx.len() && cidx[c as int] is Some && (cidx[c as int].unwrap() as int)
            < v.len() {
            v[cidx[c as int].unwrap() as int]
        } else {
            None
        };
        match (children_depth(cs.drop_last(), cidx, v), d) {
            (Some(a), Some(b)) => Some(vstd::math::max(a as int, b as int) as nat),
            _ => None,
        }
    }
}

/// The least depth of an e-node among `nodes` given the depths of the
/// classes: its deepest child, plus one for a multiplication.
pub open spec fn nodes_depth(nodes: Seq<SpecLang>, cidx: Seq<Option<usize>>, v: Seq<Option<nat>>) -> Option<
    nat,
>
    decreases nodes.len(),
{
    if nodes.len() == 0 {
        None
    } else {
        let n = nodes.last();
        let here = match children_depth(spec_children(n), cidx, v) {
            Some(m) => Some(
                m + if n is Mul {
                    1nat
                } else {
                    0nat
                },
            ),
            None => None,
        };
        opt_min(nodes_depth(nodes.drop_last(), cidx, v), here)
    }
}

/// `derivation_depth(g, ids, cidx, h)[o]` is the least multiplication depth
/// of a derivation of class `ids[o]` of height at most `h`: a tree that
/// picks an e-node of the class and a derivation of each of its children,
/// down to leaves. `None` when the class has no such derivation.
pub open spec fn derivation_depth(
    g: Seq<Seq<SpecLang>>,
    ids: Seq<usize>,
    cidx: Seq<Option<usize>>,
    h: nat,
) -> Seq<Option<nat>>
    decreases h,
{
    if h == 0 {
        Seq::new(ids.len(), |o: int| None)
    } else {
        let v = derivation_depth(g, ids, cidx, (h - 1) as nat);
        Seq::new(ids.len(), |o: int| nodes_depth(g[ids[o] as int], cidx, v))
    }
}

pub open spec fn below_depths(l: Seq<Option<usize>>, v: Seq<Option<nat>>) -> bool {
    l.len() == v.len() && forall|i: int| 0 <= i < l.len() ==> opt_le(opt_nat(#[trigger] l[i]), v[i])
}

proof fn lemma_children_depth(cs: Seq<usize>, cidx: Seq<Option<usize>>, l: Seq<Option<usize>>, v: Seq<Option<nat>>)
    requires
        below_depths(l, v),
    ensures
        opt_le(children_max(cs, cidx, l), children_depth(cs, cidx, v)),
    decreases cs.len(),
{
    if cs.len() > 0 {
        lemma_children_depth(cs.drop_last(), cidx, l, v);
        let c = cs.last();
        if (c as int) < cidx.len() && cidx[c as int] is Some && (cidx[c as int].unwrap() as int) < l.len() {
            let i = cidx[c as int].unwrap() as int;
            assert(opt_le(opt_nat(l[i]), v[i]));
        }
    }
}

proof fn lemma_nodes_depth(nodes: Seq<SpecLang>, cidx: Seq<Option<usize>>, l: Seq<Option<usize>>, v: Seq<Option<nat>>)
    requires
        below_depths(l, v),
    ensures
        opt_le(best_node(nodes, cidx, l), nodes_depth(nodes, cidx, v)),
    decreases nodes.len(),
{
    if nodes.len() > 0 {
        lemma_nodes_depth(nodes.drop_last(), cidx, l, v);
        lemma_children_depth(spec_children(nodes.last()), cidx, l, v);
    }
}

/// Pruning by the bounds is safe: the bound of every class is at most the
/// multiplication depth of any derivation of it, so no e-node that could
/// occur in an extraction within a depth limit is pruned. This holds of
/// every fixed point of the bound equations, the computed one included.
pub proof fn lemma_bounds_below_derivations(
    g: Seq<Seq<SpecLang>>,
    ids: Seq<usize>,
    cidx: Seq<Option<usize>>,
    lower: Seq<Option<usize>>,
    h: nat,
)
    requires
        is_fixed_point(g, ids, cidx, lower),
    ensures
        below_depths(lower, derivation_depth(g, ids, cidx, h)),
    decreases h,
{
    let v = derivation_depth(g, ids, cidx, h);
    if h > 0 {
        let w = derivation_depth(g, ids, cidx, (h - 1) as nat);
        lemma_bounds_below_derivations(g, ids, cidx, lower, (h - 1) as nat);
        assert forall|o: int| 0 <= o < lower.len() implies opt_le(opt_nat(#[trigger] lower[o]), v[o]) by {
            lemma_nodes_depth(g[ids[o] as int], cidx, lower, w);
        }
    }
}

/// Pointwise `v <= w` for depth vectors, `None` being the top.
pub open spec fn depths_below(v: Seq<Option<nat>>, w: Seq<Option<nat>>) -> bool {
    v.len() == w.len() && forall|i: int| 0 <= i < v.len() ==> opt_le(#[trigger] v[i], w[i])
}

proof fn lemma_children_depth_mono(cs: Seq<usize>, cidx: Seq<Option<usize>>, v: Seq<Option<nat>>, w: Seq<Option<nat>>)
    requires
        depths_below(v, w),
    ensures
        opt_le(children_depth(cs, cidx, v), children_depth(cs, cidx, w)),
    decreases cs.len(),
{
    if cs.len() > 0 {
        lemma_children_depth_mono(cs.drop_last(), cidx, v, w);
        let c = cs.last();
        if (c as int) < cidx.len() && cidx[c as int] is Some && (cidx[c as int].unwrap() as int) < v.len() {
            let i = cidx[c as int].unwrap() as int;
            assert(opt_le(v[i], w[i]));
        }
    }
}

proof fn lemma_nodes_depth_mono(nodes: Seq<SpecLang>, cidx: Seq<Option<usize>>, v: Seq<Option<nat>>, w: Seq<Option<nat>>)
    requires
        depths_below(v, w),
    ensures
        opt_le(nodes_depth(nodes, cidx, v), nodes_depth(nodes, cidx, w)),
    decreases nodes.len(),
{
    if nodes.len() > 0 {
        lemma_nodes_depth_mono(nodes.drop_last(), cidx, v, w);
        lemma_children_depth_mono(spec_children(nodes.last()), cidx, v, w);
    }
}

/// Depths at a greater height are no larger.
proof fn lemma_derivation_depth_step(
    g: Seq<Seq<SpecLang>>,
    ids: Seq<usize>,
    cidx: Seq<Option<usize>>,
    h: nat,
)
    ensures
        depths_below(derivation_depth(g, ids, cidx, h + 1), derivation_depth(g, ids, cidx, h)),
    decreases h,
{
    let v = derivation_depth(g, ids, cidx, h + 1);
    let w = derivation_depth(g, ids, cidx, h);
    if h > 0 {
        lemma_derivation_depth_step(g, ids, cidx, (h - 1) as nat);
        assert forall|o: int| 0 <= o < v.len() implies opt_le(#[trigger] v[o], w[o]) by {
            lemma_nodes_depth_mono(
                g[ids[o] as int],
                cidx,
                derivation_depth(g, ids, cidx, h),
                derivation_depth(g, ids, cidx, (h - 1) as nat),
            );
        }
    }
}

/// A depth vector below the bounds gives node depths below the bounds'.
proof fn lemma_children_depth_below(cs: Seq<usize>, cidx: Seq<Option<usize>>, v: Seq<Option<nat>>, l: Seq<Option<usize>>)
    requires
        v.len() == l.len(),
        forall|i: int| 0 <= i < v.len() ==> opt_le(#[trigger] v[i], opt_nat(l[i])),
    ensures
        opt_le(children_depth(cs, cidx, v), children_max(cs, cidx, l)),
    decreases cs.len(),
{
    if cs.len() > 0 {
        lemma_children_depth_below(cs.drop_last(), cidx, v, l);
        let c = cs.last();
        if (c as int) < cidx.len() && cidx[c as int] is Some && (cidx[c as int].unwrap() as int) < v.len() {
            let i = cidx[c as int].unwrap() as int;
            assert(opt_le(v[i], opt_nat(l[i])));
        }
    }
}

proof fn lemma_nodes_depth_below(nodes: Seq<SpecLang>, cidx: Seq<Option<usize>>, v: Seq<Option<nat>>, l: Seq<Option<usize>>)
    requires
        v.len() == l.len(),
        forall|i: int| 0 <= i < v.len() ==> opt_le(#[trigger] v[i], opt_nat(l[i])),
    ensures
        opt_le(nodes_depth(nodes, cidx, v), best_node(nodes, cidx, l)),
    decreases nodes.len(),
{
    if nodes.len() > 0 {
        lemma_nodes_depth_below(nodes.drop_last(), cidx, v, l);
        lemma_children_depth_below(spec_children(nodes.last()), cidx, v, l);
    }
}

/// Every known bound is the depth of some derivation of height at most
/// `h`.
pub open spec fn attained(
    g: Seq<Seq<SpecLang>>,
    ids: Seq<usize>,
    cidx: Seq<Option<usize>>,
    l: Seq<Option<usize>>,
    h: nat,
) -> bool {
    &&& l.len() == ids.len()
    &&& forall|o: int| 0 <= o < l.len() ==> opt_le(#[trigger] derivation_depth(g, ids, cidx, h)[o], opt_nat(l[o]))
}

/// Lowering the bound of `owner` to the best bound of its implementations
/// keeps every bound attained, one level higher.
proof fn lemma_attained_step(
    g: Seq<Seq<SpecLang>>,
    ids: Seq<usize>,
    cidx: Seq<Option<usize>>,
    l: Seq<Option<usize>>,
    h: nat,
    owner: int,
    new_val: Option<usize>,
)
    requires
        attained(g, ids, cidx, l, h),
        0 <= owner < l.len(),
        opt_nat(new_val) == opt_min(opt_nat(l[owner]), best_node(g[ids[owner] as int], cidx, l)),
    ensures
        attained(g, ids, cidx, l.update(owner, new_val), h + 1),
{
    let u = l.update(owner, new_val);
    let v = derivation_depth(g, ids, cidx, h);
    let w = derivation_depth(g, ids, cidx, h + 1);
    lemma_derivation_depth_step(g, ids, cidx, h);
    assert forall|o: int| 0 <= o < u.len() implies opt_le(#[trigger] w[o], opt_nat(u[o])) by {
        assert(opt_le(w[o], v[o]));
        assert(opt_le(v[o], opt_nat(l[o])));
        if o == owner {
            lemma_nodes_depth_below(g[ids[o] as int], cidx, v, l);
            assert(w[o] == nodes_depth(g[ids[o] as int], cidx, v));
        }
    }
}

/// The bounds are the depths of derivations of height at most `h`.
pub open spec fn bounds_are_depths(
    g: Seq<Seq<SpecLang>>,
    ids: Seq<usize>,
    cidx: Seq<Option<usize>>,
    lower: Seq<Option<usize>>,
    h: nat,
) -> bool {
    forall|o: int|
        0 <= o < lower.len() ==> opt_nat(#[trigger] lower[o]) == derivation_depth(g, ids, cidx, h)[o]
}

/// The bounds are exactly the least derivation depths: every class's
/// bound is at most the depth of any of its derivations, and some height
/// has derivations attaining all of them. Classes without a finite
/// derivation, those on cycles without a way down to leaves among them, get
/// no bound.
pub proof fn lemma_bounds_exact(
    g: Seq<Seq<SpecLang>>,
    ids: Seq<usize>,
    cidx: Seq<Option<usize>>,
    lower: Seq<Option<usize>>,
    h: nat,
)
    requires
        is_fixed_point(g, ids, cidx, lower),
        attained(g, ids, cidx, lower, h),
    ensures
        bounds_are_depths(g, ids, cidx, lower, h),
{
    lemma_bounds_below_derivations(g, ids, cidx, lower, h);
    let v = derivation_depth(g, ids, cidx, h);
    assert forall|o: int| 0 <= o < lower.len() implies opt_nat(#[trigger] lower[o]) == v[o] by {
        assert(opt_le(opt_nat(lower[o]), v[o]));
        assert(opt_le(v[o], opt_nat(lower[o])));
    }
}

} // verus!
