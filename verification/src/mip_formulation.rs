//! The integer program of MD-bounded extraction, as plain linear
//! constraints over named variables, and the acceptance of a solver's
//! answer.
//!
//! Variables, per modelled class `c`: `Used(c)` (binary: the class occurs
//! in the extracted DAG), `Depth(c)` and `Rank(c)` (continuous witnesses of
//! the multiplication depth and of a topological order); per record `r`:
//! `Selected(r)` (binary: the implementation is chosen). The objective
//! minimises the number of selected multiplication records.
use vstd::prelude::*;
use crate::md_mc_extractor::{
    first_duplicate, first_selected, mip_wf, records_view, sel_closed, sel_cyclic, sel_edge,
    sel_path, sel_reachable, selected_mul_count, selection, MipModel, MipView, RecordView,
};
use crate::text::{append_chars, nat_digits, str_chars, string_from_chars, u64_digits, usize_digits};

verus! {

#[derive(Clone, Copy, Debug, PartialEq, Eq, Structural)]
pub enum MipVar {
    Used(usize),
    Depth(usize),
    Rank(usize),
    Selected(usize),
}

#[derive(Clone, Copy, Debug, PartialEq, Eq, Structural)]
pub enum Sense {
    Le,
    Eq,
    Ge,
}

/// `sum(coefficient * variable) sense rhs`.
pub struct LinearConstraint {
    pub terms: Vec<(MipVar, i128)>,
    pub sense: Sense,
    pub rhs: i128,
}

pub struct ConstraintView {
    pub terms: Seq<(MipVar, int)>,
    pub sense: Sense,
    pub rhs: int,
}

pub open spec fn terms_view(v: Seq<(MipVar, i128)>) -> Seq<(MipVar, int)> {
    v.map_values(|t: (MipVar, i128)| (t.0, t.1 as int))
}

pub open spec fn constraint_view(c: LinearConstraint) -> ConstraintView {
    ConstraintView { terms: terms_view(c.terms@), sense: c.sense, rhs: c.rhs as int }
}

pub open spec fn constraints_view(v: Seq<LinearConstraint>) -> Seq<ConstraintView> {
    v.map_values(|c: LinearConstraint| constraint_view(c))
}

pub open spec fn row(terms: Seq<(MipVar, int)>, sense: Sense, rhs: int) -> ConstraintView {
    ConstraintView { terms, sense, rhs }
}

/// The rows `f(0) + f(1) + ... + f(n - 1)`.
pub open spec fn concat(n: int, f: spec_fn(int) -> Seq<ConstraintView>) -> Seq<ConstraintView>
    decreases n,
{
    if n <= 0 {
        seq![]
    } else {
        concat(n - 1, f) + f(n - 1)
    }
}

/// `coef * Selected(r)` for every record `r` of the list.
pub open spec fn selected_terms(list: Seq<usize>, coef: int) -> Seq<(MipVar, int)> {
    list.map_values(|r: usize| (MipVar::Selected(r), coef))
}

/// The output root is used.
pub open spec fn root_row(m: MipView) -> ConstraintView {
    row(seq![(MipVar::Used(m.root_index as usize), 1)], Sense::Eq, 1)
}

/// A used class selects exactly one of its records, an unused one none.
pub open spec fn one_impl_rows(m: MipView) -> spec_fn(int) -> Seq<ConstraintView> {
    |c: int|
        seq![
            row(
                selected_terms(m.nodes_by_class[c], 1).push((MipVar::Used(c as usize), -1)),
                Sense::Eq,
                0,
            ),
        ]
}

/// `lb * used <= depth <= D * used` and `rank <= C * used`.
pub open spec fn witness_rows(m: MipView) -> spec_fn(int) -> Seq<ConstraintView> {
    |c: int|
        seq![
            row(
                seq![(MipVar::Depth(c as usize), 1), (MipVar::Used(c as usize), -(m.md_limit as int))],
                Sense::Le,
                0,
            ),
        ] + match m.min_depth_lb[c] {
            Some(l) => seq![
                row(
                    seq![(MipVar::Depth(c as usize), 1), (MipVar::Used(c as usize), -(l as int))],
                    Sense::Ge,
                    0,
                ),
            ],
            None => seq![],
        } + seq![
            row(
                seq![(MipVar::Rank(c as usize), 1), (MipVar::Used(c as usize), -(m.class_ids.len() as int))],
                Sense::Le,
                0,
            ),
        ]
}

/// A selected record uses each of its child classes.
pub open spec fn child_use_rows(m: MipView) -> spec_fn(int) -> Seq<ConstraintView> {
    |r: int|
        Seq::new(
            m.records[r].children.len(),
            |j: int|
                row(
                    seq![(MipVar::Selected(r as usize), 1), (MipVar::Used(m.records[r].children[j]), -1)],
                    Sense::Le,
                    0,
                ),
        )
}

/// A used class other than the root is the child of a selected record.
pub open spec fn parent_rows(m: MipView) -> spec_fn(int) -> Seq<ConstraintView> {
    |c: int|
        if c == m.root_index {
            seq![]
        } else {
            seq![
                row(
                    seq![(MipVar::Used(c as usize), 1)] + selected_terms(m.parent_records[c], -1),
                    Sense::Le,
                    0,
                ),
            ]
        }
}

/// `rank(child) + 1 <= rank(owner)` when record `r` is selected, by big-M.
pub open spec fn rank_row(m: MipView, r: int, j: int) -> ConstraintView {
    let big: int = m.class_ids.len() as int + 1;
    row(
        seq![
            (MipVar::Rank(m.records[r].children[j]), 1),
            (MipVar::Rank(m.records[r].owner as usize), -1),
            (MipVar::Selected(r as usize), big),
        ],
        Sense::Le,
        big - 1,
    )
}

/// `depth(child) + inc <= depth(owner)` when record `r` is selected, inc
/// being one for a multiplication, by big-M.
pub open spec fn depth_row(m: MipView, r: int, j: int) -> ConstraintView {
    let inc: int = if m.records[r].is_mul {
        1
    } else {
        0
    };
    let big: int = m.md_limit as int + inc;
    row(
        seq![
            (MipVar::Depth(m.records[r].children[j]), 1),
            (MipVar::Depth(m.records[r].owner as usize), -1),
            (MipVar::Selected(r as usize), big),
        ],
        Sense::Le,
        big - inc,
    )
}

pub open spec fn child_pairs(m: MipView, r: int, j: int) -> Seq<ConstraintView>
    decreases j,
{
    if j <= 0 {
        seq![]
    } else {
        child_pairs(m, r, j - 1) + seq![rank_row(m, r, j - 1), depth_row(m, r, j - 1)]
    }
}

/// A selected record forces its owner's depth to at least its own lower
/// bound, and orders and deepens its owner over each child.
pub open spec fn record_rows(m: MipView) -> spec_fn(int) -> Seq<ConstraintView> {
    |r: int|
        (if m.records[r].min_depth != 0 {
            seq![
                row(
                    seq![
                        (MipVar::Depth(m.records[r].owner as usize), 1),
                        (MipVar::Selected(r as usize), -(m.records[r].min_depth as int)),
                    ],
                    Sense::Ge,
                    0,
                ),
            ]
        } else {
            seq![]
        }) + child_pairs(m, r, m.records[r].children.len() as int)
}

/// Every constraint of the program, in order.
pub open spec fn spec_constraints(m: MipView) -> Seq<ConstraintView> {
    let n = m.class_ids.len() as int;
    let rn = m.records.len() as int;
    seq![root_row(m)] + concat(n, one_impl_rows(m)) + concat(n, witness_rows(m)) + concat(
        rn,
        child_use_rows(m),
    ) + concat(n, parent_rows(m)) + concat(rn, record_rows(m))
}

/// Indices of the multiplication records among the first `k`.
pub open spec fn mul_records(recs: Seq<crate::md_mc_extractor::RecordView>, k: int) -> Seq<usize>
    decreases k,
{
    if k <= 0 {
        seq![]
    } else if recs[k - 1].is_mul {
        mul_records(recs, k - 1).push((k - 1) as usize)
    } else {
        mul_records(recs, k - 1)
    }
}

fn push_row(out: &mut Vec<LinearConstraint>, terms: Vec<(MipVar, i128)>, sense: Sense, rhs: i128)
    ensures
        constraints_view(final(out)@) == constraints_view(old(out)@).push(
            row(terms_view(terms@), sense, rhs as int),
        ),
{
    let ghost before = constraints_view(out@);
    let c = LinearConstraint { terms, sense, rhs };
    assert(constraint_view(c) == row(terms_view(terms@), sense, rhs as int));
    out.push(c);
    assert(constraints_view(out@) =~= before.push(row(terms_view(terms@), sense, rhs as int)));
}

fn push_selected(list: &Vec<usize>, coef: i128, terms: &mut Vec<(MipVar, i128)>)
    ensures
        terms_view(final(terms)@) == terms_view(old(terms)@) + selected_terms(list@, coef as int),
{
    let ghost start = terms_view(terms@);
    let mut k: usize = 0;
    while k < list.len()
        invariant
            k <= list@.len(),
            start == terms_view(old(terms)@),
            terms_view(terms@) == start + selected_terms(list@.subrange(0, k as int), coef as int),
        decreases list@.len() - k,
    {
        let ghost prev = terms_view(terms@);
        terms.push((MipVar::Selected(list[k]), coef));
        proof {
            assert(terms_view(terms@) =~= prev.push((MipVar::Selected(list@[k as int]), coef as int)));
            assert(selected_terms(list@.subrange(0, k + 1), coef as int) =~= selected_terms(
                list@.subrange(0, k as int),
                coef as int,
            ).push((MipVar::Selected(list@[k as int]), coef as int)));
        }
        k = k + 1;
    }
    assert(list@.subrange(0, k as int) =~= list@);
}

fn terms2(a: MipVar, ca: i128, b: MipVar, cb: i128) -> (res: Vec<(MipVar, i128)>)
    ensures
        terms_view(res@) == seq![(a, ca as int), (b, cb as int)],
{
    let mut t: Vec<(MipVar, i128)> = Vec::new();
    t.push((a, ca));
    t.push((b, cb));
    assert(terms_view(t@) =~= seq![(a, ca as int), (b, cb as int)]);
    t
}

fn terms3(a: MipVar, ca: i128, b: MipVar, cb: i128, c: MipVar, cc: i128) -> (res: Vec<(MipVar, i128)>)
    ensures
        terms_view(res@) == seq![(a, ca as int), (b, cb as int), (c, cc as int)],
{
    let mut t: Vec<(MipVar, i128)> = Vec::new();
    t.push((a, ca));
    t.push((b, cb));
    t.push((c, cc));
    assert(terms_view(t@) =~= seq![(a, ca as int), (b, cb as int), (c, cc as int)]);
    t
}

impl MipModel {
    fn one_impl_for(&self, c: usize, out: &mut Vec<LinearConstraint>)
        requires
            c < self@.class_ids.len(),
        ensures
            constraints_view(final(out)@) == constraints_view(old(out)@) + one_impl_rows(self@)(c as int),
    {
        let _ = self.class_count();
        let nbc = self.nodes_by_class();
        assert(nbc@[c as int]@ == self@.nodes_by_class[c as int]);
        let mut t: Vec<(MipVar, i128)> = Vec::new();
        push_selected(&nbc[c], 1, &mut t);
        let ghost mid = terms_view(t@);
        t.push((MipVar::Used(c), -1));
        assert(terms_view(t@) =~= mid.push((MipVar::Used(c), -1)));
        let ghost before = constraints_view(out@);
        push_row(out, t, Sense::Eq, 0);
        assert(constraints_view(out@) =~= before + one_impl_rows(self@)(c as int));
    }

    fn witness_for(&self, c: usize, out: &mut Vec<LinearConstraint>)
        requires
            c < self@.class_ids.len(),
        ensures
            constraints_view(final(out)@) == constraints_view(old(out)@) + witness_rows(self@)(c as int),
    {
        let n = self.class_count();
        let d = self.md_limit() as i128;
        let ghost before = constraints_view(out@);
        push_row(out, terms2(MipVar::Depth(c), 1, MipVar::Used(c), -d), Sense::Le, 0);
        let lb = self.min_depth_lb();
        let ghost mid = constraints_view(out@);
        match lb[c] {
            Some(l) => {
                push_row(out, terms2(MipVar::Depth(c), 1, MipVar::Used(c), -(l as i128)), Sense::Ge, 0);
            },
            None => {},
        }
        let ghost mid2 = constraints_view(out@);
        push_row(out, terms2(MipVar::Rank(c), 1, MipVar::Used(c), -(n as i128)), Sense::Le, 0);
        assert(constraints_view(out@) =~= before + witness_rows(self@)(c as int));
    }

    fn child_use_for(&self, r: usize, out: &mut Vec<LinearConstraint>)
        requires
            r < self@.records.len(),
        ensures
            constraints_view(final(out)@) == constraints_view(old(out)@) + child_use_rows(self@)(r as int),
    {
        let recs = self.records();
        let ch = &recs[r].children;
        assert(records_view(recs@)[r as int] == crate::md_mc_extractor::record_view(recs@[r as int]));
        let ghost m = self@;
        let ghost before = constraints_view(out@);
        let ghost rows = child_use_rows(m)(r as int);
        let mut j: usize = 0;
        while j < ch.len()
            invariant
                j <= ch@.len(),
                ch@ == m.records[r as int].children,
                rows == child_use_rows(m)(r as int),
                rows.len() == ch@.len(),
                constraints_view(out@) == before + rows.subrange(0, j as int),
            decreases ch@.len() - j,
        {
            let ghost prev = constraints_view(out@);
            push_row(out, terms2(MipVar::Selected(r), 1, MipVar::Used(ch[j]), -1), Sense::Le, 0);
            assert(rows.subrange(0, j + 1) =~= rows.subrange(0, j as int).push(rows[j as int]));
            assert(constraints_view(out@) =~= before + rows.subrange(0, j + 1));
            j = j + 1;
        }
        assert(rows.subrange(0, j as int) =~= rows);
    }

    fn parent_for(&self, c: usize, out: &mut Vec<LinearConstraint>)
        requires
            c < self@.class_ids.len(),
        ensures
            constraints_view(final(out)@) == constraints_view(old(out)@) + parent_rows(self@)(c as int),
    {
        let _ = self.class_count();
        let ghost before = constraints_view(out@);
        if c == self.root_index() {
            assert(constraints_view(out@) =~= before + parent_rows(self@)(c as int));
            return;
        }
        let par = self.parent_records();
        assert(par@[c as int]@ == self@.parent_records[c as int]);
        let mut t: Vec<(MipVar, i128)> = Vec::new();
        t.push((MipVar::Used(c), 1));
        assert(terms_view(t@) =~= seq![(MipVar::Used(c), 1int)]);
        push_selected(&par[c], -1, &mut t);
        push_row(out, t, Sense::Le, 0);
        assert(constraints_view(out@) =~= before + parent_rows(self@)(c as int));
    }

    fn record_rows_for(&self, r: usize, out: &mut Vec<LinearConstraint>)
        requires
            r < self@.records.len(),
        ensures
            constraints_view(final(out)@) == constraints_view(old(out)@) + record_rows(self@)(r as int),
    {
        let n = self.class_count();
        let d = self.md_limit() as i128;
        let recs = self.records();
        let rec = &recs[r];
        assert(records_view(recs@)[r as int] == crate::md_mc_extractor::record_view(recs@[r as int]));
        let ghost m = self@;
        let ghost before = constraints_view(out@);
        if rec.min_depth != 0 {
            push_row(
                out,
                terms2(MipVar::Depth(rec.owner), 1, MipVar::Selected(r), -(rec.min_depth as i128)),
                Sense::Ge,
                0,
            );
        }
        let ghost head = constraints_view(out@);
        assert(head == before + (if m.records[r as int].min_depth != 0 {
            seq![
                row(
                    seq![
                        (MipVar::Depth(m.records[r as int].owner as usize), 1),
                        (MipVar::Selected(r), -(m.records[r as int].min_depth as int)),
                    ],
                    Sense::Ge,
                    0,
                ),
            ]
        } else {
            seq![]
        }));
        let inc: i128 = if rec.is_mul {
            1
        } else {
            0
        };
        let rank_big = n as i128 + 1;
        let depth_big = d + inc;
        let ch = &rec.children;
        let mut j: usize = 0;
        while j < ch.len()
            invariant
                j <= ch@.len(),
                ch@ == m.records[r as int].children,
                rec.owner as nat == m.records[r as int].owner,
                inc == (if m.records[r as int].is_mul { 1int } else { 0int }),
                rank_big == m.class_ids.len() + 1,
                depth_big == m.md_limit + inc,
                d == m.md_limit,
                constraints_view(out@) == head + child_pairs(m, r as int, j as int),
            decreases ch@.len() - j,
        {
            push_row(
                out,
                terms3(MipVar::Rank(ch[j]), 1, MipVar::Rank(rec.owner), -1, MipVar::Selected(r), rank_big),
                Sense::Le,
                rank_big - 1,
            );
            push_row(
                out,
                terms3(MipVar::Depth(ch[j]), 1, MipVar::Depth(rec.owner), -1, MipVar::Selected(r), depth_big),
                Sense::Le,
                depth_big - inc,
            );
            assert(constraints_view(out@) =~= head + child_pairs(m, r as int, j + 1));
            j = j + 1;
        }
        assert(constraints_view(out@) =~= before + record_rows(m)(r as int));
    }

    /// Every linear constraint of the integer program, in order: the root
    /// is used; each used class selects exactly one record and an unused
    /// class none; `lb * used <= depth <= D * used` and `rank <= C * used`;
    /// a selected record uses each child class; a used class other than
    /// the root is the child of a selected record; a selected record forces
    /// its owner's depth to its lower bound and, over each child, orders
    /// the ranks and propagates the depth, by big-M terms.
    pub fn constraints(&self) -> (res: Vec<LinearConstraint>)
        ensures
            constraints_view(res@) == spec_constraints(self@),
    {
        let n = self.class_count();
        let rn = self.records().len();
        let ghost m = self@;
        let mut out: Vec<LinearConstraint> = Vec::new();
        let mut t: Vec<(MipVar, i128)> = Vec::new();
        t.push((MipVar::Used(self.root_index()), 1));
        assert(terms_view(t@) =~= seq![(MipVar::Used(m.root_index as usize), 1int)]);
        push_row(&mut out, t, Sense::Eq, 1);
        assert(constraints_view(out@) =~= seq![root_row(m)]);
        let ghost p0 = constraints_view(out@);
        let mut c: usize = 0;
        while c < n
            invariant
                m == self@,
                n == m.class_ids.len(),
                c <= n,
                constraints_view(out@) == p0 + concat(c as int, one_impl_rows(m)),
            decreases n - c,
        {
            self.one_impl_for(c, &mut out);
            assert(concat(c + 1, one_impl_rows(m)) == concat(c as int, one_impl_rows(m)) + one_impl_rows(m)(c as int));
            c = c + 1;
        }
        let ghost p1 = constraints_view(out@);
        c = 0;
        while c < n
            invariant
                m == self@,
                n == m.class_ids.len(),
                c <= n,
                constraints_view(out@) == p1 + concat(c as int, witness_rows(m)),
            decreases n - c,
        {
            self.witness_for(c, &mut out);
            assert(concat(c + 1, witness_rows(m)) == concat(c as int, witness_rows(m)) + witness_rows(m)(c as int));
            c = c + 1;
        }
        let ghost p2 = constraints_view(out@);
        let mut r: usize = 0;
        while r < rn
            invariant
                m == self@,
                rn == m.records.len(),
                r <= rn,
                constraints_view(out@) == p2 + concat(r as int, child_use_rows(m)),
            decreases rn - r,
        {
            self.child_use_for(r, &mut out);
            assert(concat(r + 1, child_use_rows(m)) == concat(r as int, child_use_rows(m)) + child_use_rows(m)(r as int));
            r = r + 1;
        }
        let ghost p3 = constraints_view(out@);
        c = 0;
        while c < n
            invariant
                m == self@,
                n == m.class_ids.len(),
                c <= n,
                constraints_view(out@) == p3 + concat(c as int, parent_rows(m)),
            decreases n - c,
        {
            self.parent_for(c, &mut out);
            assert(concat(c + 1, parent_rows(m)) == concat(c as int, parent_rows(m)) + parent_rows(m)(c as int));
            c = c + 1;
        }
        let ghost p4 = constraints_view(out@);
        r = 0;
        while r < rn
            invariant
                m == self@,
                rn == m.records.len(),
                r <= rn,
                constraints_view(out@) == p4 + concat(r as int, record_rows(m)),
            decreases rn - r,
        {
            self.record_rows_for(r, &mut out);
            assert(concat(r + 1, record_rows(m)) == concat(r as int, record_rows(m)) + record_rows(m)(r as int));
            r = r + 1;
        }
        assert(constraints_view(out@) =~= spec_constraints(m));
        out
    }

    /// The records whose selection the objective counts: the
    /// multiplications, each with weight one.
    pub fn objective(&self) -> (res: Vec<usize>)
        ensures
            res@ == mul_records(self@.records, self@.records.len() as int),
    {
        let recs = self.records();
        let ghost rv = self@.records;
        let mut res: Vec<usize> = Vec::new();
        let mut i: usize = 0;
        while i < recs.len()
            invariant
                rv == records_view(recs@),
                i <= recs@.len(),
                res@ == mul_records(rv, i as int),
            decreases recs@.len() - i,
        {
            assert(rv[i as int] == crate::md_mc_extractor::record_view(recs@[i as int]));
            if recs[i].is_mul {
                res.push(i);
            }
            i = i + 1;
        }
        res
    }
}

/// The domain of a variable: binary, or continuous from zero to a bound.
#[derive(Clone, Copy, Debug, PartialEq, Eq, Structural)]
pub enum VarDomain {
    Binary,
    UpTo(usize),
}

/// Selections and uses are binary; depths range over `[0, D]` and ranks
/// over `[0, C]`, `C` being the number of modelled classes.
pub open spec fn spec_domain(m: MipView, v: MipVar) -> VarDomain {
    match v {
        MipVar::Used(_) | MipVar::Selected(_) => VarDomain::Binary,
        MipVar::Depth(_) => VarDomain::UpTo(m.md_limit as usize),
        MipVar::Rank(_) => VarDomain::UpTo(m.class_ids.len() as usize),
    }
}

impl MipModel {
    /// The domain of a variable of the program.
    pub fn domain(&self, v: MipVar) -> (res: VarDomain)
        ensures
            res == spec_domain(self@, v),
    {
        match v {
            MipVar::Used(_) | MipVar::Selected(_) => VarDomain::Binary,
            MipVar::Depth(_) => VarDomain::UpTo(self.md_limit()),
            MipVar::Rank(_) => VarDomain::UpTo(self.class_count()),
        }
    }
}

/// How a solve ended: optimal, or stopped at a time or gap limit.
#[derive(Clone, Copy, Debug, PartialEq, Eq, Structural)]
pub enum SolveStatus {
    Optimal,
    TimeLimit,
    GapLimit,
}

pub open spec fn status_name(s: SolveStatus) -> Seq<char> {
    match s {
        SolveStatus::Optimal => "Optimal"@,
        SolveStatus::TimeLimit => "TimeLimit"@,
        SolveStatus::GapLimit => "GapLimit"@,
    }
}

pub open spec fn solve_failed_text(md_limit: nat, secs: nat, error: Seq<char>) -> Seq<char> {
    "Stage-3 MIP failed for MD <= "@ + nat_digits(md_limit) + " within "@ + nat_digits(secs)
        + ".0s (HiGHS/MIP: "@ + error + ")"@
}

pub open spec fn not_certified_text(status: SolveStatus, md_limit: nat, secs: nat) -> Seq<char> {
    "Stage-3 MIP ended with status "@ + status_name(status) + " for MD <= "@ + nat_digits(md_limit)
        + "; no exact MC optimum was certified within "@ + nat_digits(secs) + ".0s"@
}

/// Acceptance of a solver's answer under a time limit of `timeout_secs`
/// seconds: only a certified optimum is accepted; a failed solve and a
/// result stopped at a limit are refused.
pub fn solver_outcome(outcome: Result<SolveStatus, String>, md_limit: usize, timeout_secs: u64) -> (res: Result<(), String>)
    ensures
        match outcome {
            Err(e) => res matches Err(m) && m@ == solve_failed_text(md_limit as nat, timeout_secs as nat, e@),
            Ok(SolveStatus::Optimal) => res is Ok,
            Ok(s) => res matches Err(m) && m@ == not_certified_text(s, md_limit as nat, timeout_secs as nat),
        },
{
    proof {
        reveal_strlit("Stage-3 MIP failed for MD <= ");
        reveal_strlit(" within ");
        reveal_strlit(".0s (HiGHS/MIP: ");
        reveal_strlit(")");
        reveal_strlit("Stage-3 MIP ended with status ");
        reveal_strlit(" for MD <= ");
        reveal_strlit("; no exact MC optimum was certified within ");
        reveal_strlit(".0s");
        reveal_strlit("TimeLimit");
        reveal_strlit("GapLimit");
    }
    match outcome {
        Err(e) => {
            let mut m = str_chars("Stage-3 MIP failed for MD <= ");
            append_chars(&mut m, &usize_digits(md_limit));
            append_chars(&mut m, &str_chars(" within "));
            append_chars(&mut m, &u64_digits(timeout_secs));
            append_chars(&mut m, &str_chars(".0s (HiGHS/MIP: "));
            append_chars(&mut m, &str_chars(e.as_str()));
            append_chars(&mut m, &str_chars(")"));
            Err(string_from_chars(m.as_slice()))
        },
        Ok(SolveStatus::Optimal) => Ok(()),
        Ok(s) => {
            let mut m = str_chars("Stage-3 MIP ended with status ");
            match s {
                SolveStatus::TimeLimit => append_chars(&mut m, &str_chars("TimeLimit")),
                _ => append_chars(&mut m, &str_chars("GapLimit")),
            }
            append_chars(&mut m, &str_chars(" for MD <= "));
            append_chars(&mut m, &usize_digits(md_limit));
            append_chars(&mut m, &str_chars("; no exact MC optimum was certified within "));
            append_chars(&mut m, &u64_digits(timeout_secs));
            append_chars(&mut m, &str_chars(".0s"));
            Err(string_from_chars(m.as_slice()))
        },
    }
}

// ---------------------------------------------------------------------
// Solutions of the program
// ---------------------------------------------------------------------
/// Values of the variables: per class `used`, `depth`, `rank`; per record
/// `sel`. Integral witnesses.
pub struct Assignment {
    pub used: Seq<int>,
    pub depth: Seq<int>,
    pub rank: Seq<int>,
    pub sel: Seq<int>,
}

pub open spec fn value(a: Assignment, v: MipVar) -> int {
    match v {
        MipVar::Used(c) => a.used[c as int],
        MipVar::Depth(c) => a.depth[c as int],
        MipVar::Rank(c) => a.rank[c as int],
        MipVar::Selected(r) => a.sel[r as int],
    }
}

pub open spec fn linear(terms: Seq<(MipVar, int)>, a: Assignment) -> int
    decreases terms.len(),
{
    if terms.len() == 0 {
        0
    } else {
        linear(terms.drop_last(), a) + terms.last().1 * value(a, terms.last().0)
    }
}

pub open spec fn holds(r: ConstraintView, a: Assignment) -> bool {
    match r.sense {
        Sense::Le => linear(r.terms, a) <= r.rhs,
        Sense::Eq => linear(r.terms, a) == r.rhs,
        Sense::Ge => linear(r.terms, a) >= r.rhs,
    }
}

pub open spec fn satisfies(rows: Seq<ConstraintView>, a: Assignment) -> bool {
    forall|k: int| 0 <= k < rows.len() ==> holds(#[trigger] rows[k], a)
}

/// Every variable is within its domain.
pub open spec fn in_domains(m: MipView, a: Assignment) -> bool {
    let n = m.class_ids.len();
    &&& a.used.len() == n && a.depth.len() == n && a.rank.len() == n
    &&& a.sel.len() == m.records.len()
    &&& forall|c: int| 0 <= c < n ==> (#[trigger] a.used[c] == 0 || a.used[c] == 1)
    &&& forall|c: int| 0 <= c < n ==> 0 <= #[trigger] a.depth[c] <= m.md_limit
    &&& forall|c: int| 0 <= c < n ==> 0 <= #[trigger] a.rank[c] <= n
    &&& forall|r: int| 0 <= r < m.records.len() ==> (#[trigger] a.sel[r] == 0 || a.sel[r] == 1)
}

/// The records that the solution selects.
pub open spec fn chosen(a: Assignment) -> Seq<bool> {
    a.sel.map_values(|x: int| x == 1)
}

proof fn lemma_satisfies_split(x: Seq<ConstraintView>, y: Seq<ConstraintView>, a: Assignment)
    requires
        satisfies(x + y, a),
    ensures
        satisfies(x, a),
        satisfies(y, a),
{
    assert forall|k: int| 0 <= k < x.len() implies holds(#[trigger] x[k], a) by {
        assert((x + y)[k] == x[k]);
    }
    assert forall|k: int| 0 <= k < y.len() implies holds(#[trigger] y[k], a) by {
        assert((x + y)[x.len() + k] == y[k]);
    }
}

proof fn lemma_satisfies_concat(n: int, f: spec_fn(int) -> Seq<ConstraintView>, i: int, a: Assignment)
    requires
        satisfies(concat(n, f), a),
        0 <= i < n,
    ensures
        satisfies(f(i), a),
    decreases n,
{
    lemma_satisfies_split(concat(n - 1, f), f(n - 1), a);
    if i < n - 1 {
        lemma_satisfies_concat(n - 1, f, i, a);
    }
}

/// The six blocks of rows hold one by one.
proof fn lemma_blocks(m: MipView, a: Assignment)
    requires
        satisfies(spec_constraints(m), a),
    ensures
        holds(root_row(m), a),
        forall|c: int| 0 <= c < m.class_ids.len() ==> satisfies(#[trigger] one_impl_rows(m)(c), a),
        forall|c: int| 0 <= c < m.class_ids.len() ==> satisfies(#[trigger] witness_rows(m)(c), a),
        forall|r: int| 0 <= r < m.records.len() ==> satisfies(#[trigger] child_use_rows(m)(r), a),
        forall|r: int| 0 <= r < m.records.len() ==> satisfies(#[trigger] record_rows(m)(r), a),
{
    let n = m.class_ids.len() as int;
    let rn = m.records.len() as int;
    let b0 = seq![root_row(m)];
    let b1 = concat(n, one_impl_rows(m));
    let b2 = concat(n, witness_rows(m));
    let b3 = concat(rn, child_use_rows(m));
    let b4 = concat(n, parent_rows(m));
    let b5 = concat(rn, record_rows(m));
    lemma_satisfies_split(b0 + b1 + b2 + b3 + b4, b5, a);
    lemma_satisfies_split(b0 + b1 + b2 + b3, b4, a);
    lemma_satisfies_split(b0 + b1 + b2, b3, a);
    lemma_satisfies_split(b0 + b1, b2, a);
    lemma_satisfies_split(b0, b1, a);
    assert(holds(b0[0], a));
    assert forall|c: int| 0 <= c < n implies satisfies(#[trigger] one_impl_rows(m)(c), a) by {
        lemma_satisfies_concat(n, one_impl_rows(m), c, a);
    }
    assert forall|c: int| 0 <= c < n implies satisfies(#[trigger] witness_rows(m)(c), a) by {
        lemma_satisfies_concat(n, witness_rows(m), c, a);
    }
    assert forall|r: int| 0 <= r < rn implies satisfies(#[trigger] child_use_rows(m)(r), a) by {
        lemma_satisfies_concat(rn, child_use_rows(m), r, a);
    }
    assert forall|r: int| 0 <= r < rn implies satisfies(#[trigger] record_rows(m)(r), a) by {
        lemma_satisfies_concat(rn, record_rows(m), r, a);
    }
}

/// Sum of the selections of the listed records.
pub open spec fn sum_sel(list: Seq<usize>, a: Assignment) -> int
    decreases list.len(),
{
    if list.len() == 0 {
        0
    } else {
        sum_sel(list.drop_last(), a) + a.sel[list.last() as int]
    }
}

pub(crate) proof fn lemma_linear_selected(list: Seq<usize>, a: Assignment)
    ensures
        linear(selected_terms(list, 1), a) == sum_sel(list, a),
    decreases list.len(),
{
    if list.len() > 0 {
        assert(selected_terms(list, 1).drop_last() =~= selected_terms(list.drop_last(), 1));
        lemma_linear_selected(list.drop_last(), a);
    }
}

/// With binary selections, two distinct listed records selected give a sum
/// of at least two, and a positive sum has a selected record.
pub(crate) proof fn lemma_sum_sel(list: Seq<usize>, a: Assignment)
    requires
        forall|k: int| 0 <= k < list.len() ==> (#[trigger] a.sel[list[k] as int] == 0 || a.sel[list[k] as int] == 1),
    ensures
        sum_sel(list, a) >= 0,
        sum_sel(list, a) > 0 ==> exists|k: int| 0 <= k < list.len() && #[trigger] a.sel[list[k] as int] == 1,
        forall|k: int| 0 <= k < list.len() && #[trigger] a.sel[list[k] as int] == 1 ==> sum_sel(list, a) >= 1,
        forall|k1: int, k2: int|
            0 <= k1 < k2 < list.len() && #[trigger] a.sel[list[k1] as int] == 1 && #[trigger] a.sel[list[k2] as int] == 1 ==> sum_sel(list, a) >= 2,
    decreases list.len(),
{
    if list.len() > 0 {
        let l = list.drop_last();
        assert forall|k: int| 0 <= k < l.len() implies (#[trigger] a.sel[l[k] as int] == 0 || a.sel[l[k] as int] == 1) by {
            assert(l[k] == list[k]);
        }
        lemma_sum_sel(l, a);
        assert(a.sel[list[list.len() - 1] as int] == 0 || a.sel[list[list.len() - 1] as int] == 1);
        if sum_sel(list, a) > 0 {
            if a.sel[list.last() as int] != 1 {
                let k = choose|k: int| 0 <= k < l.len() && #[trigger] a.sel[l[k] as int] == 1;
                assert(list[k] == l[k]);
            }
        }
        assert forall|k1: int, k2: int|
            0 <= k1 < k2 < list.len() && #[trigger] a.sel[list[k1] as int] == 1 && #[trigger] a.sel[list[k2] as int] == 1 implies sum_sel(list, a) >= 2 by {
            assert(list[k1] == l[k1]);
            if k2 < list.len() - 1 {
                assert(list[k2] == l[k2]);
            } else {
                assert(a.sel[l[k1] as int] == 1);
            }
        }
        assert forall|k: int| 0 <= k < list.len() && #[trigger] a.sel[list[k] as int] == 1 implies sum_sel(list, a) >= 1 by {
            if k < list.len() - 1 {
                assert(list[k] == l[k]);
                assert(a.sel[l[k] as int] == 1);
            }
        }
    }
}

pub(crate) proof fn lemma_first_selected(recs: Seq<RecordView>, sel: Seq<bool>, c: int, k: int)
    requires
        k <= usize::MAX + 1,
    ensures
        first_selected(recs, sel, c, k) matches Some(i) ==> 0 <= i < k && sel[i as int]
            && recs[i as int].owner == c,
        (exists|j: int| 0 <= j < k && #[trigger] sel[j] && recs[j].owner == c) ==> first_selected(
            recs,
            sel,
            c,
            k,
        ) is Some,
    decreases k,
{
    if k > 0 {
        lemma_first_selected(recs, sel, c, k - 1);
        if exists|j: int| 0 <= j < k && #[trigger] sel[j] && recs[j].owner == c {
            let j = choose|j: int| 0 <= j < k && #[trigger] sel[j] && recs[j].owner == c;
            if j < k - 1 {
                assert(exists|j2: int| 0 <= j2 < k - 1 && #[trigger] sel[j2] && recs[j2].owner == c);
            }
        }
    }
}

proof fn lemma_no_duplicate(recs: Seq<RecordView>, sel: Seq<bool>, k: int)
    requires
        k <= usize::MAX + 1,
        forall|i: int, j: int|
            0 <= i < j < k && #[trigger] sel[i] && #[trigger] sel[j] ==> recs[i].owner != recs[j].owner,
    ensures
        first_duplicate(recs, sel, k) is None,
    decreases k,
{
    if k > 0 {
        lemma_no_duplicate(recs, sel, k - 1);
        lemma_first_selected(recs, sel, recs[k - 1].owner as int, k - 1);
    }
}

proof fn lemma_child_pairs(m: MipView, r: int, jn: int, a: Assignment, j: int)
    requires
        satisfies(child_pairs(m, r, jn), a),
        0 <= j < jn,
    ensures
        holds(rank_row(m, r, j), a),
        holds(depth_row(m, r, j), a),
    decreases jn,
{
    let x = child_pairs(m, r, jn - 1);
    let y = seq![rank_row(m, r, jn - 1), depth_row(m, r, jn - 1)];
    lemma_satisfies_split(x, y, a);
    if j < jn - 1 {
        lemma_child_pairs(m, r, jn - 1, a, j);
    } else {
        assert(holds(y[0], a) && holds(y[1], a));
    }
}

pub(crate) proof fn lemma_linear3(t: Seq<(MipVar, int)>, a: Assignment)
    requires
        t.len() == 3,
    ensures
        linear(t, a) == t[0].1 * value(a, t[0].0) + t[1].1 * value(a, t[1].0) + t[2].1 * value(a, t[2].0),
{
    let t2 = t.drop_last();
    let t1 = t2.drop_last();
    assert(t1.drop_last() =~= Seq::<(MipVar, int)>::empty());
    assert(t1.last() == t[0] && t2.last() == t[1] && t.last() == t[2]);
    assert(linear(t1.drop_last(), a) == 0);
    assert(linear(t1, a) == linear(t1.drop_last(), a) + t1.last().1 * value(a, t1.last().0));
    assert(linear(t1, a) == t[0].1 * value(a, t[0].0));
    assert(linear(t2, a) == linear(t1, a) + t[1].1 * value(a, t[1].0));
}

pub(crate) proof fn lemma_linear2(t: Seq<(MipVar, int)>, a: Assignment)
    requires
        t.len() == 2,
    ensures
        linear(t, a) == t[0].1 * value(a, t[0].0) + t[1].1 * value(a, t[1].0),
{
    let t1 = t.drop_last();
    assert(t1.drop_last() =~= Seq::<(MipVar, int)>::empty());
    assert(t1.last() == t[0] && t.last() == t[1]);
    assert(linear(t1.drop_last(), a) == 0);
    assert(linear(t1, a) == linear(t1.drop_last(), a) + t1.last().1 * value(a, t1.last().0));
    assert(linear(t1, a) == t[0].1 * value(a, t[0].0));
}

/// Multiplication records on the selected path `p`, edge by edge.
pub open spec fn path_muls(recs: Seq<RecordView>, pick: Seq<Option<usize>>, p: Seq<int>) -> nat
    decreases p.len(),
{
    if p.len() <= 1 {
        0
    } else {
        path_muls(recs, pick, p.drop_last()) + if recs[pick[p[p.len() - 2]].unwrap() as int].is_mul {
            1nat
        } else {
            0nat
        }
    }
}

/// The facts of a satisfying solution that the lemmas below share.
pub open spec fn solution_of(m: MipView, a: Assignment) -> bool {
    &&& mip_wf(m)
    &&& m.records.len() <= usize::MAX
    &&& m.class_ids.len() <= usize::MAX
    &&& in_domains(m, a)
    &&& satisfies(spec_constraints(m), a)
}

/// A used class has a selected record, and the one its selection names is
/// selected and owned by it.
proof fn lemma_class_pick(m: MipView, a: Assignment, c: int)
    requires
        solution_of(m, a),
        0 <= c < m.class_ids.len(),
    ensures
        sum_sel(m.nodes_by_class[c], a) == a.used[c],
        a.used[c] == 1 ==> selection(m.records, chosen(a), m.class_ids.len())[c] is Some,
        selection(m.records, chosen(a), m.class_ids.len())[c] matches Some(r) ==> (r as int)
            < m.records.len() && a.sel[r as int] == 1 && m.records[r as int].owner == c,
{
    let recs = m.records;
    let list = m.nodes_by_class[c];
    let sel = chosen(a);
    lemma_blocks(m, a);
    assert(satisfies(one_impl_rows(m)(c), a));
    let t = selected_terms(list, 1).push((MipVar::Used(c as usize), -1));
    assert(holds(one_impl_rows(m)(c)[0], a));
    assert(t.drop_last() =~= selected_terms(list, 1));
    assert(t.last() == (MipVar::Used(c as usize), -1int));
    lemma_linear_selected(list, a);
    assert(linear(t, a) == linear(t.drop_last(), a) + t.last().1 * value(a, t.last().0));
    assert(linear(t, a) == sum_sel(list, a) - a.used[c]);
    assert forall|k: int| 0 <= k < list.len() implies (#[trigger] a.sel[list[k] as int] == 0 || a.sel[list[k] as int] == 1) by {
        assert((list[k] as int) < recs.len());
    }
    lemma_sum_sel(list, a);
    lemma_first_selected(recs, sel, c, recs.len() as int);
    if a.used[c] == 1 {
        let k = choose|k: int| 0 <= k < list.len() && #[trigger] a.sel[list[k] as int] == 1;
        let j = list[k] as int;
        assert(recs[j].owner == c);
        assert(sel[j]);
    }
    let pick = selection(recs, sel, m.class_ids.len());
    assert(pick[c] == first_selected(recs, sel, c, recs.len() as int));
    if pick[c] is Some {
        let r = pick[c].unwrap() as int;
        assert(sel[r] == (a.sel[r] == 1));
    }
}

/// Along a selected edge the child is used, ranks strictly fall and the
/// depth falls by at least the edge's multiplication.
proof fn lemma_edge(m: MipView, a: Assignment, x: int, y: int)
    requires
        solution_of(m, a),
        0 <= x < m.class_ids.len(),
        sel_edge(m.records, selection(m.records, chosen(a), m.class_ids.len()), x, y),
    ensures
        0 <= y < m.class_ids.len(),
        a.used[y] == 1,
        a.rank[y] < a.rank[x],
        a.depth[y] + (if m.records[selection(m.records, chosen(a), m.class_ids.len())[x].unwrap() as int].is_mul {
            1int
        } else {
            0int
        }) <= a.depth[x],
{
    let recs = m.records;
    let pick = selection(recs, chosen(a), m.class_ids.len());
    lemma_class_pick(m, a, x);
    let r = pick[x].unwrap() as int;
    let rec = recs[r];
    let j = choose|j: int| 0 <= j < rec.children.len() && #[trigger] rec.children[j] as int == y;
    assert(crate::md_mc_extractor::children_fit(rec, m.class_ids.len()));
    lemma_blocks(m, a);
    assert(satisfies(child_use_rows(m)(r), a));
    assert(holds(child_use_rows(m)(r)[j], a));
    lemma_linear2(child_use_rows(m)(r)[j].terms, a);
    assert(satisfies(record_rows(m)(r), a));
    let head = if rec.min_depth != 0 {
        seq![
            row(
                seq![
                    (MipVar::Depth(rec.owner as usize), 1),
                    (MipVar::Selected(r as usize), -(rec.min_depth as int)),
                ],
                Sense::Ge,
                0,
            ),
        ]
    } else {
        seq![]
    };
    assert(record_rows(m)(r) == head + child_pairs(m, r, rec.children.len() as int));
    lemma_satisfies_split(head, child_pairs(m, r, rec.children.len() as int), a);
    lemma_child_pairs(m, r, rec.children.len() as int, a, j);
    lemma_linear3(rank_row(m, r, j).terms, a);
    lemma_linear3(depth_row(m, r, j).terms, a);
    assert(a.sel[r] == 1);
    assert(rec.owner == x);
    let rr = rank_row(m, r, j);
    let dr = depth_row(m, r, j);
    assert(value(a, rr.terms[0].0) == a.rank[y]);
    assert(value(a, rr.terms[1].0) == a.rank[x]);
    assert(value(a, rr.terms[2].0) == 1);
    assert(value(a, dr.terms[0].0) == a.depth[y]);
    assert(value(a, dr.terms[1].0) == a.depth[x]);
    assert(value(a, dr.terms[2].0) == 1);
    let b1 = rr.terms[2].1;
    let b2 = dr.terms[2].1;
    assert(b1 * 1 == b1) by (nonlinear_arith);
    assert(b2 * 1 == b2) by (nonlinear_arith);
    assert(rr.terms[0].1 == 1 && rr.terms[1].1 == -1);
    assert(dr.terms[0].1 == 1 && dr.terms[1].1 == -1);
    assert(holds(rr, a));
    assert(holds(dr, a));
}

/// Along a selected path from a used class every class is used, and the
/// rank and depth fall.
proof fn lemma_path(m: MipView, a: Assignment, p: Seq<int>)
    requires
        solution_of(m, a),
        sel_path(m.records, selection(m.records, chosen(a), m.class_ids.len()), p),
        0 <= p[0] < m.class_ids.len(),
        a.used[p[0]] == 1,
    ensures
        0 <= p.last() < m.class_ids.len(),
        a.used[p.last()] == 1,
        a.rank[p.last()] + (p.len() - 1) <= a.rank[p[0]],
        a.depth[p.last()] + path_muls(m.records, selection(m.records, chosen(a), m.class_ids.len()), p) <= a.depth[p[0]],
    decreases p.len(),
{
    let pick = selection(m.records, chosen(a), m.class_ids.len());
    if p.len() > 1 {
        let q = p.drop_last();
        assert forall|i: int| 0 <= i < q.len() - 1 implies sel_edge(m.records, pick, #[trigger] q[i], q[i + 1]) by {
            assert(q[i] == p[i] && q[i + 1] == p[i + 1]);
        }
        lemma_path(m, a, q);
        assert(sel_edge(m.records, pick, p[p.len() - 2], p[p.len() - 1]));
        lemma_edge(m, a, q.last(), p.last());
    }
}

/// Every solution of the program, with integral depth and rank witnesses,
/// is a selection that decoding accepts: no class has two selected
/// records, the root has one, the selection under the root uses no class
/// without a selected record and has no cycle, and no selected path from
/// the root crosses more than `D` multiplications.
pub proof fn lemma_solutions_decode(m: MipView, a: Assignment)
    requires
        mip_wf(m),
        m.records.len() <= usize::MAX,
        m.class_ids.len() <= usize::MAX,
        in_domains(m, a),
        satisfies(spec_constraints(m), a),
    ensures
        first_duplicate(m.records, chosen(a), m.records.len() as int) is None,
        selection(m.records, chosen(a), m.class_ids.len())[m.root_index as int] is Some,
        sel_closed(m.records, selection(m.records, chosen(a), m.class_ids.len()), m.root_index as int),
        !sel_cyclic(m.records, selection(m.records, chosen(a), m.class_ids.len()), m.root_index as int),
        forall|p: Seq<int>|
            #[trigger] sel_path(m.records, selection(m.records, chosen(a), m.class_ids.len()), p) && p[0]
                == m.root_index ==> path_muls(m.records, selection(m.records, chosen(a), m.class_ids.len()), p)
                <= m.md_limit,
{
    let recs = m.records;
    let n = m.class_ids.len();
    let sel = chosen(a);
    let pick = selection(recs, sel, n);
    let root = m.root_index as int;
    lemma_blocks(m, a);
    // No class has two selected records.
    assert forall|i: int, j: int|
        0 <= i < j < recs.len() && #[trigger] sel[i] && #[trigger] sel[j] implies recs[i].owner != recs[j].owner by {
        if recs[i].owner == recs[j].owner {
            let c = recs[i].owner as int;
            let list = m.nodes_by_class[c];
            lemma_class_pick(m, a, c);
            assert(list.contains(i as usize));
            assert(list.contains(j as usize));
            let ki = choose|k: int| 0 <= k < list.len() && list[k] == i as usize;
            let kj = choose|k: int| 0 <= k < list.len() && list[k] == j as usize;
            assert forall|k: int| 0 <= k < list.len() implies (#[trigger] a.sel[list[k] as int] == 0 || a.sel[list[k] as int] == 1) by {
                assert((list[k] as int) < recs.len());
            }
            lemma_sum_sel(list, a);
            assert(a.sel[list[ki] as int] == 1 && a.sel[list[kj] as int] == 1);
            if ki < kj {
            } else {
                assert(kj < ki);
            }
        }
    }
    lemma_no_duplicate(recs, sel, recs.len() as int);
    // The root is used.
    lemma_linear_one(root_row(m).terms, a);
    assert(root_row(m).terms[0] == (MipVar::Used(root as usize), 1int));
    assert(a.used[root] == 1);
    lemma_class_pick(m, a, root);
    // Closed.
    assert forall|c: int| #[trigger] sel_reachable(recs, pick, root, c) implies 0 <= c < pick.len() && pick[c] is Some by {
        let p = choose|p: Seq<int>| #[trigger] sel_path(recs, pick, p) && p[0] == root && p.last() == c;
        lemma_path(m, a, p);
        lemma_class_pick(m, a, c);
    }
    // Acyclic.
    if sel_cyclic(recs, pick, root) {
        let c = choose|c: int| #[trigger] sel_reachable(recs, pick, root, c) && crate::md_mc_extractor::on_cycle(recs, pick, c);
        let p = choose|p: Seq<int>| #[trigger] sel_path(recs, pick, p) && p[0] == root && p.last() == c;
        lemma_path(m, a, p);
        let q = choose|q: Seq<int>| #[trigger] sel_path(recs, pick, q) && q.len() >= 2 && q[0] == c && q.last() == c;
        lemma_path(m, a, q);
    }
    // Depth.
    assert forall|p: Seq<int>| #[trigger] sel_path(recs, pick, p) && p[0] == root implies path_muls(recs, pick, p) <= m.md_limit by {
        lemma_path(m, a, p);
    }
}

pub(crate) proof fn lemma_linear_one(t: Seq<(MipVar, int)>, a: Assignment)
    requires
        t.len() == 1,
    ensures
        linear(t, a) == t[0].1 * value(a, t[0].0),
{
    assert(t.drop_last() =~= Seq::<(MipVar, int)>::empty());
    assert(t.last() == t[0]);
    assert(linear(t.drop_last(), a) == 0);
}

/// The value of the objective under `a`: the sum of the selections of the
/// records it counts.
pub open spec fn objective_value(idx: Seq<usize>, a: Assignment) -> int
    decreases idx.len(),
{
    if idx.len() == 0 {
        0
    } else {
        objective_value(idx.drop_last(), a) + a.sel[idx.last() as int]
    }
}

proof fn lemma_objective_prefix(m: MipView, a: Assignment, k: int)
    requires
        in_domains(m, a),
        0 <= k <= m.records.len(),
        m.records.len() <= usize::MAX,
    ensures
        objective_value(mul_records(m.records, k), a) == selected_mul_count(m.records, chosen(a), k),
    decreases k,
{
    if k > 0 {
        lemma_objective_prefix(m, a, k - 1);
        assert(a.sel[k - 1] == 0 || a.sel[k - 1] == 1);
        assert(chosen(a)[k - 1] == (a.sel[k - 1] == 1));
        if m.records[k - 1].is_mul {
            let idx = mul_records(m.records, k);
            assert(idx.drop_last() =~= mul_records(m.records, k - 1));
            assert(idx.last() as int == k - 1);
        }
    }
}

/// The objective counts the selected multiplication records: under a
/// solution's selection its value is the multiplication count that
/// decoding the selection reports.
pub proof fn lemma_objective_counts_muls(m: MipView, a: Assignment)
    requires
        in_domains(m, a),
        m.records.len() <= usize::MAX,
    ensures
        objective_value(mul_records(m.records, m.records.len() as int), a) == selected_mul_count(
            m.records,
            chosen(a),
            m.records.len() as int,
        ),
{
    lemma_objective_prefix(m, a, m.records.len() as int);
}

} // verus!
