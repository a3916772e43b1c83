//! Laws of the normal form of formulas: normalizing a normal form changes
//! nothing, and neither the order nor the grouping of the operands of a sum
//! or a product matters once sort keys tell its terms apart.
use vstd::prelude::*;
use crate::expr_parser::{
    balanced_add, balanced_mul, flat_add, flat_mul, insert_pos, lemma_flat_nonempty,
    lemma_insert_pos_bound, lemma_sort_len, normalize, seq_lt, sort_key, sort_terms, SpecExpr,
};

verus! {

// ---------------------------------------------------------------------
// The order of keys
// ---------------------------------------------------------------------
proof fn lemma_lt_irreflexive(a: Seq<char>)
    ensures
        !seq_lt(a, a),
    decreases a.len(),
{
    if a.len() > 0 {
        lemma_lt_irreflexive(a.drop_first());
    }
}

proof fn lemma_lt_transitive(a: Seq<char>, b: Seq<char>, c: Seq<char>)
    requires
        seq_lt(a, b),
        seq_lt(b, c),
    ensures
        seq_lt(a, c),
    decreases a.len(),
{
    if a.len() > 0 && b.len() > 0 && c.len() > 0 && a[0] == b[0] && b[0] == c[0] {
        lemma_lt_transitive(a.drop_first(), b.drop_first(), c.drop_first());
    }
}

/// No term is keyed before an earlier one.
pub open spec fn keys_sorted(s: Seq<SpecExpr>) -> bool {
    forall|i: int, j: int|
        0 <= i < j < s.len() ==> !seq_lt(sort_key(#[trigger] s[j]), sort_key(#[trigger] s[i]))
}

// ---------------------------------------------------------------------
// Sorting
// ---------------------------------------------------------------------
proof fn lemma_insert_pos(sorted: Seq<SpecExpr>, x: SpecExpr, i: int)
    requires
        0 <= i <= sorted.len(),
    ensures
        i <= insert_pos(sorted, x, i) <= sorted.len(),
        forall|k: int|
            i <= k < insert_pos(sorted, x, i) ==> !seq_lt(sort_key(x), sort_key(#[trigger] sorted[k])),
        insert_pos(sorted, x, i) < sorted.len() ==> seq_lt(
            sort_key(x),
            sort_key(sorted[insert_pos(sorted, x, i)]),
        ),
    decreases sorted.len() - i,
{
    if i < sorted.len() && !seq_lt(sort_key(x), sort_key(sorted[i])) {
        lemma_insert_pos(sorted, x, i + 1);
    }
}

/// Sorting yields keys in order.
proof fn lemma_sort_sorted(s: Seq<SpecExpr>)
    ensures
        keys_sorted(sort_terms(s)),
    decreases s.len(),
{
    if s.len() > 0 {
        lemma_sort_sorted(s.drop_last());
        let prev = sort_terms(s.drop_last());
        let x = s.last();
        let p = insert_pos(prev, x, 0);
        lemma_insert_pos(prev, x, 0);
        let r = prev.insert(p, x);
        prev.insert_ensures(p, x);
        assert(sort_terms(s) == r);
        assert forall|i: int, j: int| 0 <= i < j < r.len() implies !seq_lt(
            sort_key(#[trigger] r[j]),
            sort_key(#[trigger] r[i]),
        ) by {
            if j < p {
                assert(r[i] == prev[i] && r[j] == prev[j]);
            } else if j == p {
                assert(r[i] == prev[i] && r[j] == x);
            } else if i < p {
                assert(r[i] == prev[i] && r[j] == prev[j - 1]);
            } else if i == p {
                assert(r[i] == x && r[j] == prev[j - 1]);
                if seq_lt(sort_key(prev[j - 1]), sort_key(x)) {
                    lemma_lt_transitive(sort_key(prev[j - 1]), sort_key(x), sort_key(prev[p]));
                    if j - 1 == p {
                        lemma_lt_irreflexive(sort_key(prev[p]));
                    }
                }
            } else {
                assert(r[i] == prev[i - 1] && r[j] == prev[j - 1]);
            }
        }
    }
}

/// Sorting what is already in order changes nothing.
proof fn lemma_sort_of_sorted(s: Seq<SpecExpr>)
    requires
        keys_sorted(s),
    ensures
        sort_terms(s) == s,
    decreases s.len(),
{
    if s.len() > 0 {
        let d = s.drop_last();
        assert(keys_sorted(d)) by {
            assert forall|i: int, j: int| 0 <= i < j < d.len() implies !seq_lt(
                sort_key(#[trigger] d[j]),
                sort_key(#[trigger] d[i]),
            ) by {
                assert(d[i] == s[i] && d[j] == s[j]);
            }
        }
        lemma_sort_of_sorted(d);
        lemma_insert_pos(d, s.last(), 0);
        let p = insert_pos(d, s.last(), 0);
        if p < d.len() {
            assert(s[p] == d[p]);
            assert(s.last() == s[s.len() - 1]);
        }
        assert(d.insert(p, s.last()) =~= s);
    }
}

/// Every sorted term is one of the input terms.
proof fn lemma_sort_elems(s: Seq<SpecExpr>)
    ensures
        sort_terms(s).len() == s.len(),
        forall|i: int| 0 <= i < sort_terms(s).len() ==> s.contains(#[trigger] sort_terms(s)[i]),
    decreases s.len(),
{
    lemma_sort_len(s);
    if s.len() > 0 {
        lemma_sort_elems(s.drop_last());
        let prev = sort_terms(s.drop_last());
        let x = s.last();
        let p = insert_pos(prev, x, 0);
        lemma_insert_pos_bound(prev, x, 0);
        prev.insert_ensures(p, x);
        assert forall|i: int| 0 <= i < sort_terms(s).len() implies s.contains(
            #[trigger] sort_terms(s)[i],
        ) by {
            let r = sort_terms(s);
            if i == p {
                assert(s[s.len() - 1] == x);
            } else {
                let k = if i < p {
                    i
                } else {
                    i - 1
                };
                assert(r[i] == prev[k]);
                assert(s.drop_last().contains(prev[k]));
                let j = choose|j: int| 0 <= j < s.drop_last().len() && s.drop_last()[j] == prev[k];
                assert(s[j] == prev[k]);
            }
        }
    }
}

// ---------------------------------------------------------------------
// Flattening a balanced tree
// ---------------------------------------------------------------------
proof fn lemma_flat_add_terms(e: SpecExpr)
    ensures
        forall|i: int| 0 <= i < flat_add(e).len() ==> !(#[trigger] flat_add(e)[i] is Add),
    decreases e,
{
    if let SpecExpr::Add(l, r) = e {
        lemma_flat_add_terms(*l);
        lemma_flat_add_terms(*r);
        assert forall|i: int| 0 <= i < flat_add(e).len() implies !(#[trigger] flat_add(e)[i] is Add) by {
            if i < flat_add(*l).len() {
                assert(flat_add(e)[i] == flat_add(*l)[i]);
            } else {
                assert(flat_add(e)[i] == flat_add(*r)[i - flat_add(*l).len()]);
            }
        }
    }
}

proof fn lemma_flat_mul_terms(e: SpecExpr)
    ensures
        forall|i: int| 0 <= i < flat_mul(e).len() ==> !(#[trigger] flat_mul(e)[i] is Mul),
    decreases e,
{
    if let SpecExpr::Mul(l, r) = e {
        lemma_flat_mul_terms(*l);
        lemma_flat_mul_terms(*r);
        assert forall|i: int| 0 <= i < flat_mul(e).len() implies !(#[trigger] flat_mul(e)[i] is Mul) by {
            if i < flat_mul(*l).len() {
                assert(flat_mul(e)[i] == flat_mul(*l)[i]);
            } else {
                assert(flat_mul(e)[i] == flat_mul(*r)[i - flat_mul(*l).len()]);
            }
        }
    }
}

proof fn lemma_flat_balanced_add(ts: Seq<SpecExpr>)
    requires
        ts.len() >= 1,
        forall|i: int| 0 <= i < ts.len() ==> !(#[trigger] ts[i] is Add),
    ensures
        flat_add(balanced_add(ts)) == ts,
    decreases ts.len(),
{
    if ts.len() == 1 {
        assert(flat_add(ts[0]) =~= ts);
    } else {
        let mid = ts.len() / 2;
        let a = ts.subrange(0, mid as int);
        let b = ts.subrange(mid as int, ts.len() as int);
        assert forall|i: int| 0 <= i < a.len() implies !(#[trigger] a[i] is Add) by {
            assert(a[i] == ts[i]);
        }
        assert forall|i: int| 0 <= i < b.len() implies !(#[trigger] b[i] is Add) by {
            assert(b[i] == ts[mid + i]);
        }
        lemma_flat_balanced_add(a);
        lemma_flat_balanced_add(b);
        assert(a + b =~= ts);
    }
}

proof fn lemma_flat_balanced_mul(ts: Seq<SpecExpr>)
    requires
        ts.len() >= 1,
        forall|i: int| 0 <= i < ts.len() ==> !(#[trigger] ts[i] is Mul),
    ensures
        flat_mul(balanced_mul(ts)) == ts,
    decreases ts.len(),
{
    if ts.len() == 1 {
        assert(flat_mul(ts[0]) =~= ts);
    } else {
        let mid = ts.len() / 2;
        let a = ts.subrange(0, mid as int);
        let b = ts.subrange(mid as int, ts.len() as int);
        assert forall|i: int| 0 <= i < a.len() implies !(#[trigger] a[i] is Mul) by {
            assert(a[i] == ts[i]);
        }
        assert forall|i: int| 0 <= i < b.len() implies !(#[trigger] b[i] is Mul) by {
            assert(b[i] == ts[mid + i]);
        }
        lemma_flat_balanced_mul(a);
        lemma_flat_balanced_mul(b);
        assert(a + b =~= ts);
    }
}

// ---------------------------------------------------------------------
// Fixed points
// ---------------------------------------------------------------------
/// Normalization leaves `e` unchanged.
pub open spec fn is_normal(e: SpecExpr) -> bool {
    normalize(e) == e
}

/// Sorted non-sum terms, each a fixed point.
pub open spec fn add_terms_ok(ts: Seq<SpecExpr>) -> bool {
    &&& keys_sorted(ts)
    &&& forall|i: int| 0 <= i < ts.len() ==> !(#[trigger] ts[i] is Add) && is_normal(ts[i])
}

/// Sorted non-product factors, each a fixed point.
pub open spec fn mul_terms_ok(ts: Seq<SpecExpr>) -> bool {
    &&& keys_sorted(ts)
    &&& forall|i: int| 0 <= i < ts.len() ==> !(#[trigger] ts[i] is Mul) && is_normal(ts[i])
}

proof fn lemma_halves_sorted(ts: Seq<SpecExpr>, lo: int, hi: int)
    requires
        keys_sorted(ts),
        0 <= lo <= hi <= ts.len(),
    ensures
        keys_sorted(ts.subrange(lo, hi)),
{
    let t = ts.subrange(lo, hi);
    assert forall|i: int, j: int| 0 <= i < j < t.len() implies !seq_lt(
        sort_key(#[trigger] t[j]),
        sort_key(#[trigger] t[i]),
    ) by {
        assert(t[i] == ts[lo + i] && t[j] == ts[lo + j]);
    }
}

/// A balanced sum of sorted fixed-point terms is a fixed point.
proof fn lemma_balanced_add_fixed(ts: Seq<SpecExpr>)
    requires
        ts.len() >= 1,
        add_terms_ok(ts),
    ensures
        is_normal(balanced_add(ts)),
    decreases ts.len(),
{
    if ts.len() > 1 {
        let mid = ts.len() / 2;
        let a = ts.subrange(0, mid as int);
        let b = ts.subrange(mid as int, ts.len() as int);
        lemma_halves_sorted(ts, 0, mid as int);
        lemma_halves_sorted(ts, mid as int, ts.len() as int);
        assert forall|i: int| 0 <= i < a.len() implies !(#[trigger] a[i] is Add) && is_normal(a[i]) by {
            assert(a[i] == ts[i]);
        }
        assert forall|i: int| 0 <= i < b.len() implies !(#[trigger] b[i] is Add) && is_normal(b[i]) by {
            assert(b[i] == ts[mid + i]);
        }
        lemma_balanced_add_fixed(a);
        lemma_balanced_add_fixed(b);
        lemma_flat_balanced_add(a);
        lemma_flat_balanced_add(b);
        assert(a + b =~= ts);
        lemma_sort_of_sorted(ts);
    }
}

/// A balanced product of sorted fixed-point factors is a fixed point.
proof fn lemma_balanced_mul_fixed(ts: Seq<SpecExpr>)
    requires
        ts.len() >= 1,
        mul_terms_ok(ts),
    ensures
        is_normal(balanced_mul(ts)),
    decreases ts.len(),
{
    if ts.len() > 1 {
        let mid = ts.len() / 2;
        let a = ts.subrange(0, mid as int);
        let b = ts.subrange(mid as int, ts.len() as int);
        lemma_halves_sorted(ts, 0, mid as int);
        lemma_halves_sorted(ts, mid as int, ts.len() as int);
        assert forall|i: int| 0 <= i < a.len() implies !(#[trigger] a[i] is Mul) && is_normal(a[i]) by {
            assert(a[i] == ts[i]);
        }
        assert forall|i: int| 0 <= i < b.len() implies !(#[trigger] b[i] is Mul) && is_normal(b[i]) by {
            assert(b[i] == ts[mid + i]);
        }
        lemma_balanced_mul_fixed(a);
        lemma_balanced_mul_fixed(b);
        lemma_flat_balanced_mul(a);
        lemma_flat_balanced_mul(b);
        assert(a + b =~= ts);
        lemma_sort_of_sorted(ts);
    }
}

/// The terms of `c` are non-sums (non-products with `add` false) and fixed
/// points; so are those of its sorted order.
proof fn lemma_sorted_terms_ok(c: Seq<SpecExpr>, add: bool)
    requires
        forall|i: int|
            0 <= i < c.len() ==> (if add {
                !(#[trigger] c[i] is Add)
            } else {
                !(c[i] is Mul)
            }) && is_normal(c[i]),
    ensures
        add ==> add_terms_ok(sort_terms(c)),
        !add ==> mul_terms_ok(sort_terms(c)),
        sort_terms(c).len() == c.len(),
{
    lemma_sort_sorted(c);
    lemma_sort_elems(c);
    let s = sort_terms(c);
    assert forall|i: int| 0 <= i < s.len() implies (if add {
        !(#[trigger] s[i] is Add)
    } else {
        !(s[i] is Mul)
    }) && is_normal(s[i]) by {
        assert(c.contains(s[i]));
        let j = choose|j: int| 0 <= j < c.len() && c[j] == s[i];
        assert(c[j] == s[i]);
    }
}

/// Normalization yields a fixed point whose terms and factors are fixed
/// points.
proof fn lemma_normal_closed(e: SpecExpr)
    ensures
        is_normal(normalize(e)),
        forall|i: int|
            0 <= i < flat_add(normalize(e)).len() ==> is_normal(#[trigger] flat_add(normalize(e))[i]),
        forall|i: int|
            0 <= i < flat_mul(normalize(e)).len() ==> is_normal(#[trigger] flat_mul(normalize(e))[i]),
    decreases e,
{
    match e {
        SpecExpr::Var(_) => {
            assert(flat_add(e) =~= seq![e]);
            assert(flat_mul(e) =~= seq![e]);
        },
        SpecExpr::Add(l, r) => {
            lemma_normal_closed(*l);
            lemma_normal_closed(*r);
            let fl = flat_add(normalize(*l));
            let fr = flat_add(normalize(*r));
            let c = fl + fr;
            lemma_flat_add_terms(normalize(*l));
            lemma_flat_add_terms(normalize(*r));
            lemma_flat_nonempty(normalize(*l));
            lemma_flat_nonempty(normalize(*r));
            assert forall|i: int| 0 <= i < c.len() implies !(#[trigger] c[i] is Add) && is_normal(c[i]) by {
                if i < fl.len() {
                    assert(c[i] == fl[i]);
                } else {
                    assert(c[i] == fr[i - fl.len()]);
                }
            }
            lemma_sorted_terms_ok(c, true);
            let s = sort_terms(c);
            lemma_balanced_add_fixed(s);
            assert forall|i: int| 0 <= i < s.len() implies !(#[trigger] s[i] is Add) by {}
            lemma_flat_balanced_add(s);
            let n = balanced_add(s);
            assert(normalize(e) == n);
            assert(n is Add);
            assert(flat_mul(n) =~= seq![n]);
        },
        SpecExpr::Mul(l, r) => {
            lemma_normal_closed(*l);
            lemma_normal_closed(*r);
            let fl = flat_mul(normalize(*l));
            let fr = flat_mul(normalize(*r));
            let c = fl + fr;
            lemma_flat_mul_terms(normalize(*l));
            lemma_flat_mul_terms(normalize(*r));
            lemma_flat_nonempty(normalize(*l));
            lemma_flat_nonempty(normalize(*r));
            assert forall|i: int| 0 <= i < c.len() implies !(#[trigger] c[i] is Mul) && is_normal(c[i]) by {
                if i < fl.len() {
                    assert(c[i] == fl[i]);
                } else {
                    assert(c[i] == fr[i - fl.len()]);
                }
            }
            lemma_sorted_terms_ok(c, false);
            let s = sort_terms(c);
            lemma_balanced_mul_fixed(s);
            assert forall|i: int| 0 <= i < s.len() implies !(#[trigger] s[i] is Mul) by {}
            lemma_flat_balanced_mul(s);
            let n = balanced_mul(s);
            assert(normalize(e) == n);
            assert(n is Mul);
            assert(flat_add(n) =~= seq![n]);
        },
    }
}

/// Normalization is idempotent: the normal form of a normal form is itself.
pub proof fn lemma_normalize_idempotent(e: SpecExpr)
    ensures
        normalize(normalize(e)) == normalize(e),
{
    lemma_normal_closed(e);
}

// ---------------------------------------------------------------------
// Sorting depends only on the terms, when keys tell terms apart
// ---------------------------------------------------------------------
proof fn lemma_lt_total(a: Seq<char>, b: Seq<char>)
    requires
        a != b,
    ensures
        seq_lt(a, b) || seq_lt(b, a),
    decreases a.len(),
{
    if a.len() == 0 && b.len() == 0 {
        assert(a =~= b);
    } else if a.len() > 0 && b.len() > 0 && a[0] == b[0] {
        let a1 = a.drop_first();
        let b1 = b.drop_first();
        if a1 =~= b1 {
            assert(a =~= seq![a[0]] + a1);
            assert(b =~= seq![b[0]] + b1);
        } else {
            lemma_lt_total(a.drop_first(), b.drop_first());
        }
    }
}

/// No two different terms share a sort key.
pub open spec fn keys_determine_terms(s: Seq<SpecExpr>) -> bool {
    forall|i: int, j: int|
        0 <= i < s.len() && 0 <= j < s.len() && sort_key(#[trigger] s[i]) == sort_key(#[trigger] s[j])
            ==> s[i] == s[j]
}

proof fn lemma_sort_multiset(s: Seq<SpecExpr>)
    ensures
        sort_terms(s).to_multiset() == s.to_multiset(),
    decreases s.len(),
{
    if s.len() > 0 {
        lemma_sort_multiset(s.drop_last());
        let prev = sort_terms(s.drop_last());
        let p = insert_pos(prev, s.last(), 0);
        lemma_insert_pos_bound(prev, s.last(), 0);
        vstd::seq_lib::to_multiset_insert(prev, p, s.last());
        assert(sort_terms(s) == prev.insert(p, s.last()));
        assert(s.drop_last().push(s.last()) =~= s);
        vstd::seq_lib::to_multiset_build(s.drop_last(), s.last());
        assert(s.to_multiset() == s.drop_last().to_multiset().insert(s.last()));
        assert(prev.to_multiset() == s.drop_last().to_multiset());
        assert(prev.insert(p, s.last()).to_multiset() == prev.to_multiset().insert(s.last()));
    } else {
        assert(sort_terms(s) =~= s);
    }
}

/// Terms with the same multiset share the key property.
proof fn lemma_determine_transfer(s1: Seq<SpecExpr>, s2: Seq<SpecExpr>)
    requires
        s1.to_multiset() == s2.to_multiset(),
        keys_determine_terms(s2),
    ensures
        keys_determine_terms(s1),
{
    assert forall|i: int, j: int|
        0 <= i < s1.len() && 0 <= j < s1.len() && sort_key(#[trigger] s1[i]) == sort_key(
            #[trigger] s1[j],
        ) implies s1[i] == s1[j] by {
        vstd::seq_lib::to_multiset_contains(s1, s1[i]);
        vstd::seq_lib::to_multiset_contains(s1, s1[j]);
        vstd::seq_lib::to_multiset_contains(s2, s1[i]);
        vstd::seq_lib::to_multiset_contains(s2, s1[j]);
        assert(s1.contains(s1[i]) && s1.contains(s1[j]));
        let a = choose|a: int| 0 <= a < s2.len() && s2[a] == s1[i];
        let b = choose|b: int| 0 <= b < s2.len() && s2[b] == s1[j];
        assert(s2[a] == s1[i] && s2[b] == s1[j]);
    }
}

/// Two sorted sequences of the same terms, whose keys tell terms apart,
/// are equal.
proof fn lemma_sorted_unique(x: Seq<SpecExpr>, y: Seq<SpecExpr>)
    requires
        keys_sorted(x),
        keys_sorted(y),
        x.to_multiset() == y.to_multiset(),
        keys_determine_terms(x),
    ensures
        x == y,
    decreases x.len(),
{
    vstd::seq_lib::to_multiset_len(x);
    vstd::seq_lib::to_multiset_len(y);
    if x.len() > 0 {
        vstd::seq_lib::to_multiset_contains(x, y[0]);
        vstd::seq_lib::to_multiset_contains(y, y[0]);
        vstd::seq_lib::to_multiset_contains(x, x[0]);
        vstd::seq_lib::to_multiset_contains(y, x[0]);
        assert(y.contains(y[0]) && x.contains(x[0]));
        let k = choose|k: int| 0 <= k < x.len() && x[k] == y[0];
        let m = choose|m: int| 0 <= m < y.len() && y[m] == x[0];
        assert(x[k] == y[0] && y[m] == x[0]);
        if sort_key(x[k]) != sort_key(x[0]) {
            lemma_lt_total(sort_key(x[k]), sort_key(x[0]));
            if k > 0 {
                assert(!seq_lt(sort_key(x[k]), sort_key(x[0])));
            }
            if m > 0 {
                assert(!seq_lt(sort_key(y[m]), sort_key(y[0])));
            }
            if k == 0 {
                assert(false);
            }
        }
        assert(x[0] == y[0]);
        let x1 = x.drop_first();
        let y1 = y.drop_first();
        vstd::seq_lib::to_multiset_remove(x, 0);
        vstd::seq_lib::to_multiset_remove(y, 0);
        assert(x.remove(0) =~= x1);
        assert(y.remove(0) =~= y1);
        lemma_halves_sorted(x, 1, x.len() as int);
        lemma_halves_sorted(y, 1, y.len() as int);
        assert(x.subrange(1, x.len() as int) =~= x1);
        assert(y.subrange(1, y.len() as int) =~= y1);
        assert(keys_determine_terms(x1)) by {
            assert forall|i: int, j: int|
                0 <= i < x1.len() && 0 <= j < x1.len() && sort_key(#[trigger] x1[i]) == sort_key(
                    #[trigger] x1[j],
                ) implies x1[i] == x1[j] by {
                assert(x1[i] == x[i + 1] && x1[j] == x[j + 1]);
            }
        }
        lemma_sorted_unique(x1, y1);
        assert forall|i: int| 0 <= i < x.len() implies x[i] == y[i] by {
            if i > 0 {
                assert(x[i] == x1[i - 1] && y[i] == y1[i - 1]);
            }
        }
        assert(x =~= y);
    }
}

/// Sorting terms gives the same order for any arrangement of the same
/// terms, when their keys tell them apart.
proof fn lemma_sort_unique(s1: Seq<SpecExpr>, s2: Seq<SpecExpr>)
    requires
        s1.to_multiset() == s2.to_multiset(),
        keys_determine_terms(s1),
    ensures
        sort_terms(s1) == sort_terms(s2),
{
    lemma_sort_multiset(s1);
    lemma_sort_multiset(s2);
    lemma_sort_sorted(s1);
    lemma_sort_sorted(s2);
    lemma_determine_transfer(sort_terms(s1), s1);
    lemma_sorted_unique(sort_terms(s1), sort_terms(s2));
}

// ---------------------------------------------------------------------
// Commutativity and associativity
// ---------------------------------------------------------------------
/// The terms of a normalized sum are the sorted terms of its operands.
proof fn lemma_flat_normal_add(a: SpecExpr, b: SpecExpr)
    ensures
        flat_add(normalize(SpecExpr::Add(Box::new(a), Box::new(b)))) == sort_terms(
            flat_add(normalize(a)) + flat_add(normalize(b)),
        ),
{
    let fa = flat_add(normalize(a));
    let fb = flat_add(normalize(b));
    let c = fa + fb;
    lemma_flat_add_terms(normalize(a));
    lemma_flat_add_terms(normalize(b));
    lemma_flat_nonempty(normalize(a));
    assert forall|i: int| 0 <= i < c.len() implies !(#[trigger] c[i] is Add) by {
        if i < fa.len() {
            assert(c[i] == fa[i]);
        } else {
            assert(c[i] == fb[i - fa.len()]);
        }
    }
    lemma_sort_elems(c);
    let s = sort_terms(c);
    assert forall|i: int| 0 <= i < s.len() implies !(#[trigger] s[i] is Add) by {
        assert(c.contains(s[i]));
        let j = choose|j: int| 0 <= j < c.len() && c[j] == s[i];
        assert(c[j] == s[i]);
    }
    lemma_flat_balanced_add(s);
}

/// The factors of a normalized product are the sorted factors of its
/// operands.
proof fn lemma_flat_normal_mul(a: SpecExpr, b: SpecExpr)
    ensures
        flat_mul(normalize(SpecExpr::Mul(Box::new(a), Box::new(b)))) == sort_terms(
            flat_mul(normalize(a)) + flat_mul(normalize(b)),
        ),
{
    let fa = flat_mul(normalize(a));
    let fb = flat_mul(normalize(b));
    let c = fa + fb;
    lemma_flat_mul_terms(normalize(a));
    lemma_flat_mul_terms(normalize(b));
    lemma_flat_nonempty(normalize(a));
    assert forall|i: int| 0 <= i < c.len() implies !(#[trigger] c[i] is Mul) by {
        if i < fa.len() {
            assert(c[i] == fa[i]);
        } else {
            assert(c[i] == fb[i - fa.len()]);
        }
    }
    lemma_sort_elems(c);
    let s = sort_terms(c);
    assert forall|i: int| 0 <= i < s.len() implies !(#[trigger] s[i] is Mul) by {
        assert(c.contains(s[i]));
        let j = choose|j: int| 0 <= j < c.len() && c[j] == s[i];
        assert(c[j] == s[i]);
    }
    lemma_flat_balanced_mul(s);
}

/// Swapping the operands of a sum or of a product leaves its normal form
/// unchanged, provided no two different terms of the sum (factors of the
/// product) share a sort key, as `x1` and `x01` do.
pub proof fn lemma_normalize_commutes(a: SpecExpr, b: SpecExpr)
    ensures
        keys_determine_terms(flat_add(normalize(a)) + flat_add(normalize(b))) ==> normalize(
            SpecExpr::Add(Box::new(a), Box::new(b)),
        ) == normalize(SpecExpr::Add(Box::new(b), Box::new(a))),
        keys_determine_terms(flat_mul(normalize(a)) + flat_mul(normalize(b))) ==> normalize(
            SpecExpr::Mul(Box::new(a), Box::new(b)),
        ) == normalize(SpecExpr::Mul(Box::new(b), Box::new(a))),
{
    let fa = flat_add(normalize(a));
    let fb = flat_add(normalize(b));
    vstd::seq_lib::lemma_seq_union_to_multiset_commutative(fa, fb);
    if keys_determine_terms(fa + fb) {
        lemma_sort_unique(fa + fb, fb + fa);
    }
    let ga = flat_mul(normalize(a));
    let gb = flat_mul(normalize(b));
    vstd::seq_lib::lemma_seq_union_to_multiset_commutative(ga, gb);
    if keys_determine_terms(ga + gb) {
        lemma_sort_unique(ga + gb, gb + ga);
    }
}

proof fn lemma_regroup(fa: Seq<SpecExpr>, fb: Seq<SpecExpr>, fc: Seq<SpecExpr>)
    requires
        keys_determine_terms(fa + fb + fc),
    ensures
        sort_terms(sort_terms(fa + fb) + fc) == sort_terms(fa + sort_terms(fb + fc)),
{
    let left = sort_terms(fa + fb) + fc;
    let right = fa + sort_terms(fb + fc);
    let all = fa + fb + fc;
    lemma_sort_multiset(fa + fb);
    lemma_sort_multiset(fb + fc);
    vstd::seq_lib::lemma_multiset_commutative(sort_terms(fa + fb), fc);
    vstd::seq_lib::lemma_multiset_commutative(fa + fb, fc);
    vstd::seq_lib::lemma_multiset_commutative(fa, fb);
    vstd::seq_lib::lemma_multiset_commutative(fa, sort_terms(fb + fc));
    vstd::seq_lib::lemma_multiset_commutative(fb, fc);
    assert(left.to_multiset() =~= all.to_multiset());
    assert(right.to_multiset() =~= all.to_multiset());
    lemma_determine_transfer(left, all);
    lemma_sort_unique(left, right);
}

/// Regrouping a sum of three operands, or a product of three, leaves its
/// normal form unchanged, provided no two different terms (factors) of it
/// share a sort key.
pub proof fn lemma_normalize_associates(a: SpecExpr, b: SpecExpr, c: SpecExpr)
    ensures
        keys_determine_terms(
            flat_add(normalize(a)) + flat_add(normalize(b)) + flat_add(normalize(c)),
        ) ==> normalize(
            SpecExpr::Add(Box::new(SpecExpr::Add(Box::new(a), Box::new(b))), Box::new(c)),
        ) == normalize(
            SpecExpr::Add(Box::new(a), Box::new(SpecExpr::Add(Box::new(b), Box::new(c)))),
        ),
        keys_determine_terms(
            flat_mul(normalize(a)) + flat_mul(normalize(b)) + flat_mul(normalize(c)),
        ) ==> normalize(
            SpecExpr::Mul(Box::new(SpecExpr::Mul(Box::new(a), Box::new(b))), Box::new(c)),
        ) == normalize(
            SpecExpr::Mul(Box::new(a), Box::new(SpecExpr::Mul(Box::new(b), Box::new(c)))),
        ),
{
    lemma_flat_normal_add(a, b);
    lemma_flat_normal_add(b, c);
    let fa = flat_add(normalize(a));
    let fb = flat_add(normalize(b));
    let fc = flat_add(normalize(c));
    if keys_determine_terms(fa + fb + fc) {
        lemma_regroup(fa, fb, fc);
    }
    lemma_flat_normal_mul(a, b);
    lemma_flat_normal_mul(b, c);
    let ga = flat_mul(normalize(a));
    let gb = flat_mul(normalize(b));
    let gc = flat_mul(normalize(c));
    if keys_determine_terms(ga + gb + gc) {
        lemma_regroup(ga, gb, gc);
    }
}

} // verus!
