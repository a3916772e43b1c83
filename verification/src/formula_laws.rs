//! Laws of formulas as text: a parenthesized sum or product of accepted
//! formulas parses to the sum or product of their values, so the normal
//! form that `arithmetic_to_prefix` prints ignores the order and the
//! grouping of operands.
use vstd::prelude::*;
use crate::expr_parser::{
    digit_end, p_atom, p_expr, p_expr_rest, p_product, p_product_rest, prepend_token, tok_from,
    SpecExpr, SpecToken,
};
use crate::normal_form::{keys_determine_terms, lemma_normalize_associates, lemma_normalize_commutes};
use crate::expr_parser::{flat_add, flat_mul, normalize, prefix, spec_arithmetic_to_prefix};
use crate::parse_laws::{blanks, lemma_cut_char_concat, lemma_cut_char_none, lemma_trim_blanks};
use crate::text::{cut_at_char, is_digit, is_ws, trim, trim_end, trim_start};

verus! {

// ---------------------------------------------------------------------
// Tokens of a concatenation
// ---------------------------------------------------------------------
proof fn lemma_digit_end_shift(p: Seq<char>, q: Seq<char>, j: int)
    requires
        0 <= j <= q.len(),
    ensures
        digit_end(p + q, p.len() + j) == p.len() + digit_end(q, j),
    decreases q.len() - j,
{
    if j < q.len() {
        assert((p + q)[p.len() + j] == q[j]);
        if is_digit(q[j]) {
            lemma_digit_end_shift(p, q, j + 1);
        }
    }
}

proof fn lemma_tok_shift(p: Seq<char>, q: Seq<char>, k: int)
    requires
        0 <= k <= q.len(),
    ensures
        tok_from(p + q, p.len() + k) == tok_from(q, k),
    decreases q.len() - k,
{
    let s = p + q;
    if k < q.len() {
        assert(s[p.len() + k] == q[k]);
        if !is_ws(q[k]) && q[k] != '+' && q[k] != '*' && q[k] != '(' && q[k] != ')' && q[k] == 'x' {
            lemma_digit_end_shift(p, q, k + 1);
            crate::expr_parser::lemma_digit_end(q, k + 1);
            let j = digit_end(q, k + 1);
            if j > k + 1 && j <= q.len() {
                assert(s.subrange(p.len() + k, p.len() + j) =~= q.subrange(k, j));
                lemma_tok_shift(p, q, j);
            }
        } else {
            lemma_tok_shift(p, q, k + 1);
        }
    }
}

proof fn lemma_digit_end_prefix(p: Seq<char>, q: Seq<char>, j: int)
    requires
        0 <= j <= p.len(),
        q.len() == 0 || !is_digit(q[0]),
    ensures
        digit_end(p + q, j) == digit_end(p, j),
    decreases p.len() - j,
{
    if j < p.len() {
        assert((p + q)[j] == p[j]);
        if is_digit(p[j]) {
            lemma_digit_end_prefix(p, q, j + 1);
        }
    } else if q.len() > 0 {
        assert((p + q)[j] == q[0]);
    }
}

/// Accepted text followed by accepted text is tokenized piece by piece.
proof fn lemma_tok_concat(p: Seq<char>, q: Seq<char>, i: int)
    requires
        0 <= i <= p.len(),
        tok_from(p, i) is Ok,
        tok_from(q, 0) is Ok,
    ensures
        tok_from(p + q, i) == Ok::<Seq<SpecToken>, Seq<char>>(
            tok_from(p, i)->Ok_0 + tok_from(q, 0)->Ok_0,
        ),
    decreases p.len() - i,
{
    let s = p + q;
    let tq = tok_from(q, 0)->Ok_0;
    if q.len() > 0 && is_digit(q[0]) {
        assert(tok_from(q, 0) is Err);
    }
    if i == p.len() {
        lemma_tok_shift(p, q, 0);
        assert(Seq::<SpecToken>::empty() + tq =~= tq);
    } else {
        assert(s[i] == p[i]);
        let c = p[i];
        if is_ws(c) {
            lemma_tok_concat(p, q, i + 1);
        } else if c == '+' || c == '*' || c == '(' || c == ')' {
            lemma_tok_concat(p, q, i + 1);
            let tp1 = tok_from(p, i + 1)->Ok_0;
            let tk = if c == '+' {
                SpecToken::Plus
            } else if c == '*' {
                SpecToken::Star
            } else if c == '(' {
                SpecToken::LParen
            } else {
                SpecToken::RParen
            };
            assert(tok_from(p, i) == prepend_token(tk, tok_from(p, i + 1)));
            assert(seq![tk] + (tp1 + tq) =~= (seq![tk] + tp1) + tq);
        } else {
            assert(c == 'x');
            let j = digit_end(p, i + 1);
            lemma_digit_end_prefix(p, q, i + 1);
            crate::expr_parser::lemma_digit_end(p, i + 1);
            assert(s.subrange(i, j) =~= p.subrange(i, j));
            lemma_tok_concat(p, q, j);
            let tk = SpecToken::Var(p.subrange(i, j));
            let tp1 = tok_from(p, j)->Ok_0;
            assert(seq![tk] + (tp1 + tq) =~= (seq![tk] + tp1) + tq);
        }
    }
}

// ---------------------------------------------------------------------
// Parsing inside parentheses
// ---------------------------------------------------------------------
/// `ta` stands in `t` at `off`, followed by a `)`.
pub open spec fn embedded(t: Seq<SpecToken>, ta: Seq<SpecToken>, off: int) -> bool {
    &&& 0 <= off
    &&& off + ta.len() < t.len()
    &&& forall|i: int| 0 <= i < ta.len() ==> #[trigger] t[off + i] == ta[i]
    &&& t[off + ta.len()] is RParen
}

/// A parse that ends within `lo..=hi`.
pub open spec fn ends_within(r: Result<(SpecExpr, int), Seq<char>>, lo: int, hi: int) -> bool {
    r matches Ok((e, k)) ==> lo <= k <= hi
}

/// What parses in `ta` parses alike, shifted by `off`, in `t`.
pub open spec fn shifted(
    small: Result<(SpecExpr, int), Seq<char>>,
    big: Result<(SpecExpr, int), Seq<char>>,
    off: int,
) -> bool {
    small matches Ok((e, k)) ==> big == Ok::<(SpecExpr, int), Seq<char>>((e, k + off))
}

proof fn lemma_atom_embedded(t: Seq<SpecToken>, ta: Seq<SpecToken>, off: int, pos: int)
    requires
        embedded(t, ta, off),
        0 <= pos <= ta.len(),
    ensures
        ends_within(p_atom(ta, pos), pos + 1, ta.len() as int),
        shifted(p_atom(ta, pos), p_atom(t, off + pos), off),
    decreases ta.len() - pos, 0int,
{
    if pos < ta.len() {
        assert(t[off + pos] == ta[pos]);
        if ta[pos] is LParen {
            lemma_expr_embedded(t, ta, off, pos + 1);
            if let Ok((e, p)) = p_expr(ta, pos + 1) {
                if 0 <= p < ta.len() {
                    assert(t[off + p] == ta[p]);
                }
            }
        }
    }
}

proof fn lemma_product_rest_embedded(
    t: Seq<SpecToken>,
    ta: Seq<SpecToken>,
    off: int,
    pos: int,
    acc: SpecExpr,
)
    requires
        embedded(t, ta, off),
        0 <= pos <= ta.len(),
    ensures
        ends_within(p_product_rest(ta, pos, acc), pos, ta.len() as int),
        shifted(p_product_rest(ta, pos, acc), p_product_rest(t, off + pos, acc), off),
    decreases ta.len() - pos, 1int,
{
    if pos < ta.len() {
        assert(t[off + pos] == ta[pos]);
        if ta[pos] is Star || ta[pos] is Var || ta[pos] is LParen {
            let start = if ta[pos] is Star {
                pos + 1
            } else {
                pos
            };
            lemma_atom_embedded(t, ta, off, start);
            if let Ok((rhs, p2)) = p_atom(ta, start) {
                if p2 > pos && p2 <= ta.len() {
                    lemma_product_rest_embedded(
                        t,
                        ta,
                        off,
                        p2,
                        SpecExpr::Mul(Box::new(acc), Box::new(rhs)),
                    );
                }
            }
        }
    }
}

proof fn lemma_product_embedded(t: Seq<SpecToken>, ta: Seq<SpecToken>, off: int, pos: int)
    requires
        embedded(t, ta, off),
        0 <= pos <= ta.len(),
    ensures
        ends_within(p_product(ta, pos), pos + 1, ta.len() as int),
        shifted(p_product(ta, pos), p_product(t, off + pos), off),
    decreases ta.len() - pos, 2int,
{
    lemma_atom_embedded(t, ta, off, pos);
    if let Ok((e1, p1)) = p_atom(ta, pos) {
        if p1 > pos && p1 <= ta.len() {
            lemma_product_rest_embedded(t, ta, off, p1, e1);
        }
    }
}

proof fn lemma_expr_rest_embedded(
    t: Seq<SpecToken>,
    ta: Seq<SpecToken>,
    off: int,
    pos: int,
    acc: SpecExpr,
)
    requires
        embedded(t, ta, off),
        0 <= pos <= ta.len(),
    ensures
        ends_within(p_expr_rest(ta, pos, acc), pos, ta.len() as int),
        shifted(p_expr_rest(ta, pos, acc), p_expr_rest(t, off + pos, acc), off),
    decreases ta.len() - pos, 3int,
{
    if pos < ta.len() {
        assert(t[off + pos] == ta[pos]);
        if ta[pos] is Plus {
            lemma_product_embedded(t, ta, off, pos + 1);
            if let Ok((rhs, p2)) = p_product(ta, pos + 1) {
                if p2 > pos && p2 <= ta.len() {
                    lemma_expr_rest_embedded(
                        t,
                        ta,
                        off,
                        p2,
                        SpecExpr::Add(Box::new(acc), Box::new(rhs)),
                    );
                }
            }
        }
    }
}

proof fn lemma_expr_embedded(t: Seq<SpecToken>, ta: Seq<SpecToken>, off: int, pos: int)
    requires
        embedded(t, ta, off),
        0 <= pos <= ta.len(),
    ensures
        ends_within(p_expr(ta, pos), pos + 1, ta.len() as int),
        shifted(p_expr(ta, pos), p_expr(t, off + pos), off),
    decreases ta.len() - pos, 3int,
{
    lemma_product_embedded(t, ta, off, pos);
    if let Ok((e1, p1)) = p_product(ta, pos) {
        if p1 > pos && p1 <= ta.len() {
            lemma_expr_rest_embedded(t, ta, off, p1, e1);
        }
    }
}

// ---------------------------------------------------------------------
// Sums and products of formulas
// ---------------------------------------------------------------------
/// `s` is an accepted formula of value `e`: it has tokens, and they parse
/// whole to `e`.
pub open spec fn formula_value(s: Seq<char>, e: SpecExpr) -> bool {
    &&& tok_from(s, 0) is Ok
    &&& tok_from(s, 0)->Ok_0.len() > 0
    &&& p_expr(tok_from(s, 0)->Ok_0, 0) == Ok::<(SpecExpr, int), Seq<char>>(
        (e, tok_from(s, 0)->Ok_0.len() as int),
    )
}

/// `(a)op(b)`.
pub open spec fn binary_text(a: Seq<char>, op: char, b: Seq<char>) -> Seq<char> {
    seq!['('] + a + seq![')', op, '('] + b + seq![')']
}

/// The value of `(a)op(b)`.
pub open spec fn binary_value(ea: SpecExpr, op: char, eb: SpecExpr) -> SpecExpr {
    if op == '+' {
        SpecExpr::Add(Box::new(ea), Box::new(eb))
    } else {
        SpecExpr::Mul(Box::new(ea), Box::new(eb))
    }
}

#[verifier::rlimit(60)]
proof fn lemma_binary_value(a: Seq<char>, b: Seq<char>, ea: SpecExpr, eb: SpecExpr, op: char)
    requires
        formula_value(a, ea),
        formula_value(b, eb),
        op == '+' || op == '*',
    ensures
        formula_value(binary_text(a, op, b), binary_value(ea, op, eb)),
{
    let ta = tok_from(a, 0)->Ok_0;
    let tb = tok_from(b, 0)->Ok_0;
    let na = ta.len() as int;
    let nb = tb.len() as int;
    let l = seq!['('];
    let mid = seq![')', op, '('];
    let r = seq![')'];
    let top = if op == '+' {
        SpecToken::Plus
    } else {
        SpecToken::Star
    };
    // The literal pieces.
    assert(tok_from(l, 1) == Ok::<Seq<SpecToken>, Seq<char>>(seq![]));
    assert(tok_from(l, 0) == Ok::<Seq<SpecToken>, Seq<char>>(seq![SpecToken::LParen]));
    assert(tok_from(r, 1) == Ok::<Seq<SpecToken>, Seq<char>>(seq![]));
    assert(tok_from(r, 0) == Ok::<Seq<SpecToken>, Seq<char>>(seq![SpecToken::RParen]));
    assert(tok_from(mid, 3) == Ok::<Seq<SpecToken>, Seq<char>>(seq![]));
    assert(tok_from(mid, 2) == Ok::<Seq<SpecToken>, Seq<char>>(seq![SpecToken::LParen]));
    assert(mid[1] == op && mid[0] == ')' && mid[2] == '(');
    assert(!is_ws(op) && !is_ws(')'));
    assert(seq![top] + seq![SpecToken::LParen] =~= seq![top, SpecToken::LParen]);
    assert(seq![SpecToken::RParen] + seq![top, SpecToken::LParen] =~= seq![
        SpecToken::RParen,
        top,
        SpecToken::LParen,
    ]);
    assert(tok_from(mid, 1) == Ok::<Seq<SpecToken>, Seq<char>>(seq![top, SpecToken::LParen]));
    assert(tok_from(mid, 0) == Ok::<Seq<SpecToken>, Seq<char>>(
        seq![SpecToken::RParen, top, SpecToken::LParen],
    ));
    // The whole text, piece by piece.
    lemma_tok_concat(l, a, 0);
    lemma_tok_concat(l + a, mid, 0);
    lemma_tok_concat(l + a + mid, b, 0);
    lemma_tok_concat(l + a + mid + b, r, 0);
    let t = seq![SpecToken::LParen] + ta + seq![SpecToken::RParen, top, SpecToken::LParen] + tb
        + seq![SpecToken::RParen];
    assert(tok_from(binary_text(a, op, b), 0) == Ok::<Seq<SpecToken>, Seq<char>>(t)) by {
        assert(binary_text(a, op, b) == l + a + mid + b + r);
        assert(seq![SpecToken::LParen] + ta + seq![SpecToken::RParen, top, SpecToken::LParen] + tb
            + seq![SpecToken::RParen] =~= t);
    }
    let len = 5 + na + nb;
    assert(t.len() == len);
    assert(t[0] is LParen);
    assert(t[1 + na] is RParen);
    assert(t[2 + na] == top);
    assert(t[3 + na] is LParen);
    assert(t[4 + na + nb] is RParen);
    assert(embedded(t, ta, 1)) by {
        assert forall|i: int| 0 <= i < ta.len() implies #[trigger] t[1 + i] == ta[i] by {}
    }
    assert(embedded(t, tb, 4 + na)) by {
        assert forall|i: int| 0 <= i < tb.len() implies #[trigger] t[4 + na + i] == tb[i] by {}
    }
    lemma_expr_embedded(t, ta, 1, 0);
    lemma_expr_embedded(t, tb, 4 + na, 0);
    // `(a)` and `(b)` are atoms.
    assert(p_expr(t, 1) == Ok::<(SpecExpr, int), Seq<char>>((ea, 1 + na)));
    assert(p_atom(t, 0) == Ok::<(SpecExpr, int), Seq<char>>((ea, 2 + na)));
    assert(p_expr(t, 4 + na) == Ok::<(SpecExpr, int), Seq<char>>((eb, 4 + na + nb)));
    assert(p_atom(t, 3 + na) == Ok::<(SpecExpr, int), Seq<char>>((eb, len)));
    assert(p_product_rest(t, len, eb) == Ok::<(SpecExpr, int), Seq<char>>((eb, len)));
    let v = binary_value(ea, op, eb);
    assert(p_expr_rest(t, len, v) == Ok::<(SpecExpr, int), Seq<char>>((v, len)));
    if op == '+' {
        assert(p_product_rest(t, 2 + na, ea) == Ok::<(SpecExpr, int), Seq<char>>((ea, 2 + na)));
        assert(p_product(t, 0) == Ok::<(SpecExpr, int), Seq<char>>((ea, 2 + na)));
        assert(p_product(t, 3 + na) == Ok::<(SpecExpr, int), Seq<char>>((eb, len)));
        assert(p_expr_rest(t, 2 + na, ea) == Ok::<(SpecExpr, int), Seq<char>>((v, len)));
    } else {
        assert(p_product_rest(t, len, v) == Ok::<(SpecExpr, int), Seq<char>>((v, len)));
        assert(p_product_rest(t, 2 + na, ea) == Ok::<(SpecExpr, int), Seq<char>>((v, len)));
        assert(p_product(t, 0) == Ok::<(SpecExpr, int), Seq<char>>((v, len)));
    }
    assert(p_expr(t, 0) == Ok::<(SpecExpr, int), Seq<char>>((v, len)));
}

/// `f = s`.
pub open spec fn assignment(f: Seq<char>, s: Seq<char>) -> Seq<char> {
    f + seq![' ', '=', ' '] + s
}

/// What `arithmetic_to_prefix` gives for `f = s`, where `s` is an accepted
/// formula of value `e` in parentheses, depends on `s` only through the
/// normal form of `e`.
proof fn lemma_assignment_prefix(f: Seq<char>, s: Seq<char>, e: SpecExpr)
    requires
        forall|k: int| 0 <= k < f.len() ==> #[trigger] f[k] != '=',
        formula_value(s, e),
        s.len() > 0,
        s[0] == '(',
        s.last() == ')',
    ensures
        spec_arithmetic_to_prefix(assignment(f, s)) == if trim(f).len() == 0 {
            Err::<(Seq<char>, Seq<char>), Seq<char>>("Missing output name before '='."@)
        } else {
            Ok::<(Seq<char>, Seq<char>), Seq<char>>((trim(f), prefix(normalize(e))))
        },
{
    let input = assignment(f, s);
    let rest = seq![' ', '=', ' '] + s;
    assert(input =~= f + rest);
    lemma_cut_char_none(f, '=');
    lemma_cut_char_concat(f, rest, '=');
    assert(rest[0] == ' ' && rest[1] == '=');
    assert(cut_at_char(rest.drop_first(), '=') == Seq::<char>::empty());
    assert(cut_at_char(rest, '=') == seq![rest[0]] + cut_at_char(rest.drop_first(), '='));
    let cut = cut_at_char(input, '=');
    assert(cut =~= f + seq![' ']);
    assert(is_ws(' '));
    assert(blanks(seq![' ']));
    lemma_trim_blanks(f, seq![' ']);
    let after = input.subrange(cut.len() + 1 as int, input.len() as int);
    assert(after =~= seq![' '] + s);
    assert(!is_ws('(') && !is_ws(')'));
    assert((seq![' '] + s).drop_first() =~= s);
    assert(trim_start(seq![' '] + s) == trim_start(s));
    assert(trim_start(s) == s);
    assert(trim_end(s) == s);
    assert(trim(after) == s);
}

/// Swapping the operands of `(a)+(b)`, or of `(a)*(b)`, leaves what
/// `arithmetic_to_prefix` prints for `f = ...` unchanged, for accepted
/// formulas `a`, `b` and a name `f` without `=`, provided no two different
/// terms (factors) of the sum (product) share a sort key, as `x1` and
/// `x01` do.
pub proof fn lemma_prefix_commutes(
    f: Seq<char>,
    a: Seq<char>,
    b: Seq<char>,
    ea: SpecExpr,
    eb: SpecExpr,
    op: char,
)
    requires
        forall|k: int| 0 <= k < f.len() ==> #[trigger] f[k] != '=',
        formula_value(a, ea),
        formula_value(b, eb),
        op == '+' ==> keys_determine_terms(flat_add(normalize(ea)) + flat_add(normalize(eb))),
        op == '*' ==> keys_determine_terms(flat_mul(normalize(ea)) + flat_mul(normalize(eb))),
        op == '+' || op == '*',
    ensures
        spec_arithmetic_to_prefix(assignment(f, binary_text(a, op, b))) == spec_arithmetic_to_prefix(
            assignment(f, binary_text(b, op, a)),
        ),
{
    lemma_binary_value(a, b, ea, eb, op);
    lemma_binary_value(b, a, eb, ea, op);
    lemma_assignment_prefix(f, binary_text(a, op, b), binary_value(ea, op, eb));
    lemma_assignment_prefix(f, binary_text(b, op, a), binary_value(eb, op, ea));
    lemma_normalize_commutes(ea, eb);
}

/// Regrouping `((a)+(b))+(c)` as `(a)+((b)+(c))`, or the same for `*`,
/// leaves what `arithmetic_to_prefix` prints for `f = ...` unchanged, for
/// accepted formulas `a`, `b`, `c` and a name `f` without `=`, provided no
/// two different terms (factors) share a sort key.
pub proof fn lemma_prefix_associates(
    f: Seq<char>,
    a: Seq<char>,
    b: Seq<char>,
    c: Seq<char>,
    ea: SpecExpr,
    eb: SpecExpr,
    ec: SpecExpr,
    op: char,
)
    requires
        forall|k: int| 0 <= k < f.len() ==> #[trigger] f[k] != '=',
        formula_value(a, ea),
        formula_value(b, eb),
        formula_value(c, ec),
        op == '+' ==> keys_determine_terms(
            flat_add(normalize(ea)) + flat_add(normalize(eb)) + flat_add(normalize(ec)),
        ),
        op == '*' ==> keys_determine_terms(
            flat_mul(normalize(ea)) + flat_mul(normalize(eb)) + flat_mul(normalize(ec)),
        ),
        op == '+' || op == '*',
    ensures
        spec_arithmetic_to_prefix(assignment(f, binary_text(binary_text(a, op, b), op, c)))
            == spec_arithmetic_to_prefix(assignment(f, binary_text(a, op, binary_text(b, op, c)))),
{
    lemma_binary_value(a, b, ea, eb, op);
    lemma_binary_value(b, c, eb, ec, op);
    let ab = binary_text(a, op, b);
    let bc = binary_text(b, op, c);
    lemma_binary_value(ab, c, binary_value(ea, op, eb), ec, op);
    lemma_binary_value(a, bc, ea, binary_value(eb, op, ec), op);
    lemma_assignment_prefix(
        f,
        binary_text(ab, op, c),
        binary_value(binary_value(ea, op, eb), op, ec),
    );
    lemma_assignment_prefix(
        f,
        binary_text(a, op, bc),
        binary_value(ea, op, binary_value(eb, op, ec)),
    );
    lemma_normalize_associates(ea, eb, ec);
}

} // verus!
