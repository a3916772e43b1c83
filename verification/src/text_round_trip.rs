//! The text that `dag_to_text` prints is read back by `ProgramDag::parse`
//! as the same program, provided that every symbol prints as one plain
//! word.
use vstd::prelude::*;
use crate::dag::{dag_text, dag_wf, key_children, key_line, nodes_text, refs_text, SpecKey};
use crate::dag_parser::{
    clean_line, empty_state, find_name, lemma_find_name, lemma_parse_outputs, node_def,
    output_decl, parse_line, parse_lines, resolve_outputs, rhs_node, spec_parse, state_wf,
    ParseState,
};
use crate::text::{
    all_digits, cut_at_char, cut_at_slashes, digit_char, digit_val, digits_value, int_text,
    is_digit, is_ws, lines_acc, nat_digits, parse_i64, spec_lines, strip_cr, trim, trim_end,
    trim_start, words, words_acc,
};

verus! {

// ---------------------------------------------------------------------
// Lines
// ---------------------------------------------------------------------
/// The lines, each followed by a line break.
pub open spec fn joined(ls: Seq<Seq<char>>) -> Seq<char>
    decreases ls.len(),
{
    if ls.len() == 0 {
        seq![]
    } else {
        ls[0] + seq!['\n'] + joined(ls.drop_first())
    }
}

proof fn lemma_joined_push(ls: Seq<Seq<char>>, x: Seq<char>)
    ensures
        joined(ls.push(x)) == joined(ls) + x + seq!['\n'],
    decreases ls.len(),
{
    if ls.len() == 0 {
        assert(ls.push(x).drop_first() =~= Seq::<Seq<char>>::empty());
        assert(ls.push(x)[0] == x);
        assert(joined(Seq::<Seq<char>>::empty()) == Seq::<char>::empty());
        assert(joined(ls.push(x)) =~= joined(ls) + x + seq!['\n']);
    } else {
        assert(ls.push(x).drop_first() =~= ls.drop_first().push(x));
        lemma_joined_push(ls.drop_first(), x);
        assert(joined(ls.push(x)) =~= joined(ls) + x + seq!['\n']);
    }
}

pub(crate) proof fn lemma_lines_scan(s: Seq<char>, i: int, j: int, cur: Seq<char>)
    requires
        0 <= i <= j <= s.len(),
        forall|k: int| i <= k < j ==> s[k] != '\n',
    ensures
        lines_acc(s, i, cur) == lines_acc(s, j, cur + s.subrange(i, j)),
    decreases j - i,
{
    if i < j {
        lemma_lines_scan(s, i + 1, j, cur.push(s[i]));
        assert(cur.push(s[i]) + s.subrange(i + 1, j) =~= cur + s.subrange(i, j));
    } else {
        assert(cur + s.subrange(i, j) =~= cur);
    }
}

pub(crate) proof fn lemma_lines_shift(p: Seq<char>, q: Seq<char>, k: int, cur: Seq<char>)
    requires
        0 <= k <= q.len(),
    ensures
        lines_acc(p + q, p.len() + k, cur) == lines_acc(q, k, cur),
    decreases q.len() - k,
{
    let s = p + q;
    if k < q.len() {
        assert(s[p.len() + k] == q[k]);
        lemma_lines_shift(p, q, k + 1, seq![]);
        lemma_lines_shift(p, q, k + 1, cur.push(q[k]));
    }
}

/// The lines of text made of line-broken lines are those lines.
pub(crate) proof fn lemma_lines_joined(ls: Seq<Seq<char>>)
    requires
        forall|i: int, k: int|
            0 <= i < ls.len() && 0 <= k < ls[i].len() ==> #[trigger] ls[i][k] != '\n' && ls[i][k]
                != '\r',
    ensures
        spec_lines(joined(ls)) == ls,
    decreases ls.len(),
{
    if ls.len() == 0 {
        assert(spec_lines(joined(ls)) =~= ls);
    } else {
        let a = ls[0];
        let rest = joined(ls.drop_first());
        let s = a + seq!['\n'] + rest;
        assert(joined(ls) == s);
        assert forall|k: int| 0 <= k < a.len() implies s[k] != '\n' by {
            assert(s[k] == ls[0][k]);
        }
        lemma_lines_scan(s, 0, a.len() as int, seq![]);
        assert(Seq::<char>::empty() + s.subrange(0, a.len() as int) =~= a);
        assert(s[a.len() as int] == '\n');
        assert(strip_cr(a) == a) by {
            if a.len() > 0 {
                assert(a.last() == ls[0][a.len() - 1]);
            }
        }
        lemma_lines_shift(a + seq!['\n'], rest, 0, seq![]);
        assert(s == (a + seq!['\n']) + rest);
        lemma_lines_joined(ls.drop_first());
        assert(spec_lines(joined(ls)) =~= seq![a] + ls.drop_first());
        assert(seq![a] + ls.drop_first() =~= ls);
    }
}

// ---------------------------------------------------------------------
// Words
// ---------------------------------------------------------------------
pub open spec fn is_sep(c: char, comma: bool) -> bool {
    is_ws(c) || (comma && c == ',')
}

/// A non-empty word without separators.
pub open spec fn plain_word(w: Seq<char>, comma: bool) -> bool {
    w.len() > 0 && forall|k: int| 0 <= k < w.len() ==> !is_sep(#[trigger] w[k], comma)
}

/// The words with `sep` between consecutive ones.
pub open spec fn wjoin(ws: Seq<Seq<char>>, sep: Seq<char>) -> Seq<char>
    decreases ws.len(),
{
    if ws.len() == 0 {
        seq![]
    } else if ws.len() == 1 {
        ws[0]
    } else {
        ws[0] + sep + wjoin(ws.drop_first(), sep)
    }
}

proof fn lemma_wjoin_push(ws: Seq<Seq<char>>, sep: Seq<char>, x: Seq<char>)
    requires
        ws.len() > 0,
    ensures
        wjoin(ws.push(x), sep) == wjoin(ws, sep) + sep + x,
    decreases ws.len(),
{
    assert(ws.push(x).drop_first() =~= ws.drop_first().push(x));
    if ws.len() == 1 {
        assert(ws.drop_first().push(x) =~= seq![x]);
        assert(ws.push(x)[0] == ws[0]);
        assert(wjoin(seq![x], sep) == x);
        assert(wjoin(ws.push(x), sep) =~= wjoin(ws, sep) + sep + x);
    } else {
        lemma_wjoin_push(ws.drop_first(), sep, x);
        assert(ws.push(x)[0] == ws[0]);
        assert(wjoin(ws.push(x), sep) =~= wjoin(ws, sep) + sep + x);
    }
}

proof fn lemma_words_scan(s: Seq<char>, i: int, j: int, cur: Seq<char>, comma: bool)
    requires
        0 <= i <= j <= s.len(),
        forall|k: int| i <= k < j ==> !is_sep(#[trigger] s[k], comma),
    ensures
        words_acc(s, i, cur, comma) == words_acc(s, j, cur + s.subrange(i, j), comma),
    decreases j - i,
{
    if i < j {
        assert(!is_sep(s[i], comma));
        lemma_words_scan(s, i + 1, j, cur.push(s[i]), comma);
        assert(cur.push(s[i]) + s.subrange(i + 1, j) =~= cur + s.subrange(i, j));
    } else {
        assert(cur + s.subrange(i, j) =~= cur);
    }
}

proof fn lemma_words_skip(s: Seq<char>, i: int, j: int, comma: bool)
    requires
        0 <= i <= j <= s.len(),
        forall|k: int| i <= k < j ==> is_sep(#[trigger] s[k], comma),
    ensures
        words_acc(s, i, seq![], comma) == words_acc(s, j, seq![], comma),
    decreases j - i,
{
    if i < j {
        assert(is_sep(s[i], comma));
        lemma_words_skip(s, i + 1, j, comma);
        assert(Seq::<Seq<char>>::empty() + words_acc(s, i + 1, seq![], comma) =~= words_acc(
            s,
            i + 1,
            seq![],
            comma,
        ));
    }
}

proof fn lemma_words_shift(p: Seq<char>, q: Seq<char>, k: int, cur: Seq<char>, comma: bool)
    requires
        0 <= k <= q.len(),
    ensures
        words_acc(p + q, p.len() + k, cur, comma) == words_acc(q, k, cur, comma),
    decreases q.len() - k,
{
    let s = p + q;
    if k < q.len() {
        assert(s[p.len() + k] == q[k]);
        lemma_words_shift(p, q, k + 1, seq![], comma);
        lemma_words_shift(p, q, k + 1, cur.push(q[k]), comma);
    }
}

/// Plain words joined by separators split back into those words.
proof fn lemma_words_wjoin(ws: Seq<Seq<char>>, sep: Seq<char>, comma: bool)
    requires
        ws.len() > 0,
        forall|i: int| 0 <= i < ws.len() ==> plain_word(#[trigger] ws[i], comma),
        sep.len() > 0,
        forall|k: int| 0 <= k < sep.len() ==> is_sep(#[trigger] sep[k], comma),
    ensures
        words(wjoin(ws, sep), comma) == ws,
    decreases ws.len(),
{
    let a = ws[0];
    assert(plain_word(a, comma));
    if ws.len() == 1 {
        lemma_words_scan(a, 0, a.len() as int, seq![], comma);
        assert(Seq::<char>::empty() + a.subrange(0, a.len() as int) =~= a);
        assert(words(a, comma) =~= ws);
    } else {
        let rest = wjoin(ws.drop_first(), sep);
        let s = a + sep + rest;
        assert(wjoin(ws, sep) == s);
        assert forall|k: int| 0 <= k < a.len() implies !is_sep(#[trigger] s[k], comma) by {
            assert(s[k] == a[k]);
        }
        lemma_words_scan(s, 0, a.len() as int, seq![], comma);
        assert(Seq::<char>::empty() + s.subrange(0, a.len() as int) =~= a);
        assert(s[a.len() as int] == sep[0]);
        assert(is_sep(sep[0], comma));
        assert(words_acc(s, a.len() as int, a, comma) == seq![a] + words_acc(
            s,
            (a.len() + 1) as int,
            seq![],
            comma,
        ));
        assert forall|k: int| a.len() + 1 <= k < a.len() + sep.len() implies is_sep(
            #[trigger] s[k],
            comma,
        ) by {
            assert(s[k] == sep[k - a.len()]);
        }
        lemma_words_skip(s, (a.len() + 1) as int, (a.len() + sep.len()) as int, comma);
        lemma_words_shift(a + sep, rest, 0, seq![], comma);
        assert(s == (a + sep) + rest);
        assert forall|i: int| 0 <= i < ws.drop_first().len() implies plain_word(
            #[trigger] ws.drop_first()[i],
            comma,
        ) by {
            assert(ws.drop_first()[i] == ws[i + 1]);
        }
        lemma_words_wjoin(ws.drop_first(), sep, comma);
        assert(words(s, comma) =~= seq![a] + ws.drop_first());
        assert(seq![a] + ws.drop_first() =~= ws);
    }
}

// ---------------------------------------------------------------------
// Numbers
// ---------------------------------------------------------------------
proof fn lemma_digit_char(d: nat)
    requires
        d < 10,
    ensures
        is_digit(digit_char(d)),
        digit_val(digit_char(d)) == d,
{
    assert(('0' as u32) == 48);
    assert(((d + 48) as u32) as char as u32 == (d + 48) as u32);
}

proof fn lemma_nat_digits(n: nat)
    ensures
        nat_digits(n).len() > 0,
        all_digits(nat_digits(n)),
        digits_value(nat_digits(n)) == n,
    decreases n,
{
    if n < 10 {
        lemma_digit_char(n);
        assert(nat_digits(n).drop_last() =~= Seq::<char>::empty());
        assert(digits_value(nat_digits(n)) == digits_value(Seq::<char>::empty()) * 10 + digit_val(
            digit_char(n),
        ));
    } else {
        lemma_nat_digits(n / 10);
        lemma_digit_char(n % 10);
        let s = nat_digits(n);
        assert(s.drop_last() =~= nat_digits(n / 10));
        assert forall|i: int| 0 <= i < s.len() implies is_digit(#[trigger] s[i]) by {
            if i < s.len() - 1 {
                assert(s[i] == nat_digits(n / 10)[i]);
            }
        }
        assert(s.last() == digit_char(n % 10));
        assert(digits_value(s) == digits_value(nat_digits(n / 10)) * 10 + digit_val(
            digit_char(n % 10),
        ));
        assert(n == (n / 10) * 10 + n % 10);
    }
}

proof fn lemma_digit_not_special(c: char)
    requires
        is_digit(c),
    ensures
        !is_ws(c),
        c != '#' && c != '/' && c != '=' && c != ',' && c != '-' && c != '+',
        c != '\n' && c != '\r',
{
}

/// The name of node `i` in the text format.
pub open spec fn node_name(i: nat) -> Seq<char> {
    seq!['n'] + nat_digits(i)
}

proof fn lemma_node_name_injective(a: nat, b: nat)
    requires
        node_name(a) == node_name(b),
    ensures
        a == b,
{
    assert(nat_digits(a) =~= node_name(a).drop_first());
    assert(nat_digits(b) =~= node_name(b).drop_first());
    lemma_nat_digits(a);
    lemma_nat_digits(b);
}

proof fn lemma_node_name_plain(i: nat, comma: bool)
    ensures
        plain_word(node_name(i), comma),
        forall|k: int|
            0 <= k < node_name(i).len() ==> #[trigger] node_name(i)[k] != '#' && node_name(i)[k]
                != '/' && node_name(i)[k] != '=' && node_name(i)[k] != '\n' && node_name(i)[k]
                != '\r',
        node_name(i) != "output"@,
        node_name(i) != "outputs"@,
        node_name(i) != "-"@,
        node_name(i) != "+"@,
        node_name(i) != "*"@,
{
    lemma_nat_digits(i);
    let w = node_name(i);
    assert forall|k: int| 0 <= k < w.len() implies !is_sep(#[trigger] w[k], comma) && w[k] != '#'
        && w[k] != '/' && w[k] != '=' && w[k] != '\n' && w[k] != '\r' by {
        if k > 0 {
            assert(w[k] == nat_digits(i)[k - 1]);
            lemma_digit_not_special(w[k]);
        }
    }
    reveal_strlit("output");
    reveal_strlit("outputs");
    reveal_strlit("-");
    reveal_strlit("+");
    reveal_strlit("*");
    assert(w[0] == 'n');
    if w.len() > 1 {
        assert(w[1] == nat_digits(i)[0]);
        lemma_digit_not_special(w[1]);
    }
    assert(w != "output"@ ==> true);
    assert(w.len() >= 2 ==> w[1] != 'u');
    assert("output"@[1] == 'u');
    assert("outputs"@[1] == 'u');
    assert("-"@[0] == '-');
    assert("+"@[0] == '+');
    assert("*"@[0] == '*');
}

/// A number prints as a word that parses back to it.
proof fn lemma_int_text(v: i64)
    ensures
        parse_i64(int_text(v as int)) == Some(v),
        plain_word(int_text(v as int), false),
        forall|k: int|
            0 <= k < int_text(v as int).len() ==> #[trigger] int_text(v as int)[k] != '#'
                && int_text(v as int)[k] != '/' && int_text(v as int)[k] != '\n' && int_text(
                v as int,
            )[k] != '\r',
{
    let t = int_text(v as int);
    if v < 0 {
        let m = (-(v as int)) as nat;
        lemma_nat_digits(m);
        assert(t.drop_first() =~= nat_digits(m));
        assert forall|k: int| 0 <= k < t.len() implies !is_sep(#[trigger] t[k], false) && t[k]
            != '#' && t[k] != '/' && t[k] != '\n' && t[k] != '\r' by {
            if k > 0 {
                assert(t[k] == nat_digits(m)[k - 1]);
                lemma_digit_not_special(t[k]);
            }
        }
    } else {
        let m = v as nat;
        lemma_nat_digits(m);
        assert forall|k: int| 0 <= k < t.len() implies !is_sep(#[trigger] t[k], false) && t[k]
            != '#' && t[k] != '/' && t[k] != '\n' && t[k] != '\r' by {
            lemma_digit_not_special(t[k]);
        }
        lemma_digit_not_special(t[0]);
    }
}

// ---------------------------------------------------------------------
// One line
// ---------------------------------------------------------------------
/// No comment marker and no line break.
pub open spec fn inert(s: Seq<char>) -> bool {
    &&& forall|k: int| 0 <= k < s.len() ==> #[trigger] s[k] != '#' && s[k] != '\n' && s[k] != '\r'
    &&& forall|k: int| 0 <= k < s.len() - 1 ==> !(#[trigger] s[k] == '/' && s[k + 1] == '/')
}

/// A symbol that prints and reads back as itself: one word, no comment
/// marker, and not a number.
pub open spec fn plain_symbol(name: Seq<char>) -> bool {
    &&& plain_word(name, false)
    &&& inert(name)
    &&& parse_i64(name) is None
}

pub open spec fn plain_symbols(nodes: Seq<SpecKey>) -> bool {
    forall|i: int| 0 <= i < nodes.len() ==> (#[trigger] nodes[i] matches SpecKey::Symbol(name) ==> plain_symbol(name))
}

/// The right-hand side of the line of a node.
pub open spec fn rhs_text(k: SpecKey) -> Seq<char> {
    match k {
        SpecKey::Num(v) => int_text(v as int),
        SpecKey::Symbol(name) => name,
        SpecKey::Add(a, b) => node_name(a as nat) + seq![' ', '+', ' '] + node_name(b as nat),
        SpecKey::Mul(a, b) => node_name(a as nat) + seq![' ', '*', ' '] + node_name(b as nat),
        SpecKey::Neg(a) => seq!['-', ' '] + node_name(a as nat),
    }
}

/// The line of node `i`, without its line break.
pub open spec fn line_text(i: nat, k: SpecKey) -> Seq<char> {
    node_name(i) + seq![' ', '=', ' '] + rhs_text(k)
}

proof fn lemma_key_line(i: nat, k: SpecKey)
    ensures
        key_line(i, k) == line_text(i, k) + seq!['\n'],
{
    reveal_strlit("n");
    reveal_strlit(" = ");
    reveal_strlit("\n");
    reveal_strlit(" + n");
    reveal_strlit(" * n");
    reveal_strlit("- n");
    let head = "n"@ + nat_digits(i) + " = "@;
    assert(head =~= node_name(i) + seq![' ', '=', ' ']);
    match k {
        SpecKey::Num(v) => {
            assert(key_line(i, k) =~= line_text(i, k) + seq!['\n']);
        },
        SpecKey::Symbol(name) => {
            assert(key_line(i, k) =~= line_text(i, k) + seq!['\n']);
        },
        SpecKey::Add(a, b) => {
            assert("n"@ + nat_digits(a as nat) =~= node_name(a as nat));
            assert(" + n"@ + nat_digits(b as nat) =~= seq![' ', '+', ' '] + node_name(b as nat));
            assert(key_line(i, k) =~= line_text(i, k) + seq!['\n']);
        },
        SpecKey::Mul(a, b) => {
            assert("n"@ + nat_digits(a as nat) =~= node_name(a as nat));
            assert(" * n"@ + nat_digits(b as nat) =~= seq![' ', '*', ' '] + node_name(b as nat));
            assert(key_line(i, k) =~= line_text(i, k) + seq!['\n']);
        },
        SpecKey::Neg(a) => {
            assert("- n"@ + nat_digits(a as nat) =~= seq!['-', ' '] + node_name(a as nat));
            assert(key_line(i, k) =~= line_text(i, k) + seq!['\n']);
        },
    }
}

proof fn lemma_cut_none(s: Seq<char>, c: char)
    requires
        forall|k: int| 0 <= k < s.len() ==> #[trigger] s[k] != c,
    ensures
        cut_at_char(s, c) == s,
    decreases s.len(),
{
    if s.len() > 0 {
        assert forall|k: int| 0 <= k < s.drop_first().len() implies #[trigger] s.drop_first()[k] != c by {
            assert(s.drop_first()[k] == s[k + 1]);
        }
        lemma_cut_none(s.drop_first(), c);
        assert(seq![s[0]] + s.drop_first() =~= s);
    }
}

proof fn lemma_cut_first(p: Seq<char>, c: char, q: Seq<char>)
    requires
        forall|k: int| 0 <= k < p.len() ==> #[trigger] p[k] != c,
    ensures
        cut_at_char(p + seq![c] + q, c) == p,
    decreases p.len(),
{
    let s = p + seq![c] + q;
    if p.len() == 0 {
        assert(s[0] == c);
        assert(p =~= Seq::<char>::empty());
    } else {
        assert(s.drop_first() =~= p.drop_first() + seq![c] + q);
        assert forall|k: int| 0 <= k < p.drop_first().len() implies #[trigger] p.drop_first()[k] != c by {
            assert(p.drop_first()[k] == p[k + 1]);
        }
        lemma_cut_first(p.drop_first(), c, q);
        assert(seq![p[0]] + p.drop_first() =~= p);
    }
}

proof fn lemma_slashes_none(s: Seq<char>)
    requires
        forall|k: int| 0 <= k < s.len() - 1 ==> !(#[trigger] s[k] == '/' && s[k + 1] == '/'),
    ensures
        cut_at_slashes(s) == s,
    decreases s.len(),
{
    if s.len() > 0 {
        if s.len() >= 2 {
            assert(!(s[0] == '/' && s[1] == '/'));
        }
        let t = s.drop_first();
        assert forall|k: int| 0 <= k < t.len() - 1 implies !(#[trigger] t[k] == '/' && t[k + 1] == '/') by {
            assert(t[k] == s[k + 1] && t[k + 1] == s[k + 2]);
        }
        lemma_slashes_none(t);
        assert(seq![s[0]] + t =~= s);
    }
}

proof fn lemma_trim_id(s: Seq<char>)
    requires
        s.len() > 0,
        !is_ws(s[0]),
        !is_ws(s.last()),
    ensures
        trim(s) == s,
{
}

proof fn lemma_trim_space_before(t: Seq<char>)
    requires
        t.len() > 0,
        !is_ws(t[0]),
        !is_ws(t.last()),
    ensures
        trim(seq![' '] + t) == t,
{
    let s = seq![' '] + t;
    assert(is_ws(' '));
    assert(s.drop_first() =~= t);
    assert(trim_start(s) == trim_start(t));
}

proof fn lemma_trim_space_after(t: Seq<char>)
    requires
        t.len() > 0,
        !is_ws(t[0]),
        !is_ws(t.last()),
    ensures
        trim(t + seq![' ']) == t,
{
    let s = t + seq![' '];
    assert(is_ws(' '));
    assert(s[0] == t[0]);
    assert(trim_start(s) == s);
    assert(s.last() == ' ');
    assert(s.drop_last() =~= t);
    assert(trim_end(t) == t);
    assert(trim_end(s) == trim_end(s.drop_last()));
}

/// Text without `/`, `#` or line breaks stays inert before inert text.
proof fn lemma_inert_concat(p: Seq<char>, r: Seq<char>)
    requires
        forall|k: int| 0 <= k < p.len() ==> #[trigger] p[k] != '/' && p[k] != '#' && p[k] != '\n' && p[k] != '\r',
        inert(r),
    ensures
        inert(p + r),
{
    let s = p + r;
    assert forall|k: int| 0 <= k < s.len() implies #[trigger] s[k] != '#' && s[k] != '\n' && s[k] != '\r' by {
        if k < p.len() {
            assert(s[k] == p[k]);
        } else {
            assert(s[k] == r[k - p.len()]);
        }
    }
    assert forall|k: int| 0 <= k < s.len() - 1 implies !(#[trigger] s[k] == '/' && s[k + 1] == '/') by {
        if k < p.len() {
            assert(s[k] == p[k]);
        } else {
            assert(s[k] == r[k - p.len()] && s[k + 1] == r[k + 1 - p.len()]);
        }
    }
}

/// Facts about the right-hand side of a node's line: its words, that it is
/// inert, and its first and last characters.
proof fn lemma_rhs(k: SpecKey)
    requires
        k matches SpecKey::Symbol(name) ==> plain_symbol(name),
    ensures
        inert(rhs_text(k)),
        rhs_text(k).len() > 0,
        !is_ws(rhs_text(k)[0]),
        !is_ws(rhs_text(k).last()),
        words(rhs_text(k), false) == match k {
            SpecKey::Num(v) => seq![int_text(v as int)],
            SpecKey::Symbol(name) => seq![name],
            SpecKey::Add(a, b) => seq![node_name(a as nat), seq!['+'], node_name(b as nat)],
            SpecKey::Mul(a, b) => seq![node_name(a as nat), seq!['*'], node_name(b as nat)],
            SpecKey::Neg(a) => seq![seq!['-'], node_name(a as nat)],
        },
{
    reveal_strlit("+");
    reveal_strlit("*");
    reveal_strlit("-");
    assert(is_ws(' '));
    match k {
        SpecKey::Num(v) => {
            lemma_int_text(v);
            let t = int_text(v as int);
            lemma_words_wjoin(seq![t], seq![' '], false);
            assert forall|j: int| 0 <= j < t.len() implies t[j] != '=' by {
                if v < 0 {
                    if j > 0 {
                        assert(t[j] == nat_digits((-(v as int)) as nat)[j - 1]);
                        lemma_nat_digits((-(v as int)) as nat);
                    }
                } else {
                    lemma_nat_digits(v as nat);
                }
            }
        },
        SpecKey::Symbol(name) => {
            lemma_words_wjoin(seq![name], seq![' '], false);
            assert(name[0] != '=' || true);
        },
        SpecKey::Add(a, b) => {
            lemma_rhs_op(a as nat, b as nat, '+');
            lemma_name_inert(a as nat);
            lemma_name_inert(b as nat);
            let r = rhs_text(k);
            assert(r[0] == node_name(a as nat)[0]);
            assert(r.last() == node_name(b as nat).last());
        },
        SpecKey::Mul(a, b) => {
            lemma_rhs_op(a as nat, b as nat, '*');
            lemma_name_inert(a as nat);
            lemma_name_inert(b as nat);
            let r = rhs_text(k);
            assert(r[0] == node_name(a as nat)[0]);
            assert(r.last() == node_name(b as nat).last());
        },
        SpecKey::Neg(a) => {
            lemma_node_name_plain(a as nat, false);
            let ws = seq![seq!['-'], node_name(a as nat)];
            assert(ws.drop_first() =~= seq![node_name(a as nat)]);
            let t = wjoin(ws, seq![' ']);
            assert(wjoin(ws.drop_first(), seq![' ']) == node_name(a as nat));
            assert(t =~= seq!['-', ' '] + node_name(a as nat));
            assert(plain_word(seq!['-'], false));
            assert forall|i: int| 0 <= i < ws.len() implies plain_word(#[trigger] ws[i], false) by {}
            lemma_words_wjoin(ws, seq![' '], false);
            lemma_name_inert(a as nat);
            lemma_inert_concat(seq!['-', ' '], node_name(a as nat));
            let r = seq!['-', ' '] + node_name(a as nat);
            assert(r[0] == '-');
            assert(r.last() == node_name(a as nat).last());
            assert forall|j: int| 0 <= j < r.len() implies r[j] != '=' by {
                if j >= 2 {
                    assert(r[j] == node_name(a as nat)[j - 2]);
                }
            }
        },
    }
}

proof fn lemma_name_inert(i: nat)
    ensures
        inert(node_name(i)),
        forall|k: int| 0 <= k < node_name(i).len() ==> #[trigger] node_name(i)[k] != '/' && node_name(i)[k] != '=',
        !is_ws(node_name(i)[0]),
        !is_ws(node_name(i).last()),
{
    lemma_node_name_plain(i, false);
}

proof fn lemma_rhs_op(a: nat, b: nat, op: char)
    requires
        op == '+' || op == '*',
    ensures
        inert(wjoin(seq![node_name(a), seq![op], node_name(b)], seq![' '])),
        wjoin(seq![node_name(a), seq![op], node_name(b)], seq![' ']) == node_name(a) + seq![' ', op, ' '] + node_name(b),
        words(wjoin(seq![node_name(a), seq![op], node_name(b)], seq![' ']), false) == seq![node_name(a), seq![op], node_name(b)],
        forall|j: int| 0 <= j < (node_name(a) + seq![' ', op, ' '] + node_name(b)).len() ==> (node_name(a) + seq![' ', op, ' '] + node_name(b))[j] != '=',
{
    let ws = seq![node_name(a), seq![op], node_name(b)];
    assert(ws.drop_first().drop_first() =~= seq![node_name(b)]);
    let t = wjoin(ws, seq![' ']);
    assert(wjoin(ws.drop_first().drop_first(), seq![' ']) == node_name(b));
    assert(ws.drop_first()[0] == seq![op]);
    assert(wjoin(ws.drop_first(), seq![' ']) =~= seq![op] + seq![' '] + node_name(b));
    assert(t =~= node_name(a) + seq![' ', op, ' '] + node_name(b));
    lemma_node_name_plain(a, false);
    lemma_node_name_plain(b, false);
    assert(is_ws(' '));
    assert forall|i: int| 0 <= i < ws.len() implies plain_word(#[trigger] ws[i], false) by {}
    lemma_words_wjoin(ws, seq![' '], false);
    lemma_name_inert(b);
    lemma_inert_concat(node_name(a) + seq![' ', op, ' '], node_name(b));
    let s = node_name(a) + seq![' ', op, ' '] + node_name(b);
    assert forall|j: int| 0 <= j < s.len() implies s[j] != '=' by {
        if j < node_name(a).len() {
            assert(s[j] == node_name(a)[j]);
        } else if j >= node_name(a).len() + 3 {
            assert(s[j] == node_name(b)[j - node_name(a).len() - 3]);
        }
    }
}

// ---------------------------------------------------------------------
// Reading the lines back
// ---------------------------------------------------------------------
/// The names of the first `i` nodes.
pub open spec fn names_upto(i: nat) -> Seq<Seq<char>> {
    Seq::new(i, |j: int| node_name(j as nat))
}

proof fn lemma_find_node(i: nat, a: nat)
    ensures
        a < i ==> find_name(names_upto(i), node_name(a), 0) == Some(a),
        find_name(names_upto(i), node_name(i), 0) is None,
{
    let names = names_upto(i);
    lemma_find_name(names, node_name(a), 0);
    match find_name(names, node_name(a), 0) {
        Some(j) => {
            assert(names[j as int] == node_name(j));
            lemma_node_name_injective(j, a);
        },
        None => {
            if a < i {
                assert(names[a as int] == node_name(a));
            }
        },
    }
    lemma_find_name(names, node_name(i), 0);
    match find_name(names, node_name(i), 0) {
        Some(j) => {
            assert(names[j as int] == node_name(j));
            lemma_node_name_injective(j, i);
        },
        None => {},
    }
}

/// Cleaning, then splitting at the first `=`, of `lhs = rhs` gives back
/// `lhs` and `rhs`.
proof fn lemma_assignment(lhs: Seq<char>, rhs: Seq<char>)
    requires
        lhs.len() > 0,
        !is_ws(lhs[0]),
        !is_ws(lhs.last()),
        forall|k: int| 0 <= k < lhs.len() ==> #[trigger] lhs[k] != '/' && lhs[k] != '#' && lhs[k] != '\n'
            && lhs[k] != '\r' && lhs[k] != '=',
        rhs.len() > 0,
        !is_ws(rhs[0]),
        !is_ws(rhs.last()),
        inert(rhs),
    ensures
        ({
            let l = clean_line(lhs + seq![' ', '=', ' '] + rhs);
            let cut = cut_at_char(l, '=');
            &&& l == lhs + seq![' ', '=', ' '] + rhs
            &&& cut.len() < l.len()
            &&& trim(cut) == lhs
            &&& trim(l.subrange(cut.len() + 1 as int, l.len() as int)) == rhs
        }),
{
    let line = lhs + seq![' ', '=', ' '] + rhs;
    let p = lhs + seq![' ', '=', ' '];
    assert forall|k: int| 0 <= k < p.len() implies #[trigger] p[k] != '/' && p[k] != '#' && p[k] != '\n' && p[k] != '\r' by {
        if k < lhs.len() {
            assert(p[k] == lhs[k]);
        }
    }
    lemma_inert_concat(p, rhs);
    assert(line == p + rhs);
    lemma_cut_none(line, '#');
    lemma_slashes_none(line);
    assert(line[0] == lhs[0]);
    assert(line.last() == rhs.last());
    lemma_trim_id(line);
    let pre = lhs + seq![' '];
    assert forall|k: int| 0 <= k < pre.len() implies #[trigger] pre[k] != '=' by {
        if k < lhs.len() {
            assert(pre[k] == lhs[k]);
        }
    }
    assert(line =~= pre + seq!['='] + (seq![' '] + rhs));
    lemma_cut_first(pre, '=', seq![' '] + rhs);
    lemma_trim_space_after(lhs);
    assert(line.subrange(pre.len() + 1 as int, line.len() as int) =~= seq![' '] + rhs);
    lemma_trim_space_before(rhs);
}

/// The state after the lines of the first `i` nodes.
pub open spec fn state_upto(nodes: Seq<SpecKey>, i: nat) -> ParseState {
    ParseState {
        nodes: nodes.subrange(0, i as int),
        outputs: seq![],
        names: names_upto(i),
        declared: false,
    }
}

/// The line of node `i` defines it.
proof fn lemma_node_line(nodes: Seq<SpecKey>, i: nat, no: nat)
    requires
        i < nodes.len(),
        nodes.len() <= usize::MAX,
        plain_symbols(nodes),
        forall|j: int| 0 <= j < key_children(nodes[i as int]).len() ==> #[trigger] key_children(nodes[i as int])[j] < i,
    ensures
        parse_line(line_text(i, nodes[i as int]), no, state_upto(nodes, i)) == Ok::<ParseState, Seq<char>>(state_upto(nodes, (i + 1) as nat)),
{
    let k = nodes[i as int];
    let st = state_upto(nodes, i);
    assert(k matches SpecKey::Symbol(name) ==> plain_symbol(name));
    lemma_rhs(k);
    lemma_name_inert(i);
    lemma_node_name_plain(i, false);
    let rhs = rhs_text(k);
    lemma_assignment(node_name(i), rhs);
    lemma_find_node(i, i);
    reveal_strlit("+");
    reveal_strlit("*");
    reveal_strlit("-");
    assert("+"@ =~= seq!['+']);
    assert("*"@ =~= seq!['*']);
    assert("-"@ =~= seq!['-']);
    let t = words(rhs, false);
    match k {
        SpecKey::Num(v) => {
            lemma_int_text(v);
            assert(rhs_node(rhs, no, st.names) == Ok::<SpecKey, Seq<char>>(k));
        },
        SpecKey::Symbol(name) => {
            assert(rhs_node(rhs, no, st.names) == Ok::<SpecKey, Seq<char>>(k));
        },
        SpecKey::Add(a, b) => {
            assert(key_children(k)[0] == a && key_children(k)[1] == b);
            lemma_find_node(i, a as nat);
            lemma_find_node(i, b as nat);
            assert(t[1] == "+"@);
            assert(rhs_node(rhs, no, st.names) == Ok::<SpecKey, Seq<char>>(k));
        },
        SpecKey::Mul(a, b) => {
            assert(key_children(k)[0] == a && key_children(k)[1] == b);
            lemma_find_node(i, a as nat);
            lemma_find_node(i, b as nat);
            assert(t[1] == "*"@);
            assert(t[1][0] == '*' && "+"@[0] == '+');
            assert(t[1] != "+"@);
            assert(rhs_node(rhs, no, st.names) == Ok::<SpecKey, Seq<char>>(k));
        },
        SpecKey::Neg(a) => {
            assert(key_children(k)[0] == a);
            lemma_find_node(i, a as nat);
            assert(t[0] == "-"@);
            assert(rhs_node(rhs, no, st.names) == Ok::<SpecKey, Seq<char>>(k));
        },
    }
    assert(nodes.subrange(0, i as int).push(k) =~= nodes.subrange(0, (i + 1) as int));
    assert(names_upto(i).push(node_name(i)) =~= names_upto((i + 1) as nat));
    assert(node_def(node_name(i), rhs, no, st) == Ok::<ParseState, Seq<char>>(state_upto(nodes, (i + 1) as nat)));
}

proof fn lemma_line_inert(i: nat, k: SpecKey)
    requires
        k matches SpecKey::Symbol(name) ==> plain_symbol(name),
    ensures
        inert(line_text(i, k)),
{
    lemma_rhs(k);
    lemma_name_inert(i);
    let p = node_name(i) + seq![' ', '=', ' '];
    assert forall|j: int| 0 <= j < p.len() implies #[trigger] p[j] != '/' && p[j] != '#' && p[j] != '\n' && p[j] != '\r' by {
        if j < node_name(i).len() {
            assert(p[j] == node_name(i)[j]);
        }
    }
    lemma_inert_concat(p, rhs_text(k));
}

/// The lines of the nodes.
pub open spec fn node_lines(nodes: Seq<SpecKey>) -> Seq<Seq<char>> {
    Seq::new(nodes.len(), |i: int| line_text(i as nat, nodes[i]))
}

proof fn lemma_nodes_text(nodes: Seq<SpecKey>)
    ensures
        nodes_text(nodes) == joined(node_lines(nodes)),
    decreases nodes.len(),
{
    if nodes.len() > 0 {
        let n = (nodes.len() - 1) as nat;
        lemma_nodes_text(nodes.drop_last());
        lemma_key_line(n, nodes.last());
        lemma_joined_push(node_lines(nodes.drop_last()), line_text(n, nodes.last()));
        assert(node_lines(nodes.drop_last()).push(line_text(n, nodes.last())) =~= node_lines(nodes));
    } else {
        assert(node_lines(nodes) =~= Seq::<Seq<char>>::empty());
    }
}

/// The names of the outputs.
pub open spec fn output_names(roots: Seq<usize>) -> Seq<Seq<char>> {
    Seq::new(roots.len(), |k: int| node_name(roots[k] as nat))
}

proof fn lemma_refs_text(roots: Seq<usize>)
    requires
        roots.len() > 0,
    ensures
        refs_text(roots) == wjoin(output_names(roots), seq![',', ' ']),
    decreases roots.len(),
{
    reveal_strlit("n");
    reveal_strlit(", n");
    if roots.len() == 1 {
        assert(output_names(roots) =~= seq![node_name(roots[0] as nat)]);
        assert(refs_text(roots) =~= node_name(roots[0] as nat));
    } else {
        lemma_refs_text(roots.drop_last());
        lemma_wjoin_push(output_names(roots.drop_last()), seq![',', ' '], node_name(roots.last() as nat));
        assert(output_names(roots.drop_last()).push(node_name(roots.last() as nat)) =~= output_names(roots));
        assert(", n"@ + nat_digits(roots.last() as nat) =~= seq![',', ' '] + node_name(roots.last() as nat));
    }
}

proof fn lemma_refs_facts(roots: Seq<usize>)
    requires
        roots.len() > 0,
    ensures
        words(refs_text(roots), true) == output_names(roots),
        inert(refs_text(roots)),
        refs_text(roots).len() > 0,
        !is_ws(refs_text(roots)[0]),
        !is_ws(refs_text(roots).last()),
    decreases roots.len(),
{
    lemma_refs_text(roots);
    let ws = output_names(roots);
    assert forall|i: int| 0 <= i < ws.len() implies plain_word(#[trigger] ws[i], true) by {
        lemma_node_name_plain(roots[i] as nat, true);
    }
    assert(is_ws(' '));
    let sep = seq![',', ' '];
    assert forall|k: int| 0 <= k < sep.len() implies is_sep(#[trigger] sep[k], true) by {}
    lemma_words_wjoin(ws, sep, true);
    reveal_strlit("n");
    reveal_strlit(", n");
    lemma_name_inert(roots[0] as nat);
    if roots.len() == 1 {
        assert(refs_text(roots) =~= node_name(roots[0] as nat));
    } else {
        lemma_refs_facts(roots.drop_last());
        let a = refs_text(roots.drop_last());
        let b = node_name(roots.last() as nat);
        lemma_name_inert(roots.last() as nat);
        assert(refs_text(roots) =~= a + (seq![',', ' '] + b));
        assert(", n"@ + nat_digits(roots.last() as nat) =~= seq![',', ' '] + b);
        let t = seq![',', ' '] + b;
        lemma_inert_concat(seq![',', ' '], b);
        let s = a + t;
        assert forall|k: int| 0 <= k < s.len() implies #[trigger] s[k] != '#' && s[k] != '\n' && s[k] != '\r' by {
            if k < a.len() {
                assert(s[k] == a[k]);
            } else {
                assert(s[k] == t[k - a.len()]);
            }
        }
        assert forall|k: int| 0 <= k < s.len() - 1 implies !(#[trigger] s[k] == '/' && s[k + 1] == '/') by {
            if k < a.len() - 1 {
                assert(s[k] == a[k] && s[k + 1] == a[k + 1]);
            } else if k == a.len() - 1 {
                assert(s[k + 1] == ',');
            } else {
                assert(s[k] == t[k - a.len()] && s[k + 1] == t[k + 1 - a.len()]);
            }
        }
        assert(s[0] == a[0]);
        assert(s.last() == b.last());
    }
}

proof fn lemma_resolve_outputs(n: nat, roots: Seq<usize>)
    requires
        forall|k: int| 0 <= k < roots.len() ==> (#[trigger] roots[k] as nat) < n,
    ensures
        resolve_outputs(names_upto(n), output_names(roots)) == Ok::<Seq<usize>, Seq<char>>(roots),
    decreases roots.len(),
{
    let ws = output_names(roots);
    if roots.len() > 0 {
        lemma_find_node(n, roots[0] as nat);
        assert(ws.drop_first() =~= output_names(roots.drop_first()));
        lemma_resolve_outputs(n, roots.drop_first());
        assert(seq![roots[0]] + roots.drop_first() =~= roots);
    } else {
        assert(roots =~= Seq::<usize>::empty());
    }
}

proof fn lemma_parse_nodes(lines: Seq<Seq<char>>, nodes: Seq<SpecKey>, i: nat)
    requires
        i <= nodes.len(),
        nodes.len() <= usize::MAX,
        plain_symbols(nodes),
        lines.len() >= nodes.len(),
        forall|j: int| 0 <= j < nodes.len() ==> #[trigger] lines[j] == line_text(j as nat, nodes[j]),
        crate::dag::keys_topological(nodes),
    ensures
        parse_lines(lines, i as int, state_upto(nodes, i)) == parse_lines(
            lines,
            nodes.len() as int,
            state_upto(nodes, nodes.len() as nat),
        ),
    decreases nodes.len() - i,
{
    if i < nodes.len() {
        assert(lines[i as int] == line_text(i, nodes[i as int]));
        assert forall|j: int| 0 <= j < key_children(nodes[i as int]).len() implies #[trigger] key_children(nodes[i as int])[j] < i by {}
        lemma_node_line(nodes, i, i + 1);
        lemma_parse_nodes(lines, nodes, i + 1);
    }
}

/// What `dag_to_text` prints, `ProgramDag::parse` reads back as the same
/// program: the same nodes, in order, and the same outputs, provided every
/// symbol is one word that holds no comment marker and is not a number.
pub proof fn lemma_text_parses_back(nodes: Seq<SpecKey>, roots: Seq<usize>)
    requires
        dag_wf(nodes, roots),
        plain_symbols(nodes),
        nodes.len() <= usize::MAX,
    ensures
        spec_parse(dag_text(nodes, roots)) matches Ok(st) && st.nodes == nodes && st.outputs == roots,
{
    let n = nodes.len() as nat;
    let refs = refs_text(roots);
    let out = "outputs"@ + seq![' ', '=', ' '] + refs;
    reveal_strlit("outputs");
    reveal_strlit("output");
    reveal_strlit("\noutputs = ");
    reveal_strlit("\n");
    lemma_nodes_text(nodes);
    let ls = node_lines(nodes).push(seq![]).push(out);
    lemma_joined_push(node_lines(nodes), seq![]);
    lemma_joined_push(node_lines(nodes).push(seq![]), out);
    assert(dag_text(nodes, roots) =~= joined(ls));
    lemma_refs_facts(roots);
    let o = "outputs"@;
    assert forall|k: int| 0 <= k < o.len() implies #[trigger] o[k] != '/' && o[k] != '#' && o[k] != '\n'
        && o[k] != '\r' && o[k] != '=' by {}
    lemma_assignment(o, refs);
    assert forall|i: int, k: int| 0 <= i < ls.len() && 0 <= k < ls[i].len() implies #[trigger] ls[i][k] != '\n' && ls[i][k] != '\r' by {
        if i < n {
            assert(ls[i] == line_text(i as nat, nodes[i]));
            assert(nodes[i] matches SpecKey::Symbol(name) ==> plain_symbol(name));
            lemma_line_inert(i as nat, nodes[i]);
        } else if i == n + 1 {
            let p = o + seq![' ', '=', ' '];
            assert forall|j: int| 0 <= j < p.len() implies #[trigger] p[j] != '/' && p[j] != '#' && p[j] != '\n' && p[j] != '\r' by {
                if j < o.len() {
                    assert(p[j] == o[j]);
                }
            }
            lemma_inert_concat(p, refs);
            assert(out == p + refs);
        }
    }
    lemma_lines_joined(ls);
    let lines = spec_lines(dag_text(nodes, roots));
    assert(lines == ls);
    assert(crate::dag_parser::empty_state() == state_upto(nodes, 0)) by {
        assert(nodes.subrange(0, 0) =~= Seq::<SpecKey>::empty());
        assert(names_upto(0) =~= Seq::<Seq<char>>::empty());
    }
    assert forall|j: int| 0 <= j < nodes.len() implies #[trigger] lines[j] == line_text(j as nat, nodes[j]) by {}
    lemma_parse_nodes(lines, nodes, 0);
    let st = state_upto(nodes, n);
    assert(lines[n as int] == Seq::<char>::empty());
    assert(clean_line(Seq::<char>::empty()) =~= Seq::<char>::empty());
    assert(parse_line(lines[n as int], (n + 1) as nat, st) == Ok::<ParseState, Seq<char>>(st));
    assert(lines[(n + 1) as int] == out);
    lemma_resolve_outputs(n, roots);
    assert(o != "output"@);
    let st2 = ParseState { outputs: roots, declared: true, ..st };
    assert(output_decl(o, refs, (n + 2) as nat, st) == Ok::<ParseState, Seq<char>>(st2));
    assert(parse_line(lines[(n + 1) as int], (n + 2) as nat, st) == Ok::<ParseState, Seq<char>>(st2));
    assert(lines.len() == n + 2);
    assert(parse_lines(lines, (n + 2) as int, st2) == Ok::<ParseState, Seq<char>>(st2));
    assert(parse_lines(lines, (n + 1) as int, st) == parse_lines(lines, (n + 2) as int, st2));
    assert(parse_lines(lines, n as int, st) == parse_lines(lines, (n + 1) as int, st));
    assert(spec_parse(dag_text(nodes, roots)) == parse_lines(lines, 0, state_upto(nodes, 0)));
    assert(nodes.subrange(0, n as int) =~= nodes);
}

// ---------------------------------------------------------------------
// Parsed symbols are plain
// ---------------------------------------------------------------------
/// No `#` and no `//`.
pub open spec fn comment_free(s: Seq<char>) -> bool {
    &&& forall|k: int| 0 <= k < s.len() ==> #[trigger] s[k] != '#'
    &&& forall|k: int| 0 <= k < s.len() - 1 ==> !(#[trigger] s[k] == '/' && s[k + 1] == '/')
}

proof fn lemma_comment_free_sub(s: Seq<char>, i: int, j: int)
    requires
        comment_free(s),
        0 <= i <= j <= s.len(),
    ensures
        comment_free(s.subrange(i, j)),
{
    let t = s.subrange(i, j);
    assert forall|k: int| 0 <= k < t.len() implies #[trigger] t[k] != '#' by {
        assert(t[k] == s[i + k]);
    }
    assert forall|k: int| 0 <= k < t.len() - 1 implies !(#[trigger] t[k] == '/' && t[k + 1] == '/') by {
        assert(t[k] == s[i + k] && t[k + 1] == s[i + k + 1]);
    }
}

pub(crate) proof fn lemma_cut_char_prefix(s: Seq<char>, c: char)
    ensures
        cut_at_char(s, c).len() <= s.len(),
        cut_at_char(s, c) == s.subrange(0, cut_at_char(s, c).len() as int),
        forall|k: int| 0 <= k < cut_at_char(s, c).len() ==> #[trigger] cut_at_char(s, c)[k] != c,
    decreases s.len(),
{
    if s.len() > 0 && s[0] != c {
        lemma_cut_char_prefix(s.drop_first(), c);
        let r = cut_at_char(s.drop_first(), c);
        assert(seq![s[0]] + r =~= s.subrange(0, (r.len() + 1) as int));
        assert forall|k: int| 0 <= k < r.len() + 1 implies #[trigger] (seq![s[0]] + r)[k] != c by {
            if k > 0 {
                assert((seq![s[0]] + r)[k] == r[k - 1]);
            }
        }
    } else {
        assert(s.subrange(0, 0) =~= Seq::<char>::empty());
    }
}

pub(crate) proof fn lemma_cut_slashes_prefix(s: Seq<char>)
    ensures
        cut_at_slashes(s).len() <= s.len(),
        cut_at_slashes(s) == s.subrange(0, cut_at_slashes(s).len() as int),
        forall|k: int| 0 <= k < cut_at_slashes(s).len() - 1 ==> !(#[trigger] cut_at_slashes(s)[k] == '/' && cut_at_slashes(s)[k + 1] == '/'),
    decreases s.len(),
{
    if s.len() == 0 || (s.len() >= 2 && s[0] == '/' && s[1] == '/') {
        assert(s.subrange(0, 0) =~= Seq::<char>::empty());
    } else {
        lemma_cut_slashes_prefix(s.drop_first());
        let r = cut_at_slashes(s.drop_first());
        let t = seq![s[0]] + r;
        assert(t =~= s.subrange(0, (r.len() + 1) as int));
        assert forall|k: int| 0 <= k < t.len() - 1 implies !(#[trigger] t[k] == '/' && t[k + 1] == '/') by {
            if k > 0 {
                assert(t[k] == r[k - 1] && t[k + 1] == r[k]);
            } else {
                assert(t[1] == s[1]);
            }
        }
    }
}

proof fn lemma_trim_start_sub(s: Seq<char>)
    ensures
        exists|i: int| 0 <= i <= s.len() && trim_start(s) == s.subrange(i, s.len() as int),
    decreases s.len(),
{
    if s.len() > 0 && is_ws(s[0]) {
        lemma_trim_start_sub(s.drop_first());
        let i = choose|i: int| 0 <= i <= s.drop_first().len() && trim_start(s.drop_first()) == s.drop_first().subrange(i, s.drop_first().len() as int);
        assert(s.drop_first().subrange(i, s.drop_first().len() as int) =~= s.subrange(i + 1, s.len() as int));
    } else {
        assert(s.subrange(0, s.len() as int) =~= s);
    }
}

proof fn lemma_trim_end_sub(s: Seq<char>)
    ensures
        exists|j: int| 0 <= j <= s.len() && trim_end(s) == s.subrange(0, j),
    decreases s.len(),
{
    if s.len() > 0 && is_ws(s.last()) {
        lemma_trim_end_sub(s.drop_last());
        let j = choose|j: int| 0 <= j <= s.drop_last().len() && trim_end(s.drop_last()) == s.drop_last().subrange(0, j);
        assert(s.drop_last().subrange(0, j) =~= s.subrange(0, j));
    } else {
        assert(s.subrange(0, s.len() as int) =~= s);
    }
}

proof fn lemma_trim_comment_free(s: Seq<char>)
    requires
        comment_free(s),
    ensures
        comment_free(trim(s)),
{
    lemma_trim_start_sub(s);
    let i = choose|i: int| 0 <= i <= s.len() && trim_start(s) == s.subrange(i, s.len() as int);
    lemma_comment_free_sub(s, i, s.len() as int);
    let t = trim_start(s);
    lemma_trim_end_sub(t);
    let j = choose|j: int| 0 <= j <= t.len() && trim_end(t) == t.subrange(0, j);
    lemma_comment_free_sub(t, 0, j);
}

/// A cleaned line holds no comment marker.
proof fn lemma_clean_comment_free(line: Seq<char>)
    ensures
        comment_free(clean_line(line)),
{
    let a = cut_at_char(line, '#');
    lemma_cut_char_prefix(line, '#');
    let b = cut_at_slashes(a);
    lemma_cut_slashes_prefix(a);
    assert forall|k: int| 0 <= k < b.len() implies #[trigger] b[k] != '#' by {
        assert(b[k] == a[k]);
    }
    lemma_trim_comment_free(b);
}

pub open spec fn piece_at(w: Seq<char>, s: Seq<char>, st: int) -> bool {
    0 <= st && st + w.len() <= s.len() && w == s.subrange(st, st + w.len())
}

/// `w` occurs in `s` as a contiguous piece.
pub open spec fn is_piece(w: Seq<char>, s: Seq<char>) -> bool {
    exists|st: int| #[trigger] piece_at(w, s, st)
}

/// Every word of `s` from position `i`, given the word `cur` in progress
/// that ends there, is a non-empty piece of `s` without separators.
proof fn lemma_words_pieces(s: Seq<char>, i: int, cur: Seq<char>, comma: bool)
    requires
        0 <= i <= s.len(),
        cur.len() <= i,
        cur == s.subrange(i - cur.len(), i),
        forall|k: int| 0 <= k < cur.len() ==> !is_sep(#[trigger] cur[k], comma),
    ensures
        forall|w: int|
            0 <= w < words_acc(s, i, cur, comma).len() ==> plain_word(#[trigger] words_acc(s, i, cur, comma)[w], comma)
                && is_piece(words_acc(s, i, cur, comma)[w], s),
    decreases s.len() - i,
{
    let ws = words_acc(s, i, cur, comma);
    if cur.len() > 0 {
        assert(piece_at(cur, s, i - cur.len()));
    }
    if i >= s.len() {
        if cur.len() > 0 {
            assert(ws == seq![cur]);
            assert forall|w: int| 0 <= w < ws.len() implies plain_word(#[trigger] ws[w], comma) && is_piece(ws[w], s) by {
                assert(ws[w] == cur);
            }
        }
    } else if is_sep(s[i], comma) {
        assert(Seq::<char>::empty() =~= s.subrange(i + 1, i + 1));
        lemma_words_pieces(s, i + 1, seq![], comma);
        let rest = words_acc(s, i + 1, seq![], comma);
        let head: Seq<Seq<char>> = if cur.len() == 0 {
            seq![]
        } else {
            seq![cur]
        };
        assert(ws == head + rest);
        assert forall|w: int| 0 <= w < ws.len() implies plain_word(#[trigger] ws[w], comma) && is_piece(ws[w], s) by {
            if w < head.len() {
                assert(ws[w] == cur);
            } else {
                assert(ws[w] == rest[w - head.len()]);
            }
        }
    } else {
        let c2 = cur.push(s[i]);
        assert(c2 =~= s.subrange(i + 1 - c2.len(), i + 1));
        assert forall|k: int| 0 <= k < c2.len() implies !is_sep(#[trigger] c2[k], comma) by {
            if k < cur.len() {
                assert(c2[k] == cur[k]);
            }
        }
        lemma_words_pieces(s, i + 1, c2, comma);
        assert(ws == words_acc(s, i + 1, c2, comma));
    }
}

/// A symbol that the parser defines is plain.
proof fn lemma_rhs_symbol(rhs: Seq<char>, no: nat, names: Seq<Seq<char>>)
    requires
        comment_free(rhs),
    ensures
        rhs_node(rhs, no, names) matches Ok(SpecKey::Symbol(name)) ==> plain_symbol(name),
{
    let t = words(rhs, false);
    if let Ok(SpecKey::Symbol(name)) = rhs_node(rhs, no, names) {
        assert(Seq::<char>::empty() =~= rhs.subrange(0, 0));
        lemma_words_pieces(rhs, 0, seq![], false);
        assert(t.len() == 1);
        assert(name == t[0]);
        assert(plain_word(t[0], false));
        assert(is_piece(t[0], rhs));
        let st = choose|st: int| #[trigger] piece_at(t[0], rhs, st);
        lemma_comment_free_sub(rhs, st, st + t[0].len());
        assert forall|k: int| 0 <= k < name.len() implies #[trigger] name[k] != '#' && name[k] != '\n' && name[k] != '\r' by {
            assert(!is_sep(name[k], false));
            assert(is_ws('\n') && is_ws('\r'));
        }
    }
}

proof fn lemma_resolve_bound(names: Seq<Seq<char>>, ws: Seq<Seq<char>>)
    ensures
        resolve_outputs(names, ws) matches Ok(ids) ==> forall|i: int|
            0 <= i < ids.len() ==> #[trigger] ids[i] < names.len(),
    decreases ws.len(),
{
    if ws.len() > 0 {
        lemma_find_name(names, ws[0], 0);
        lemma_resolve_bound(names, ws.drop_first());
        if let Ok(ids) = resolve_outputs(names, ws) {
            let r = resolve_outputs(names, ws.drop_first())->Ok_0;
            assert forall|i: int| 0 <= i < ids.len() implies #[trigger] ids[i] < names.len() by {
                if i > 0 {
                    assert(ids[i] == r[i - 1]);
                }
            }
        }
    }
}

/// One accepted line keeps the program well formed and its symbols plain.
proof fn lemma_line_keeps(line: Seq<char>, no: nat, st: ParseState)
    requires
        state_wf(st),
        plain_symbols(st.nodes),
    ensures
        parse_line(line, no, st) matches Ok(s2) ==> state_wf(s2) && plain_symbols(s2.nodes),
{
    let l = clean_line(line);
    lemma_clean_comment_free(line);
    let cut = cut_at_char(l, '=');
    lemma_cut_char_prefix(l, '=');
    if l.len() > 0 && cut.len() != l.len() {
        let lhs = trim(cut);
        let rest = l.subrange(cut.len() + 1 as int, l.len() as int);
        let rhs = trim(rest);
        lemma_comment_free_sub(l, cut.len() + 1 as int, l.len() as int);
        lemma_trim_comment_free(rest);
        lemma_rhs_symbol(rhs, no, st.names);
        lemma_resolve_bound(st.names, words(rhs, true));
        let t = words(rhs, false);
        if t.len() >= 1 {
            lemma_find_name(st.names, t[0], 0);
        }
        if t.len() >= 2 {
            lemma_find_name(st.names, t[1], 0);
        }
        if t.len() >= 3 {
            lemma_find_name(st.names, t[2], 0);
        }
        if let Ok(s2) = parse_line(line, no, st) {
            if lhs == "output"@ || lhs == "outputs"@ {
                assert(s2.nodes == st.nodes);
            } else {
                let k = rhs_node(rhs, no, st.names)->Ok_0;
                assert(s2.nodes == st.nodes.push(k));
                assert(s2.names == st.names.push(lhs));
                assert forall|j: int| 0 <= j < key_children(k).len() implies #[trigger] key_children(k)[j] < st.nodes.len() by {}
                assert forall|i: int, j: int|
                    0 <= i < s2.nodes.len() && 0 <= j < key_children(#[trigger] s2.nodes[i]).len()
                    implies #[trigger] key_children(s2.nodes[i])[j] < i by {
                    if i < st.nodes.len() {
                        assert(s2.nodes[i] == st.nodes[i]);
                    }
                }
                assert forall|i: int| 0 <= i < s2.nodes.len() implies (#[trigger] s2.nodes[i] matches SpecKey::Symbol(name) ==> plain_symbol(name)) by {
                    if i < st.nodes.len() {
                        assert(s2.nodes[i] == st.nodes[i]);
                    }
                }
            }
        }
    }
}

proof fn lemma_lines_keep(lines: Seq<Seq<char>>, i: int, st: ParseState)
    requires
        0 <= i,
        state_wf(st),
        plain_symbols(st.nodes),
    ensures
        parse_lines(lines, i, st) matches Ok(s2) ==> state_wf(s2) && plain_symbols(s2.nodes),
    decreases lines.len() - i,
{
    if i < lines.len() {
        lemma_line_keeps(lines[i], (i + 1) as nat, st);
        if let Ok(st2) = parse_line(lines[i], (i + 1) as nat, st) {
            lemma_lines_keep(lines, i + 1, st2);
        }
    }
}

/// Every program that `ProgramDag::parse` accepts is a DAG, and each of its
/// symbols is one word that holds no comment marker and is not a number.
pub proof fn lemma_parsed_program_plain(text: Seq<char>)
    ensures
        spec_parse(text) matches Ok(st) ==> dag_wf(st.nodes, st.outputs) && plain_symbols(st.nodes),
{
    lemma_parse_outputs(text);
    lemma_lines_keep(spec_lines(text), 0, empty_state());
}

/// A program that `ProgramDag::parse` accepts, printed by `dag_to_text`,
/// parses back to the same nodes and the same outputs.
pub proof fn lemma_parsed_text_round_trip(text: Seq<char>)
    requires
        spec_parse(text) matches Ok(st) && st.nodes.len() <= usize::MAX,
    ensures
        spec_parse(text) matches Ok(st) && spec_parse(dag_text(st.nodes, st.outputs)) matches Ok(
            st2,
        ) && st2.nodes == st.nodes && st2.outputs == st.outputs,
{
    lemma_parsed_program_plain(text);
    let st = spec_parse(text)->Ok_0;
    lemma_text_parses_back(st.nodes, st.outputs);
}

} // verus!
