//! Laws of the program text format: a comment appended to a line changes
//! nothing of the program, and a program has one node per definition line.
use vstd::prelude::*;
use crate::dag_parser::{clean_line, parse_line, parse_lines, spec_parse, ParseState};
use crate::text::{
    cut_at_char, cut_at_slashes, is_ws, lines_acc, spec_lines, strip_cr, trim, trim_end,
    trim_start,
};
use crate::text_round_trip::{lemma_cut_char_prefix, lemma_cut_slashes_prefix, lemma_lines_shift};

verus! {

// ---------------------------------------------------------------------
// Cutting a concatenation
// ---------------------------------------------------------------------
pub(crate) proof fn lemma_cut_char_concat(p: Seq<char>, q: Seq<char>, c: char)
    ensures
        cut_at_char(p + q, c) == if cut_at_char(p, c).len() == p.len() {
            p + cut_at_char(q, c)
        } else {
            cut_at_char(p, c)
        },
    decreases p.len(),
{
    lemma_cut_char_prefix(p, c);
    if p.len() == 0 {
        assert(p + q =~= q);
        assert(p + cut_at_char(q, c) =~= cut_at_char(q, c));
    } else {
        assert((p + q)[0] == p[0]);
        assert((p + q).drop_first() =~= p.drop_first() + q);
        if p[0] != c {
            lemma_cut_char_concat(p.drop_first(), q, c);
            lemma_cut_char_prefix(p.drop_first(), c);
            if cut_at_char(p.drop_first(), c).len() == p.drop_first().len() {
                assert(seq![p[0]] + (p.drop_first() + cut_at_char(q, c)) =~= p + cut_at_char(q, c));
            }
        }
    }
}

proof fn lemma_cut_slashes_concat(p: Seq<char>, q: Seq<char>)
    requires
        q.len() == 0 || q[0] != '/',
    ensures
        cut_at_slashes(p + q) == if cut_at_slashes(p).len() == p.len() {
            p + cut_at_slashes(q)
        } else {
            cut_at_slashes(p)
        },
    decreases p.len(),
{
    lemma_cut_slashes_prefix(p);
    if p.len() == 0 {
        assert(p + q =~= q);
        assert(p + cut_at_slashes(q) =~= cut_at_slashes(q));
    } else {
        assert((p + q)[0] == p[0]);
        if p.len() >= 2 {
            assert((p + q)[1] == p[1]);
        } else if q.len() > 0 {
            assert((p + q)[1] == q[0]);
        }
        assert((p + q).drop_first() =~= p.drop_first() + q);
        if !(p.len() >= 2 && p[0] == '/' && p[1] == '/') {
            lemma_cut_slashes_concat(p.drop_first(), q);
            lemma_cut_slashes_prefix(p.drop_first());
            if cut_at_slashes(p.drop_first()).len() == p.drop_first().len() {
                assert(seq![p[0]] + (p.drop_first() + cut_at_slashes(q)) =~= p + cut_at_slashes(q));
            }
        }
    }
}

proof fn lemma_trim_start_concat(x: Seq<char>, q: Seq<char>)
    ensures
        trim_start(x + q) == if trim_start(x).len() > 0 {
            trim_start(x) + q
        } else {
            trim_start(q)
        },
    decreases x.len(),
{
    if x.len() == 0 {
        assert(x + q =~= q);
    } else {
        assert((x + q)[0] == x[0]);
        assert((x + q).drop_first() =~= x.drop_first() + q);
        if is_ws(x[0]) {
            lemma_trim_start_concat(x.drop_first(), q);
        }
    }
}

/// A trailing space does not survive trimming.
/// Blanks that hold no comment marker.
pub open spec fn blanks(w: Seq<char>) -> bool {
    forall|k: int| 0 <= k < w.len() ==> is_ws(#[trigger] w[k]) && w[k] != '#' && w[k] != '/'
}

proof fn lemma_trim_end_blanks(y: Seq<char>, w: Seq<char>)
    requires
        blanks(w),
    ensures
        trim_end(y + w) == trim_end(y),
    decreases w.len(),
{
    if w.len() == 0 {
        assert(y + w =~= y);
    } else {
        assert(is_ws(w[w.len() - 1]));
        assert((y + w).drop_last() =~= y + w.drop_last());
        assert(blanks(w.drop_last())) by {
            assert forall|k: int| 0 <= k < w.drop_last().len() implies is_ws(#[trigger] w.drop_last()[k])
                && w.drop_last()[k] != '#' && w.drop_last()[k] != '/' by {
                assert(w.drop_last()[k] == w[k]);
            }
        }
        lemma_trim_end_blanks(y, w.drop_last());
    }
}

proof fn lemma_trim_start_blanks(w: Seq<char>)
    requires
        blanks(w),
    ensures
        trim_start(w).len() == 0,
    decreases w.len(),
{
    if w.len() > 0 {
        assert(is_ws(w[0]));
        assert(blanks(w.drop_first())) by {
            assert forall|k: int| 0 <= k < w.drop_first().len() implies is_ws(#[trigger] w.drop_first()[k])
                && w.drop_first()[k] != '#' && w.drop_first()[k] != '/' by {
                assert(w.drop_first()[k] == w[k + 1]);
            }
        }
        lemma_trim_start_blanks(w.drop_first());
    }
}

/// Trailing blanks do not survive trimming.
pub(crate) proof fn lemma_trim_blanks(x: Seq<char>, w: Seq<char>)
    requires
        blanks(w),
    ensures
        trim(x + w) == trim(x),
{
    lemma_trim_start_concat(x, w);
    if trim_start(x).len() > 0 {
        lemma_trim_end_blanks(trim_start(x), w);
    } else {
        lemma_trim_start_blanks(w);
        let e = Seq::<char>::empty();
        assert(trim_start(w) =~= e);
        assert(trim_start(x) =~= e);
    }
}

pub(crate) proof fn lemma_cut_char_none(w: Seq<char>, c: char)
    requires
        forall|k: int| 0 <= k < w.len() ==> #[trigger] w[k] != c,
    ensures
        cut_at_char(w, c) == w,
    decreases w.len(),
{
    if w.len() > 0 {
        assert(w[0] != c);
        assert forall|k: int| 0 <= k < w.drop_first().len() implies #[trigger] w.drop_first()[k] != c by {
            assert(w.drop_first()[k] == w[k + 1]);
        }
        lemma_cut_char_none(w.drop_first(), c);
        assert(seq![w[0]] + w.drop_first() =~= w);
    }
}

proof fn lemma_cut_slashes_none(w: Seq<char>)
    requires
        forall|k: int| 0 <= k < w.len() ==> #[trigger] w[k] != '/',
    ensures
        cut_at_slashes(w) == w,
    decreases w.len(),
{
    if w.len() > 0 {
        assert(w[0] != '/');
        assert forall|k: int| 0 <= k < w.drop_first().len() implies #[trigger] w.drop_first()[k] != '/' by {
            assert(w.drop_first()[k] == w[k + 1]);
        }
        lemma_cut_slashes_none(w.drop_first());
        assert(seq![w[0]] + w.drop_first() =~= w);
    }
}

/// Text without slashes before `//` is kept whole.
proof fn lemma_cut_slashes_before(w: Seq<char>, r: Seq<char>)
    requires
        forall|k: int| 0 <= k < w.len() ==> #[trigger] w[k] != '/',
        r.len() >= 2,
        r[0] == '/',
        r[1] == '/',
    ensures
        cut_at_slashes(w + r) == w,
    decreases w.len(),
{
    if w.len() == 0 {
        assert(w + r =~= r);
    } else {
        assert((w + r)[0] == w[0]);
        assert((w + r).drop_first() =~= w.drop_first() + r);
        assert forall|k: int| 0 <= k < w.drop_first().len() implies #[trigger] w.drop_first()[k] != '/' by {
            assert(w.drop_first()[k] == w[k + 1]);
        }
        lemma_cut_slashes_before(w.drop_first(), r);
        assert(seq![w[0]] + w.drop_first() =~= w);
    }
}

// ---------------------------------------------------------------------
// Comments
// ---------------------------------------------------------------------
/// A comment started by `#` or `//` after blanks (spaces, or a carriage
/// return and a space), appended to a line, does not change the line's
/// content.
pub proof fn lemma_comment_after_blanks(l: Seq<char>, w: Seq<char>, c: Seq<char>)
    requires
        w.len() > 0,
        blanks(w),
    ensures
        clean_line(l + (w + seq!['#'] + c)) == clean_line(l),
        clean_line(l + (w + seq!['/', '/'] + c)) == clean_line(l),
{
    let h = w + seq!['#'] + c;
    let s = w + seq!['/', '/'] + c;
    assert forall|k: int| 0 <= k < w.len() implies #[trigger] w[k] != '#' && w[k] != '/' by {}
    lemma_cut_char_prefix(l, '#');
    lemma_cut_slashes_prefix(l);
    lemma_cut_char_concat(l, h, '#');
    lemma_cut_char_concat(l, s, '#');
    if cut_at_char(l, '#').len() == l.len() {
        assert(cut_at_char(l, '#') =~= l);
        // `#`: the comment leaves the blanks.
        lemma_cut_char_none(w, '#');
        assert(h =~= w + (seq!['#'] + c));
        lemma_cut_char_concat(w, seq!['#'] + c, '#');
        assert((seq!['#'] + c)[0] == '#');
        assert(cut_at_char(seq!['#'] + c, '#') == Seq::<char>::empty());
        assert(cut_at_char(h, '#') =~= w);
        assert(w[0] != '/');
        lemma_cut_slashes_concat(l, w);
        lemma_cut_slashes_none(w);
        if cut_at_slashes(l).len() == l.len() {
            assert(cut_at_slashes(l) =~= l);
            lemma_trim_blanks(l, w);
        }
        // `//`: no `#` is cut before the slashes, then the slashes are.
        let k = cut_at_char(c, '#');
        let q = seq!['/', '/'] + c;
        assert(s =~= w + q);
        lemma_cut_char_concat(w, q, '#');
        assert(q.drop_first().drop_first() =~= c);
        assert(cut_at_char(q.drop_first(), '#') == seq![q.drop_first()[0]] + cut_at_char(
            q.drop_first().drop_first(),
            '#',
        ));
        assert(cut_at_char(q, '#') == seq![q[0]] + cut_at_char(q.drop_first(), '#'));
        assert(cut_at_char(q, '#') =~= seq!['/', '/'] + k);
        let t = w + (seq!['/', '/'] + k);
        assert(cut_at_char(s, '#') =~= t);
        lemma_cut_slashes_concat(l, t);
        lemma_cut_slashes_before(w, seq!['/', '/'] + k);
        if cut_at_slashes(l).len() == l.len() {
            assert(cut_at_slashes(l) =~= l);
            lemma_trim_blanks(l, w);
        }
    }
}

/// A comment started by `#` or `//` after a space, appended to a line,
/// does not change the line's content.
pub proof fn lemma_comment_suffix(l: Seq<char>, c: Seq<char>)
    ensures
        clean_line(l + (seq![' ', '#'] + c)) == clean_line(l),
        clean_line(l + (seq![' ', '/', '/'] + c)) == clean_line(l),
{
    let w = seq![' '];
    assert(is_ws(' '));
    assert(blanks(w));
    lemma_comment_after_blanks(l, w, c);
    assert(w + seq!['#'] + c =~= seq![' ', '#'] + c);
    assert(w + seq!['/', '/'] + c =~= seq![' ', '/', '/'] + c);
}

proof fn lemma_parse_same_content(l1: Seq<Seq<char>>, l2: Seq<Seq<char>>, i: int, st: ParseState)
    requires
        l1.len() == l2.len(),
        forall|j: int| 0 <= j < l1.len() ==> clean_line(#[trigger] l1[j]) == clean_line(l2[j]),
    ensures
        parse_lines(l1, i, st) == parse_lines(l2, i, st),
    decreases l1.len() - i,
{
    if 0 <= i < l1.len() {
        assert(clean_line(l1[i]) == clean_line(l2[i]));
        assert(parse_line(l1[i], (i + 1) as nat, st) == parse_line(l2[i], (i + 1) as nat, st));
        if let Ok(st2) = parse_line(l1[i], (i + 1) as nat, st) {
            lemma_parse_same_content(l1, l2, i + 1, st2);
        }
    }
}

// ---------------------------------------------------------------------
// Lines of a concatenation
// ---------------------------------------------------------------------
/// The lines that `a` completes, scanned from `i` with `cur` in progress.
pub open spec fn done_lines(a: Seq<char>, i: int, cur: Seq<char>) -> Seq<Seq<char>>
    decreases a.len() - i,
{
    if i < 0 || i >= a.len() {
        seq![]
    } else if a[i] == '\n' {
        seq![strip_cr(cur)] + done_lines(a, i + 1, seq![])
    } else {
        done_lines(a, i + 1, cur.push(a[i]))
    }
}

/// The line in progress at the end of `a`.
pub open spec fn open_line(a: Seq<char>, i: int, cur: Seq<char>) -> Seq<char>
    decreases a.len() - i,
{
    if i < 0 || i >= a.len() {
        cur
    } else if a[i] == '\n' {
        open_line(a, i + 1, seq![])
    } else {
        open_line(a, i + 1, cur.push(a[i]))
    }
}

proof fn lemma_lines_split(a: Seq<char>, x: Seq<char>, i: int, cur: Seq<char>)
    requires
        0 <= i <= a.len(),
    ensures
        lines_acc(a + x, i, cur) == done_lines(a, i, cur) + lines_acc(x, 0, open_line(a, i, cur)),
    decreases a.len() - i,
{
    if i == a.len() {
        lemma_lines_shift(a, x, 0, cur);
        assert(done_lines(a, i, cur) + lines_acc(x, 0, cur) =~= lines_acc(x, 0, cur));
    } else {
        assert((a + x)[i] == a[i]);
        if a[i] == '\n' {
            lemma_lines_split(a, x, i + 1, seq![]);
            assert(seq![strip_cr(cur)] + (done_lines(a, i + 1, seq![]) + lines_acc(
                x,
                0,
                open_line(a, i + 1, seq![]),
            )) =~= done_lines(a, i, cur) + lines_acc(x, 0, open_line(a, i, cur)));
        } else {
            lemma_lines_split(a, x, i + 1, cur.push(a[i]));
        }
    }
}

proof fn lemma_open_line_nonempty(a: Seq<char>, i: int, cur: Seq<char>)
    requires
        0 <= i < a.len(),
        a.last() != '\n',
    ensures
        open_line(a, i, cur).len() > 0,
    decreases a.len() - i,
{
    if i + 1 < a.len() {
        if a[i] == '\n' {
            lemma_open_line_nonempty(a, i + 1, seq![]);
        } else {
            lemma_open_line_nonempty(a, i + 1, cur.push(a[i]));
        }
    } else {
        assert(a[i] == a.last());
        assert(open_line(a, i + 1, cur.push(a[i])) == cur.push(a[i]));
        assert(open_line(a, i, cur) == open_line(a, i + 1, cur.push(a[i])));
    }
}

/// Position `k` of `t` ends the content of a line: a line break (`\n` or
/// `\r\n`) follows, or the text ends there after a line without a final
/// line break.
pub open spec fn line_end(t: Seq<char>, k: int) -> bool {
    &&& 0 <= k <= t.len()
    &&& if k == t.len() {
        k > 0 && t[k - 1] != '\n'
    } else {
        t[k] == '\n' || (k + 1 < t.len() && t[k] == '\r' && t[k + 1] == '\n')
    }
}

/// The comment `#c` (or `//c` with `slashes`) after a space.
pub open spec fn comment(c: Seq<char>, slashes: bool) -> Seq<char> {
    if slashes {
        seq![' ', '/', '/'] + c
    } else {
        seq![' ', '#'] + c
    }
}

/// A line whose content ends in a comment, or that ended in a carriage
/// return before it, keeps its content when the trailing carriage return
/// is stripped.
proof fn lemma_comment_strip_cr(t: Seq<char>, c: Seq<char>, slashes: bool)
    ensures
        clean_line(strip_cr(t + comment(c, slashes))) == clean_line(strip_cr(t)),
{
    let m: Seq<char> = if slashes {
        seq!['/', '/']
    } else {
        seq!['#']
    };
    let c2 = if c.len() > 0 && c.last() == '\r' {
        c.drop_last()
    } else {
        c
    };
    let s = comment(c, slashes);
    assert(s =~= seq![' '] + m + c);
    assert(strip_cr(t + s) =~= t + (seq![' '] + m + c2)) by {
        if c.len() > 0 && c.last() == '\r' {
            assert((t + s).last() == '\r');
            assert((t + s).drop_last() =~= t + (seq![' '] + m + c2));
        } else if c.len() > 0 {
            assert((t + s).last() == c.last());
        } else {
            assert((t + s).last() == m.last());
        }
    }
    assert(is_ws(' ') && is_ws('\r'));
    if t.len() > 0 && t.last() == '\r' {
        let t0 = t.drop_last();
        let w = seq!['\r', ' '];
        assert(blanks(w));
        lemma_comment_after_blanks(t0, w, c2);
        assert(t + (seq![' '] + m + c2) =~= t0 + (w + m + c2));
        assert(strip_cr(t) == t0);
    } else {
        let w = seq![' '];
        assert(blanks(w));
        lemma_comment_after_blanks(t, w, c2);
    }
}

/// Appending a comment (`#` or `//` after a space) at the end of any line
/// of a program, in text with or without carriage returns and with or
/// without a final line break, changes nothing of what it parses to: the
/// same program, or the same error.
pub proof fn lemma_comment_changes_nothing(t: Seq<char>, k: int, c: Seq<char>, slashes: bool)
    requires
        line_end(t, k),
        forall|j: int| 0 <= j < c.len() ==> #[trigger] c[j] != '\n',
    ensures
        spec_parse(t.subrange(0, k) + comment(c, slashes) + t.subrange(k, t.len() as int))
            == spec_parse(t),
{
    let a = t.subrange(0, k);
    let b = t.subrange(k, t.len() as int);
    let s = comment(c, slashes);
    let t2 = a + s + b;
    assert(t =~= a + b);
    assert(t2 =~= a + (s + b));
    let tl = open_line(a, 0, seq![]);
    let dl = done_lines(a, 0, seq![]);
    lemma_lines_split(a, b, 0, seq![]);
    lemma_lines_split(a, s + b, 0, seq![]);
    // The comment holds no line break.
    assert forall|j: int| 0 <= j < s.len() implies (s + b)[j] != '\n' by {
        assert((s + b)[j] == s[j]);
        if j >= s.len() - c.len() {
            assert(s[j] == c[j - (s.len() - c.len())]);
        }
    }
    crate::text_round_trip::lemma_lines_scan(s + b, 0, s.len() as int, tl);
    assert((s + b).subrange(0, s.len() as int) =~= s);
    lemma_lines_shift(s, b, 0, tl + s);
    let r1 = lines_acc(b, 0, tl + s);
    let r0 = lines_acc(b, 0, tl);
    // Both differ only in the line that receives the comment.
    let e = Seq::<char>::empty();
    if b.len() == 0 {
        lemma_open_line_nonempty(a, 0, e);
        assert(a.last() == t[k - 1]);
        assert(r1 == seq![tl + s]);
        assert(r0 == seq![tl]);
        lemma_comment_suffix(tl, c);
        assert(lines_acc(b, 1, e) =~= Seq::<Seq<char>>::empty());
        assert(r1 == seq![tl + s] + lines_acc(b, 1, e));
        assert(r0 == seq![tl] + lines_acc(b, 1, e));
        lemma_same_but_one(dl, tl + s, tl, lines_acc(b, 1, e));
    } else if b[0] == '\n' {
        lemma_comment_strip_cr(tl, c, slashes);
        assert(r1 == seq![strip_cr(tl + s)] + lines_acc(b, 1, e));
        assert(r0 == seq![strip_cr(tl)] + lines_acc(b, 1, e));
        lemma_same_but_one(dl, strip_cr(tl + s), strip_cr(tl), lines_acc(b, 1, e));
    } else {
        assert(b[0] == '\r' && b[1] == '\n');
        let x1 = (tl + s).push('\r');
        let x0 = tl.push('\r');
        assert(r1 == lines_acc(b, 1, x1));
        assert(r0 == lines_acc(b, 1, x0));
        assert(strip_cr(x1) =~= tl + s);
        assert(strip_cr(x0) =~= tl);
        lemma_comment_suffix(tl, c);
        lemma_same_but_one(dl, tl + s, tl, lines_acc(b, 2, e));
    }
}

/// Line sequences that differ in one line of the same content parse alike.
proof fn lemma_same_but_one(
    dl: Seq<Seq<char>>,
    l1: Seq<char>,
    l0: Seq<char>,
    rest: Seq<Seq<char>>,
)
    requires
        clean_line(l1) == clean_line(l0),
    ensures
        parse_lines(dl + (seq![l1] + rest), 0, crate::dag_parser::empty_state()) == parse_lines(
            dl + (seq![l0] + rest),
            0,
            crate::dag_parser::empty_state(),
        ),
{
    let x1 = dl + (seq![l1] + rest);
    let x0 = dl + (seq![l0] + rest);
    assert forall|j: int| 0 <= j < x1.len() implies clean_line(#[trigger] x1[j]) == clean_line(x0[j]) by {
        if j < dl.len() {
            assert(x1[j] == dl[j] && x0[j] == dl[j]);
        } else if j == dl.len() {
            assert(x1[j] == l1 && x0[j] == l0);
        } else {
            assert(x1[j] == rest[j - dl.len() - 1] && x0[j] == rest[j - dl.len() - 1]);
        }
    }
    lemma_parse_same_content(x1, x0, 0, crate::dag_parser::empty_state());
}

// ---------------------------------------------------------------------
// One node per definition
// ---------------------------------------------------------------------
/// A line that defines a node: content left after removing its comment,
/// and not an `output` or `outputs` declaration.
pub open spec fn is_definition(line: Seq<char>) -> bool {
    let l = clean_line(line);
    let lhs = trim(cut_at_char(l, '='));
    l.len() > 0 && lhs != "output"@ && lhs != "outputs"@
}

/// Definition lines from line `i` on.
pub open spec fn definition_count(lines: Seq<Seq<char>>, i: int) -> nat
    decreases lines.len() - i,
{
    if i < 0 || i >= lines.len() {
        0
    } else {
        (if is_definition(lines[i]) {
            1nat
        } else {
            0nat
        }) + definition_count(lines, i + 1)
    }
}

proof fn lemma_count_nodes(lines: Seq<Seq<char>>, i: int, st: ParseState)
    requires
        0 <= i,
    ensures
        parse_lines(lines, i, st) matches Ok(s2) ==> s2.nodes.len() == st.nodes.len()
            + definition_count(lines, i),
    decreases lines.len() - i,
{
    if i < lines.len() {
        if let Ok(st2) = parse_line(lines[i], (i + 1) as nat, st) {
            assert(st2.nodes.len() == st.nodes.len() + if is_definition(lines[i]) {
                1nat
            } else {
                0nat
            });
            lemma_count_nodes(lines, i + 1, st2);
        }
    }
}

/// A parsed program has one node per definition line: blank lines,
/// comment-only lines and the output declaration define none.
pub proof fn lemma_one_node_per_definition(text: Seq<char>)
    ensures
        spec_parse(text) matches Ok(st) ==> st.nodes.len() == definition_count(spec_lines(text), 0),
{
    lemma_count_nodes(spec_lines(text), 0, crate::dag_parser::empty_state());
}

} // verus!
