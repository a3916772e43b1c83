//! Character-level helpers shared by the textual front ends: Unicode
//! whitespace, trimming, decimal rendering and decimal parsing.
use vstd::prelude::*;

verus! {

/// The Unicode `White_Space` property, as tested by `char::is_whitespace`.
pub open spec fn is_ws(c: char) -> bool {
    let u = c as u32;
    ||| (0x9 <= u && u <= 0xd)
    ||| u == 0x20
    ||| u == 0x85
    ||| u == 0xa0
    ||| u == 0x1680
    ||| (0x2000 <= u && u <= 0x200a)
    ||| u == 0x2028
    ||| u == 0x2029
    ||| u == 0x202f
    ||| u == 0x205f
    ||| u == 0x3000
}

pub fn is_whitespace(c: char) -> (res: bool)
    ensures
        res == is_ws(c),
{
    let u = c as u32;
    (0x9 <= u && u <= 0xd) || u == 0x20 || u == 0x85 || u == 0xa0 || u == 0x1680 || (0x2000 <= u
        && u <= 0x200a) || u == 0x2028 || u == 0x2029 || u == 0x202f || u == 0x205f || u == 0x3000
}

pub open spec fn is_digit(c: char) -> bool {
    '0' <= c && c <= '9'
}

pub open spec fn digit_val(c: char) -> nat {
    (c as u32 - '0' as u32) as nat
}

pub open spec fn digit_char(d: nat) -> char {
    ((d + '0' as u32) as u32) as char
}

pub fn is_ascii_digit(c: char) -> (res: bool)
    ensures
        res == is_digit(c),
{
    '0' <= c && c <= '9'
}

/// The characters of a string slice, in order.
pub(crate) fn str_chars(s: &str) -> (res: Vec<char>)
    ensures
        res@ == s@,
{
    let mut res: Vec<char> = Vec::new();
    for ch in it: s.chars()
        invariant
            it.seq() == s@,
            res@ == it.seq().subrange(0, it.index() as int),
    {
        res.push(ch);
    }
    res
}

/// A string of the given characters: collecting `slice::iter` into a
/// `String`. Trusted to hold exactly those characters, in order, as
/// `FromIterator<&char>` for `String` documents.
#[verifier::external_body]
pub(crate) fn string_from_chars(v: &[char]) -> (res: String)
    ensures
        res@ == v@,
{
    v.iter().collect()
}

pub fn copy_range(v: &[char], lo: usize, hi: usize) -> (res: Vec<char>)
    requires
        lo <= hi <= v@.len(),
    ensures
        res@ == v@.subrange(lo as int, hi as int),
{
    let mut res: Vec<char> = Vec::new();
    let mut i = lo;
    while i < hi
        invariant
            lo <= i <= hi <= v@.len(),
            res@ == v@.subrange(lo as int, i as int),
        decreases hi - i,
    {
        res.push(v[i]);
        i = i + 1;
    }
    res
}

pub fn append_chars(dst: &mut Vec<char>, src: &[char])
    ensures
        final(dst)@ == old(dst)@ + src@,
{
    let mut i: usize = 0;
    while i < src.len()
        invariant
            i <= src@.len(),
            dst@ == old(dst)@ + src@.subrange(0, i as int),
        decreases src@.len() - i,
    {
        dst.push(src[i]);
        i = i + 1;
    }
    assert(src@.subrange(0, src@.len() as int) =~= src@);
}

pub fn chars_eq(a: &[char], b: &[char]) -> (res: bool)
    ensures
        res == (a@ == b@),
{
    if a.len() != b.len() {
        return false;
    }
    let mut i: usize = 0;
    while i < a.len()
        invariant
            a@.len() == b@.len(),
            i <= a@.len(),
            forall|j: int| 0 <= j < i ==> a@[j] == b@[j],
        decreases a@.len() - i,
    {
        if a[i] != b[i] {
            return false;
        }
        i = i + 1;
    }
    assert(a@ =~= b@);
    true
}

// ---------------------------------------------------------------------
// Trimming
// ---------------------------------------------------------------------
pub open spec fn trim_start(s: Seq<char>) -> Seq<char>
    decreases s.len(),
{
    if s.len() > 0 && is_ws(s[0]) {
        trim_start(s.drop_first())
    } else {
        s
    }
}

pub open spec fn trim_end(s: Seq<char>) -> Seq<char>
    decreases s.len(),
{
    if s.len() > 0 && is_ws(s.last()) {
        trim_end(s.drop_last())
    } else {
        s
    }
}

/// `str::trim`: leading and trailing whitespace removed.
pub open spec fn trim(s: Seq<char>) -> Seq<char> {
    trim_end(trim_start(s))
}

proof fn lemma_trim_start_skip(s: Seq<char>, i: int)
    requires
        0 <= i <= s.len(),
        forall|j: int| 0 <= j < i ==> is_ws(#[trigger] s[j]),
    ensures
        trim_start(s) == trim_start(s.subrange(i, s.len() as int)),
    decreases i,
{
    if i > 0 {
        assert(s.drop_first().subrange(i - 1, s.drop_first().len() as int) =~= s.subrange(
            i,
            s.len() as int,
        ));
        lemma_trim_start_skip(s.drop_first(), i - 1);
    } else {
        assert(s.subrange(0, s.len() as int) =~= s);
    }
}

proof fn lemma_trim_end_cut(s: Seq<char>, k: int)
    requires
        0 <= k <= s.len(),
        forall|j: int| k <= j < s.len() ==> is_ws(#[trigger] s[j]),
    ensures
        trim_end(s) == trim_end(s.subrange(0, k)),
    decreases s.len() - k,
{
    if k < s.len() {
        assert(s.drop_last().subrange(0, k) =~= s.subrange(0, k));
        lemma_trim_end_cut(s.drop_last(), k);
    } else {
        assert(s.subrange(0, k) =~= s);
    }
}

/// Bounds `(lo, hi)` such that `v[lo..hi]` is the trimmed text.
pub fn trim_bounds(v: &[char]) -> (res: (usize, usize))
    ensures
        res.0 <= res.1 <= v@.len(),
        v@.subrange(res.0 as int, res.1 as int) == trim(v@),
{
    let mut lo: usize = 0;
    while lo < v.len() && is_whitespace(v[lo])
        invariant
            lo <= v@.len(),
            forall|j: int| 0 <= j < lo ==> is_ws(#[trigger] v@[j]),
        decreases v@.len() - lo,
    {
        lo = lo + 1;
    }
    proof {
        lemma_trim_start_skip(v@, lo as int);
    }
    let ghost rest = v@.subrange(lo as int, v@.len() as int);
    assert(trim_start(rest) == rest);
    let mut hi: usize = v.len();
    while hi > lo && is_whitespace(v[hi - 1])
        invariant
            lo <= hi <= v@.len(),
            rest == v@.subrange(lo as int, v@.len() as int),
            forall|j: int| hi <= j < v@.len() ==> is_ws(#[trigger] v@[j]),
        decreases hi,
    {
        hi = hi - 1;
    }
    proof {
        let k = hi - lo;
        assert forall|j: int| k <= j < rest.len() implies is_ws(#[trigger] rest[j]) by {
            assert(rest[j] == v@[j + lo]);
        }
        lemma_trim_end_cut(rest, k);
        assert(rest.subrange(0, k) =~= v@.subrange(lo as int, hi as int));
    }
    (lo, hi)
}

pub fn trim_chars(v: &[char]) -> (res: Vec<char>)
    ensures
        res@ == trim(v@),
{
    let (lo, hi) = trim_bounds(v);
    copy_range(v, lo, hi)
}

// ---------------------------------------------------------------------
// Decimal rendering
// ---------------------------------------------------------------------
/// Decimal digits of a natural number, most significant first, no padding.
pub open spec fn nat_digits(n: nat) -> Seq<char>
    decreases n,
{
    if n < 10 {
        seq![digit_char(n)]
    } else {
        nat_digits(n / 10).push(digit_char(n % 10))
    }
}

/// `format!("{n}")` for an `i64`.
pub open spec fn int_text(n: int) -> Seq<char> {
    if n < 0 {
        seq!['-'] + nat_digits((-n) as nat)
    } else {
        nat_digits(n as nat)
    }
}

/// Zero padding on the left up to `width` characters (`{:0width}`).
pub open spec fn zero_pad(s: Seq<char>, width: nat) -> Seq<char> {
    if s.len() < width {
        Seq::new((width - s.len()) as nat, |i: int| '0') + s
    } else {
        s
    }
}

pub fn u64_digits(n: u64) -> (res: Vec<char>)
    ensures
        res@ == nat_digits(n as nat),
    decreases n,
{
    if n < 10 {
        let c = char_of_digit(n);
        let mut v = Vec::new();
        v.push(c);
        v
    } else {
        let mut v = u64_digits(n / 10);
        let c = char_of_digit(n % 10);
        v.push(c);
        v
    }
}

fn char_of_digit(d: u64) -> (c: char)
    requires
        d < 10,
    ensures
        c == digit_char(d as nat),
        is_digit(c),
        digit_val(c) == d,
{
    let c = if d == 0 {
        '0'
    } else if d == 1 {
        '1'
    } else if d == 2 {
        '2'
    } else if d == 3 {
        '3'
    } else if d == 4 {
        '4'
    } else if d == 5 {
        '5'
    } else if d == 6 {
        '6'
    } else if d == 7 {
        '7'
    } else if d == 8 {
        '8'
    } else {
        '9'
    };
    c
}

pub fn usize_digits(n: usize) -> (res: Vec<char>)
    ensures
        res@ == nat_digits(n as nat),
{
    u64_digits(n as u64)
}

pub fn i64_text(n: i64) -> (res: Vec<char>)
    ensures
        res@ == int_text(n as int),
{
    if n < 0 {
        let m: u64 = (-(n as i128)) as u64;
        let d = u64_digits(m);
        let mut v = Vec::new();
        v.push('-');
        append_chars(&mut v, &d);
        v
    } else {
        u64_digits(n as u64)
    }
}

pub fn zero_padded(s: &[char], width: usize) -> (res: Vec<char>)
    ensures
        res@ == zero_pad(s@, width as nat),
{
    let mut v: Vec<char> = Vec::new();
    if s.len() < width {
        let fill = width - s.len();
        let mut i: usize = 0;
        while i < fill
            invariant
                i <= fill,
                v@ == Seq::new(i as nat, |k: int| '0'),
            decreases fill - i,
        {
            v.push('0');
            i = i + 1;
            assert(v@ =~= Seq::new(i as nat, |k: int| '0'));
        }
    }
    append_chars(&mut v, s);
    proof {
        if s@.len() < width {
            assert(v@ =~= zero_pad(s@, width as nat));
        } else {
            assert(v@ =~= zero_pad(s@, width as nat));
        }
    }
    v
}

// ---------------------------------------------------------------------
// Decimal parsing (`str::parse` for integers)
// ---------------------------------------------------------------------
pub open spec fn all_digits(s: Seq<char>) -> bool {
    forall|i: int| 0 <= i < s.len() ==> is_digit(#[trigger] s[i])
}

/// Value of a string of decimal digits.
pub open spec fn digits_value(s: Seq<char>) -> nat
    decreases s.len(),
{
    if s.len() == 0 {
        0
    } else {
        digits_value(s.drop_last()) * 10 + digit_val(s.last())
    }
}

/// `str::parse::<i64>`: an optional sign and at least one ASCII digit,
/// in range.
pub open spec fn parse_i64(s: Seq<char>) -> Option<i64> {
    let neg = s.len() > 0 && s[0] == '-';
    let body = if s.len() > 0 && (s[0] == '+' || s[0] == '-') {
        s.drop_first()
    } else {
        s
    };
    if body.len() == 0 || !all_digits(body) {
        None
    } else if neg {
        if digits_value(body) <= 0x8000_0000_0000_0000 {
            Some((-digits_value(body)) as i64)
        } else {
            None
        }
    } else {
        if digits_value(body) <= i64::MAX {
            Some(digits_value(body) as i64)
        } else {
            None
        }
    }
}

/// `str::parse::<usize>`: an optional `+` and at least one ASCII digit,
/// in range.
pub open spec fn parse_usize(s: Seq<char>) -> Option<usize> {
    let body = if s.len() > 0 && s[0] == '+' {
        s.drop_first()
    } else {
        s
    };
    if body.len() == 0 || !all_digits(body) {
        None
    } else if digits_value(body) <= usize::MAX {
        Some(digits_value(body) as usize)
    } else {
        None
    }
}

proof fn lemma_digits_value_mono(s: Seq<char>, i: int)
    requires
        0 <= i <= s.len(),
    ensures
        digits_value(s.subrange(0, i)) <= digits_value(s),
    decreases s.len() - i,
{
    if i < s.len() {
        lemma_digits_value_mono(s, i + 1);
        assert(s.subrange(0, i + 1).drop_last() =~= s.subrange(0, i));
    } else {
        assert(s.subrange(0, i) =~= s);
    }
}

fn digit_of(c: char) -> (d: u64)
    requires
        is_digit(c),
    ensures
        d == digit_val(c),
        d < 10,
{
    let u = c as u32;
    assert('0' as u32 == 48);
    assert(48 <= u <= 57);
    (u - 48) as u64
}

/// Value of `s[start..]` when it is all digits and at most `limit`.
fn digits_upto(s: &[char], start: usize, limit: u64) -> (res: Option<u64>)
    requires
        start <= s@.len(),
        limit >= 9,
    ensures
        match res {
            Some(v) => all_digits(s@.subrange(start as int, s@.len() as int)) && v == digits_value(
                s@.subrange(start as int, s@.len() as int),
            ) && v <= limit,
            None => !all_digits(s@.subrange(start as int, s@.len() as int)) || digits_value(
                s@.subrange(start as int, s@.len() as int),
            ) > limit,
        },
{
    let ghost body = s@.subrange(start as int, s@.len() as int);
    let mut acc: u64 = 0;
    let mut i = start;
    while i < s.len()
        invariant
            start <= i <= s@.len(),
            body == s@.subrange(start as int, s@.len() as int),
            all_digits(s@.subrange(start as int, i as int)),
            acc == digits_value(s@.subrange(start as int, i as int)),
            acc <= limit,
            limit >= 9,
        decreases s@.len() - i,
    {
        let c = s[i];
        if !is_ascii_digit(c) {
            proof {
                assert(body[i - start] == c);
            }
            return None;
        }
        let d = digit_of(c);
        let ghost pre = s@.subrange(start as int, i as int);
        let ghost next = s@.subrange(start as int, i + 1);
        assert(next.drop_last() =~= pre);
        assert(next.last() == c);
        if acc > (limit - d) / 10 {
            proof {
                assert(digits_value(next) == acc * 10 + d) by (nonlinear_arith)
                    requires
                        digits_value(next) == digits_value(pre) * 10 + digit_val(c),
                        acc == digits_value(pre),
                        d == digit_val(c),
                ;
                assert(acc * 10 + d > limit) by (nonlinear_arith)
                    requires
                        acc > (limit - d) / 10,
                        d <= limit || d > limit,
                        d < 10,
                ;
                lemma_digits_value_mono(body, i + 1 - start);
                assert(body.subrange(0, i + 1 - start) =~= next);
            }
            return None;
        }
        assert(acc * 10 + d <= limit) by (nonlinear_arith)
            requires
                acc <= (limit - d) / 10,
                d < 10,
        ;
        acc = acc * 10 + d;
        i = i + 1;
        assert(all_digits(s@.subrange(start as int, i as int))) by {
            assert forall|j: int| 0 <= j < next.len() implies is_digit(#[trigger] next[j]) by {
                if j < pre.len() {
                    assert(next[j] == pre[j]);
                }
            }
        }
    }
    Some(acc)
}

pub fn parse_i64_chars(s: &[char]) -> (res: Option<i64>)
    ensures
        res == parse_i64(s@),
{
    let neg = s.len() > 0 && s[0] == '-';
    let start: usize = if s.len() > 0 && (s[0] == '+' || s[0] == '-') {
        1
    } else {
        0
    };
    let ghost body = s@.subrange(start as int, s@.len() as int);
    assert(start == 1 ==> body =~= s@.drop_first());
    assert(start == 0 ==> body =~= s@);
    if start == s.len() {
        return None;
    }
    let limit: u64 = if neg {
        0x8000_0000_0000_0000
    } else {
        0x7fff_ffff_ffff_ffff
    };
    match digits_upto(s, start, limit) {
        None => None,
        Some(v) => {
            if neg {
                Some((-(v as i128)) as i64)
            } else {
                Some(v as i64)
            }
        },
    }
}

pub fn parse_usize_chars(s: &[char]) -> (res: Option<usize>)
    ensures
        res == parse_usize(s@),
{
    let start: usize = if s.len() > 0 && s[0] == '+' {
        1
    } else {
        0
    };
    let ghost body = s@.subrange(start as int, s@.len() as int);
    assert(start == 1 ==> body =~= s@.drop_first());
    assert(start == 0 ==> body =~= s@);
    if start == s.len() {
        return None;
    }
    match digits_upto(s, start, usize::MAX as u64) {
        None => None,
        Some(v) => Some(v as usize),
    }
}

} // verus!

verus! {

// ---------------------------------------------------------------------
// Splitting
// ---------------------------------------------------------------------
pub open spec fn seqs_view(v: Seq<Vec<char>>) -> Seq<Seq<char>> {
    v.map_values(|x: Vec<char>| x@)
}

pub open spec fn strip_cr(t: Seq<char>) -> Seq<char> {
    if t.len() > 0 && t.last() == '\r' {
        t.drop_last()
    } else {
        t
    }
}

/// `str::lines` from position `i`, with `cur` the current partial line.
pub open spec fn lines_acc(s: Seq<char>, i: int, cur: Seq<char>) -> Seq<Seq<char>>
    decreases s.len() - i,
{
    if i < 0 || i >= s.len() {
        if cur.len() == 0 {
            seq![]
        } else {
            seq![cur]
        }
    } else if s[i] == '\n' {
        seq![strip_cr(cur)] + lines_acc(s, i + 1, seq![])
    } else {
        lines_acc(s, i + 1, cur.push(s[i]))
    }
}

/// `str::lines`: split at `\n` or `\r\n`; a final line ending is optional.
pub open spec fn spec_lines(s: Seq<char>) -> Seq<Seq<char>> {
    lines_acc(s, 0, seq![])
}

pub fn split_lines(s: &[char]) -> (res: Vec<Vec<char>>)
    ensures
        seqs_view(res@) == spec_lines(s@),
{
    let mut res: Vec<Vec<char>> = Vec::new();
    let mut cur: Vec<char> = Vec::new();
    let mut i: usize = 0;
    while i < s.len()
        invariant
            i <= s@.len(),
            spec_lines(s@) == seqs_view(res@) + lines_acc(s@, i as int, cur@),
        decreases s@.len() - i,
    {
        let c = s[i];
        if c == '\n' {
            let ghost before = seqs_view(res@);
            let line = if cur.len() > 0 && cur[cur.len() - 1] == '\r' {
                copy_range(&cur, 0, cur.len() - 1)
            } else {
                copy_range(&cur, 0, cur.len())
            };
            assert(cur@.subrange(0, cur@.len() as int) =~= cur@);
            assert(cur@.len() > 0 ==> cur@.subrange(0, cur@.len() - 1) =~= cur@.drop_last());
            assert(line@ == strip_cr(cur@));
            res.push(line);
            assert(seqs_view(res@) =~= before.push(strip_cr(cur@)));
            assert(before.push(strip_cr(cur@)) + lines_acc(s@, i + 1, seq![]) =~= before + (seq![
                strip_cr(cur@),
            ] + lines_acc(s@, i + 1, seq![])));
            cur = Vec::new();
            assert(cur@ =~= Seq::<char>::empty());
        } else {
            cur.push(c);
        }
        i = i + 1;
    }
    if cur.len() > 0 {
        let ghost before = seqs_view(res@);
        res.push(cur);
        assert(seqs_view(res@) =~= before + lines_acc(s@, i as int, cur@));
    } else {
        assert(seqs_view(res@) =~= seqs_view(res@) + lines_acc(s@, i as int, cur@));
    }
    res
}

/// The text before the first `c` (`split(c).next()`).
pub open spec fn cut_at_char(s: Seq<char>, c: char) -> Seq<char>
    decreases s.len(),
{
    if s.len() == 0 || s[0] == c {
        seq![]
    } else {
        seq![s[0]] + cut_at_char(s.drop_first(), c)
    }
}

/// The text before the first `//`.
pub open spec fn cut_at_slashes(s: Seq<char>) -> Seq<char>
    decreases s.len(),
{
    if s.len() == 0 || (s.len() >= 2 && s[0] == '/' && s[1] == '/') {
        seq![]
    } else {
        seq![s[0]] + cut_at_slashes(s.drop_first())
    }
}

proof fn lemma_cut_at_char_step(s: Seq<char>, c: char, i: int)
    requires
        0 <= i < s.len(),
        s[i] != c,
    ensures
        cut_at_char(s.subrange(i, s.len() as int), c) == seq![s[i]] + cut_at_char(
            s.subrange(i + 1, s.len() as int),
            c,
        ),
{
    assert(s.subrange(i, s.len() as int).drop_first() =~= s.subrange(i + 1, s.len() as int));
}

/// Length of `cut_at_char(s, c)`: the index of the first `c`, or the length.
pub fn cut_index(s: &[char], c: char) -> (res: usize)
    ensures
        res <= s@.len(),
        s@.subrange(0, res as int) == cut_at_char(s@, c),
        res < s@.len() ==> s@[res as int] == c,
{
    let mut i: usize = 0;
    assert(s@.subrange(0, s@.len() as int) =~= s@);
    while i < s.len() && s[i] != c
        invariant
            i <= s@.len(),
            cut_at_char(s@, c) == s@.subrange(0, i as int) + cut_at_char(
                s@.subrange(i as int, s@.len() as int),
                c,
            ),
        decreases s@.len() - i,
    {
        proof {
            lemma_cut_at_char_step(s@, c, i as int);
            assert(s@.subrange(0, i as int) + seq![s@[i as int]] =~= s@.subrange(0, i + 1));
            assert((s@.subrange(0, i as int) + seq![s@[i as int]]) + cut_at_char(
                s@.subrange(i + 1, s@.len() as int),
                c,
            ) =~= s@.subrange(0, i as int) + (seq![s@[i as int]] + cut_at_char(
                s@.subrange(i + 1, s@.len() as int),
                c,
            )));
        }
        i = i + 1;
    }
    assert(cut_at_char(s@.subrange(i as int, s@.len() as int), c) =~= Seq::<char>::empty());
    assert(s@.subrange(0, i as int) + Seq::<char>::empty() =~= s@.subrange(0, i as int));
    i
}

pub fn cut_slashes_index(s: &[char]) -> (res: usize)
    ensures
        res <= s@.len(),
        s@.subrange(0, res as int) == cut_at_slashes(s@),
{
    let mut i: usize = 0;
    assert(s@.subrange(0, s@.len() as int) =~= s@);
    while i < s.len() && !(i + 1 < s.len() && s[i] == '/' && s[i + 1] == '/')
        invariant
            i <= s@.len(),
            cut_at_slashes(s@) == s@.subrange(0, i as int) + cut_at_slashes(
                s@.subrange(i as int, s@.len() as int),
            ),
        decreases s@.len() - i,
    {
        proof {
            let t = s@.subrange(i as int, s@.len() as int);
            assert(t.drop_first() =~= s@.subrange(i + 1, s@.len() as int));
            assert(t[0] == s@[i as int]);
            assert(t.len() >= 2 ==> t[1] == s@[i + 1]);
            assert(s@.subrange(0, i as int) + seq![s@[i as int]] =~= s@.subrange(0, i + 1));
            assert((s@.subrange(0, i as int) + seq![s@[i as int]]) + cut_at_slashes(
                s@.subrange(i + 1, s@.len() as int),
            ) =~= s@.subrange(0, i as int) + (seq![s@[i as int]] + cut_at_slashes(
                s@.subrange(i + 1, s@.len() as int),
            )));
        }
        i = i + 1;
    }
    proof {
        let t = s@.subrange(i as int, s@.len() as int);
        if i < s@.len() {
            assert(t[0] == s@[i as int]);
            assert(t[1] == s@[i + 1]);
        }
        assert(cut_at_slashes(t) =~= Seq::<char>::empty());
        assert(s@.subrange(0, i as int) + Seq::<char>::empty() =~= s@.subrange(0, i as int));
    }
    i
}

/// Maximal runs of characters that are neither whitespace nor, when `comma`
/// holds, a comma; `cur` is the run in progress at position `i`.
pub open spec fn words_acc(s: Seq<char>, i: int, cur: Seq<char>, comma: bool) -> Seq<Seq<char>>
    decreases s.len() - i,
{
    if i < 0 || i >= s.len() {
        if cur.len() == 0 {
            seq![]
        } else {
            seq![cur]
        }
    } else if is_ws(s[i]) || (comma && s[i] == ',') {
        (if cur.len() == 0 {
            seq![]
        } else {
            seq![cur]
        }) + words_acc(s, i + 1, seq![], comma)
    } else {
        words_acc(s, i + 1, cur.push(s[i]), comma)
    }
}

/// `str::split_whitespace`, or with `comma` also splitting at commas and
/// dropping empty pieces.
pub open spec fn words(s: Seq<char>, comma: bool) -> Seq<Seq<char>> {
    words_acc(s, 0, seq![], comma)
}

pub fn split_words(s: &[char], comma: bool) -> (res: Vec<Vec<char>>)
    ensures
        seqs_view(res@) == words(s@, comma),
        forall|k: int| 0 <= k < res@.len() ==> #[trigger] res@[k]@.len() > 0,
{
    let mut res: Vec<Vec<char>> = Vec::new();
    let mut cur: Vec<char> = Vec::new();
    let mut i: usize = 0;
    while i < s.len()
        invariant
            i <= s@.len(),
            words(s@, comma) == seqs_view(res@) + words_acc(s@, i as int, cur@, comma),
            forall|k: int| 0 <= k < res@.len() ==> #[trigger] res@[k]@.len() > 0,
        decreases s@.len() - i,
    {
        let c = s[i];
        if is_whitespace(c) || (comma && c == ',') {
            let ghost before = seqs_view(res@);
            let ghost cv = cur@;
            if cur.len() > 0 {
                res.push(cur);
                assert(seqs_view(res@) =~= before.push(cv));
                assert(before.push(cv) + words_acc(s@, i + 1, seq![], comma) =~= before + (seq![cv]
                    + words_acc(s@, i + 1, seq![], comma)));
            } else {
                assert(before + words_acc(s@, i + 1, seq![], comma) =~= before + (seq![]
                    + words_acc(s@, i + 1, seq![], comma)));
            }
            cur = Vec::new();
            assert(cur@ =~= Seq::<char>::empty());
        } else {
            cur.push(c);
        }
        i = i + 1;
    }
    if cur.len() > 0 {
        let ghost before = seqs_view(res@);
        res.push(cur);
        assert(seqs_view(res@) =~= before + words_acc(s@, i as int, cur@, comma));
    } else {
        assert(seqs_view(res@) =~= seqs_view(res@) + words_acc(s@, i as int, cur@, comma));
    }
    res
}

} // verus!
