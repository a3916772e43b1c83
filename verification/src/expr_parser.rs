//! Polynomial formulas such as `f61624 = x3x6+x3x5+x2x6` and their
//! normalized prefix form.
//!
//! Variables are `x` followed by digits; `+` and `*` are binary, and a
//! product may be written by juxtaposition (`x3x6`, `x3(x4+x5)`).
use vstd::prelude::*;
use crate::text::{
    append_chars, copy_range, cut_at_char, cut_index, is_digit, is_whitespace, is_ws, nat_digits,
    parse_usize, parse_usize_chars, str_chars, string_from_chars, trim, trim_chars, usize_digits,
    zero_pad, zero_padded,
};

verus! {

#[derive(Debug)]
enum Expr {
    Var(String),
    Add(Box<Expr>, Box<Expr>),
    Mul(Box<Expr>, Box<Expr>),
}

/// The mathematical value of an expression: variables by their names.
pub enum SpecExpr {
    Var(Seq<char>),
    Add(Box<SpecExpr>, Box<SpecExpr>),
    Mul(Box<SpecExpr>, Box<SpecExpr>),
}

spec fn ev(e: Expr) -> SpecExpr
    decreases e,
{
    match e {
        Expr::Var(n) => SpecExpr::Var(n@),
        Expr::Add(l, r) => SpecExpr::Add(Box::new(ev(*l)), Box::new(ev(*r))),
        Expr::Mul(l, r) => SpecExpr::Mul(Box::new(ev(*l)), Box::new(ev(*r))),
    }
}

spec fn evs(v: Seq<Expr>) -> Seq<SpecExpr> {
    v.map_values(|e: Expr| ev(e))
}

#[derive(Debug)]
enum Token {
    Var(String),
    Plus,
    Star,
    LParen,
    RParen,
}

pub enum SpecToken {
    Var(Seq<char>),
    Plus,
    Star,
    LParen,
    RParen,
}

spec fn tv(t: Token) -> SpecToken {
    match t {
        Token::Var(n) => SpecToken::Var(n@),
        Token::Plus => SpecToken::Plus,
        Token::Star => SpecToken::Star,
        Token::LParen => SpecToken::LParen,
        Token::RParen => SpecToken::RParen,
    }
}

spec fn tvs(v: Seq<Token>) -> Seq<SpecToken> {
    v.map_values(|t: Token| tv(t))
}

// ---------------------------------------------------------------------
// Tokens
// ---------------------------------------------------------------------
/// End of the run of ASCII digits starting at `j`.
pub open spec fn digit_end(s: Seq<char>, j: int) -> int
    decreases s.len() - j,
{
    if 0 <= j < s.len() && is_digit(s[j]) {
        digit_end(s, j + 1)
    } else {
        j
    }
}

pub open spec fn invalid_var_msg() -> Seq<char> {
    "Invalid variable near 'x': expected x<number>"@
}

pub open spec fn unexpected_char_msg(c: char) -> Seq<char> {
    "Unexpected character '"@ + seq![c] + "'. Only x<number>, +, *, (, ) are supported."@
}

pub open spec fn prepend_token(t: SpecToken, rest: Result<Seq<SpecToken>, Seq<char>>) -> Result<
    Seq<SpecToken>,
    Seq<char>,
> {
    match rest {
        Ok(ts) => Ok(seq![t] + ts),
        Err(m) => Err(m),
    }
}

/// The tokens of `s[i..]`, or the message of the first lexical error.
pub open spec fn tok_from(s: Seq<char>, i: int) -> Result<Seq<SpecToken>, Seq<char>>
    decreases s.len() - i,
{
    if i < 0 || i >= s.len() {
        Ok(seq![])
    } else if is_ws(s[i]) {
        tok_from(s, i + 1)
    } else if s[i] == '+' {
        prepend_token(SpecToken::Plus, tok_from(s, i + 1))
    } else if s[i] == '*' {
        prepend_token(SpecToken::Star, tok_from(s, i + 1))
    } else if s[i] == '(' {
        prepend_token(SpecToken::LParen, tok_from(s, i + 1))
    } else if s[i] == ')' {
        prepend_token(SpecToken::RParen, tok_from(s, i + 1))
    } else if s[i] == 'x' {
        let j = digit_end(s, i + 1);
        if j <= i + 1 || j > s.len() {
            Err(invalid_var_msg())
        } else {
            prepend_token(SpecToken::Var(s.subrange(i, j)), tok_from(s, j))
        }
    } else {
        Err(unexpected_char_msg(s[i]))
    }
}

pub(crate) proof fn lemma_digit_end(s: Seq<char>, j: int)
    requires
        0 <= j <= s.len(),
    ensures
        j <= digit_end(s, j) <= s.len(),
        forall|k: int| j <= k < digit_end(s, j) ==> is_digit(#[trigger] s[k]),
        digit_end(s, j) < s.len() ==> !is_digit(s[digit_end(s, j)]),
    decreases s.len() - j,
{
    if j < s.len() && is_digit(s[j]) {
        lemma_digit_end(s, j + 1);
    }
}

fn tokenize_rhs(rhs: &[char]) -> (res: Result<Vec<Token>, String>)
    ensures
        match tok_from(rhs@, 0) {
            Ok(ts) => res matches Ok(v) && tvs(v@) == ts,
            Err(m) => res matches Err(e) && e@ == m,
        },
{
    let mut tokens: Vec<Token> = Vec::new();
    let mut i: usize = 0;
    let ghost s = rhs@;
    while i < rhs.len()
        invariant
            s == rhs@,
            i <= s.len(),
            tok_from(s, 0) == match tok_from(s, i as int) {
                Ok(ts) => Ok(tvs(tokens@) + ts),
                Err(m) => Err(m),
            },
        decreases s.len() - i,
    {
        let ch = rhs[i];
        let ghost before = tvs(tokens@);
        if is_whitespace(ch) {
            i = i + 1;
        } else if ch == '+' || ch == '*' || ch == '(' || ch == ')' {
            let t = if ch == '+' {
                Token::Plus
            } else if ch == '*' {
                Token::Star
            } else if ch == '(' {
                Token::LParen
            } else {
                Token::RParen
            };
            let ghost st = tv(t);
            tokens.push(t);
            proof {
                assert(tvs(tokens@) =~= before.push(st));
                if let Ok(ts) = tok_from(s, i + 1) {
                    assert(before.push(st) + ts =~= before + (seq![st] + ts));
                }
            }
            i = i + 1;
        } else if ch == 'x' {
            let start = i;
            i = i + 1;
            let digit_start = i;
            proof {
                lemma_digit_end(s, digit_start as int);
            }
            while i < rhs.len() && crate::text::is_ascii_digit(rhs[i])
                invariant
                    s == rhs@,
                    digit_start <= i <= s.len(),
                    digit_end(s, digit_start as int) == digit_end(s, i as int),
                decreases s.len() - i,
            {
                i = i + 1;
            }
            if digit_start == i {
                return Err(
                    string_from_chars(&str_chars("Invalid variable near 'x': expected x<number>")),
                );
            }
            let name = copy_range(rhs, start, i);
            let ghost st = SpecToken::Var(name@);
            tokens.push(Token::Var(string_from_chars(&name)));
            proof {
                assert(tvs(tokens@) =~= before.push(st));
                if let Ok(ts) = tok_from(s, i as int) {
                    assert(before.push(st) + ts =~= before + (seq![st] + ts));
                }
            }
        } else {
            let mut m = str_chars("Unexpected character '");
            let mut c = Vec::new();
            c.push(ch);
            append_chars(&mut m, &c);
            append_chars(&mut m, &str_chars("'. Only x<number>, +, *, (, ) are supported."));
            assert(c@ =~= seq![ch]);
            return Err(string_from_chars(&m));
        }
    }
    assert(tvs(tokens@) + Seq::<SpecToken>::empty() =~= tvs(tokens@));
    Ok(tokens)
}

// ---------------------------------------------------------------------
// Parsing
// ---------------------------------------------------------------------
pub open spec fn token_debug(t: SpecToken) -> Seq<char> {
    match t {
        SpecToken::Var(n) => "Var(\""@ + n + "\")"@,
        SpecToken::Plus => "Plus"@,
        SpecToken::Star => "Star"@,
        SpecToken::LParen => "LParen"@,
        SpecToken::RParen => "RParen"@,
    }
}

pub open spec fn opt_token_debug(t: Option<SpecToken>) -> Seq<char> {
    match t {
        Some(x) => "Some("@ + token_debug(x) + ")"@,
        None => "None"@,
    }
}

pub open spec fn tok_at(t: Seq<SpecToken>, p: int) -> Option<SpecToken> {
    if 0 <= p < t.len() {
        Some(t[p])
    } else {
        None
    }
}

/// `expr := product ('+' product)*`, left associative.
pub open spec fn p_expr(t: Seq<SpecToken>, pos: int) -> Result<(SpecExpr, int), Seq<char>>
    decreases t.len() - pos, 3int,
{
    if pos < 0 || pos > t.len() {
        Err(seq![])
    } else {
        match p_product(t, pos) {
            Err(m) => Err(m),
            Ok((e1, p1)) => if p1 <= pos || p1 > t.len() {
                Err(seq![])
            } else {
                p_expr_rest(t, p1, e1)
            },
        }
    }
}

pub open spec fn p_expr_rest(t: Seq<SpecToken>, pos: int, acc: SpecExpr) -> Result<
    (SpecExpr, int),
    Seq<char>,
>
    decreases t.len() - pos, 3int,
{
    if pos < 0 || pos > t.len() {
        Err(seq![])
    } else if pos < t.len() && t[pos] is Plus {
        match p_product(t, pos + 1) {
            Err(m) => Err(m),
            Ok((rhs, p2)) => if p2 <= pos || p2 > t.len() {
                Err(seq![])
            } else {
                p_expr_rest(t, p2, SpecExpr::Add(Box::new(acc), Box::new(rhs)))
            },
        }
    } else {
        Ok((acc, pos))
    }
}

/// `product := atom (('*')? atom)*`: juxtaposition is multiplication.
pub open spec fn p_product(t: Seq<SpecToken>, pos: int) -> Result<(SpecExpr, int), Seq<char>>
    decreases t.len() - pos, 2int,
{
    if pos < 0 || pos > t.len() {
        Err(seq![])
    } else {
        match p_atom(t, pos) {
            Err(m) => Err(m),
            Ok((e1, p1)) => if p1 <= pos || p1 > t.len() {
                Err(seq![])
            } else {
                p_product_rest(t, p1, e1)
            },
        }
    }
}

pub open spec fn p_product_rest(t: Seq<SpecToken>, pos: int, acc: SpecExpr) -> Result<
    (SpecExpr, int),
    Seq<char>,
>
    decreases t.len() - pos, 1int,
{
    if pos < 0 || pos > t.len() {
        Err(seq![])
    } else if pos < t.len() && (t[pos] is Star || t[pos] is Var || t[pos] is LParen) {
        let start = if t[pos] is Star {
            pos + 1
        } else {
            pos
        };
        match p_atom(t, start) {
            Err(m) => Err(m),
            Ok((rhs, p2)) => if p2 <= pos || p2 > t.len() {
                Err(seq![])
            } else {
                p_product_rest(t, p2, SpecExpr::Mul(Box::new(acc), Box::new(rhs)))
            },
        }
    } else {
        Ok((acc, pos))
    }
}

/// `atom := var | '(' expr ')'`
pub open spec fn p_atom(t: Seq<SpecToken>, pos: int) -> Result<(SpecExpr, int), Seq<char>>
    decreases t.len() - pos, 0int,
{
    if pos < 0 || pos > t.len() {
        Err(seq![])
    } else if pos < t.len() && t[pos] is Var {
        Ok((SpecExpr::Var(t[pos]->Var_0), pos + 1))
    } else if pos < t.len() && t[pos] is LParen {
        match p_expr(t, pos + 1) {
            Err(m) => Err(m),
            Ok((e, p)) => if p < t.len() && t[p] is RParen {
                Ok((e, p + 1))
            } else {
                Err("Expected ')', got "@ + opt_token_debug(tok_at(t, p)))
            },
        }
    } else {
        Err("Expected variable or '(', got "@ + opt_token_debug(tok_at(t, pos)))
    }
}

fn clone_token(t: &Token) -> (res: Token)
    ensures
        tv(res) == tv(*t),
{
    match t {
        Token::Var(n) => Token::Var(n.clone()),
        Token::Plus => Token::Plus,
        Token::Star => Token::Star,
        Token::LParen => Token::LParen,
        Token::RParen => Token::RParen,
    }
}

fn token_debug_exec(t: &Token) -> (res: Vec<char>)
    ensures
        res@ == token_debug(tv(*t)),
{
    match t {
        Token::Var(n) => {
            let mut m = str_chars("Var(\"");
            append_chars(&mut m, &str_chars(n.as_str()));
            append_chars(&mut m, &str_chars("\")"));
            m
        },
        Token::Plus => str_chars("Plus"),
        Token::Star => str_chars("Star"),
        Token::LParen => str_chars("LParen"),
        Token::RParen => str_chars("RParen"),
    }
}

fn opt_token_debug_exec(t: Option<&Token>) -> (res: Vec<char>)
    ensures
        res@ == opt_token_debug(
            match t {
                Some(x) => Some(tv(*x)),
                None => None,
            },
        ),
{
    match t {
        Some(x) => {
            let mut m = str_chars("Some(");
            append_chars(&mut m, &token_debug_exec(x));
            append_chars(&mut m, &str_chars(")"));
            m
        },
        None => str_chars("None"),
    }
}

fn message(pre: &str, rest: &[char]) -> (res: String)
    ensures
        res@ == pre@ + rest@,
{
    let mut m = str_chars(pre);
    append_chars(&mut m, rest);
    string_from_chars(&m)
}

struct Parser {
    tokens: Vec<Token>,
    pos: usize,
}

impl Parser {
    fn new(tokens: Vec<Token>) -> (res: Parser)
        ensures
            res.tokens == tokens,
            res.pos == 0,
    {
        Parser { tokens, pos: 0 }
    }

    fn peek(&self) -> (res: Option<&Token>)
        ensures
            match res {
                Some(t) => self.pos < self.tokens@.len() && *t == self.tokens@[self.pos as int],
                None => self.pos >= self.tokens@.len(),
            },
    {
        if self.pos < self.tokens.len() {
            Some(&self.tokens[self.pos])
        } else {
            None
        }
    }

    fn next(&mut self) -> (res: Option<Token>)
        ensures
            final(self).tokens == old(self).tokens,
            match res {
                Some(t) => old(self).pos < old(self).tokens@.len() && tv(t) == tv(
                    old(self).tokens@[old(self).pos as int],
                ) && final(self).pos == old(self).pos + 1,
                None => old(self).pos >= old(self).tokens@.len() && final(self).pos == old(
                    self,
                ).pos,
            },
    {
        if self.pos < self.tokens.len() {
            let token = clone_token(&self.tokens[self.pos]);
            self.pos = self.pos + 1;
            Some(token)
        } else {
            None
        }
    }

    fn parse_expr(&mut self) -> (res: Result<Expr, String>)
        requires
            old(self).pos <= old(self).tokens@.len(),
        ensures
            final(self).tokens == old(self).tokens,
            final(self).pos <= final(self).tokens@.len(),
            match p_expr(tvs(old(self).tokens@), old(self).pos as int) {
                Ok((e, p)) => res matches Ok(x) && ev(x) == e && final(self).pos == p,
                Err(m) => res matches Err(s) && s@ == m,
            },
            res is Ok ==> final(self).pos > old(self).pos,
        decreases old(self).tokens@.len() - old(self).pos, 3int,
    {
        let ghost t = tvs(self.tokens@);
        let ghost start = self.pos as int;
        let mut expr = match self.parse_product() {
            Ok(e) => e,
            Err(m) => return Err(m),
        };
        let ghost p1 = self.pos as int;
        while self.pos < self.tokens.len() && matches!(self.tokens[self.pos], Token::Plus)
            invariant
                self.tokens == old(self).tokens,
                t == tvs(self.tokens@),
                start == old(self).pos,
                start < self.pos <= self.tokens@.len(),
                p_expr(t, start) == p_expr_rest(t, self.pos as int, ev(expr)),
            decreases self.tokens@.len() - self.pos,
        {
            let ghost pos0 = self.pos as int;
            assert(t[pos0] == tv(self.tokens@[pos0]));
            self.next();
            let rhs = match self.parse_product() {
                Ok(e) => e,
                Err(m) => return Err(m),
            };
            expr = Expr::Add(Box::new(expr), Box::new(rhs));
        }
        proof {
            if self.pos < self.tokens@.len() {
                assert(t[self.pos as int] == tv(self.tokens@[self.pos as int]));
            }
        }
        Ok(expr)
    }

    fn parse_product(&mut self) -> (res: Result<Expr, String>)
        requires
            old(self).pos <= old(self).tokens@.len(),
        ensures
            final(self).tokens == old(self).tokens,
            final(self).pos <= final(self).tokens@.len(),
            match p_product(tvs(old(self).tokens@), old(self).pos as int) {
                Ok((e, p)) => res matches Ok(x) && ev(x) == e && final(self).pos == p,
                Err(m) => res matches Err(s) && s@ == m,
            },
            res is Ok ==> final(self).pos > old(self).pos,
        decreases old(self).tokens@.len() - old(self).pos, 2int,
    {
        let ghost t = tvs(self.tokens@);
        let ghost start = self.pos as int;
        let mut expr = match self.parse_atom() {
            Ok(e) => e,
            Err(m) => return Err(m),
        };
        loop
            invariant
                self.tokens == old(self).tokens,
                t == tvs(self.tokens@),
                start == old(self).pos,
                start < self.pos <= self.tokens@.len(),
                p_product(t, start) == p_product_rest(t, self.pos as int, ev(expr)),
            ensures
                self.tokens == old(self).tokens,
                start < self.pos <= self.tokens@.len(),
                p_product(t, start) == Ok::<(SpecExpr, int), Seq<char>>((ev(expr), self.pos as int)),
            decreases self.tokens@.len() - self.pos,
        {
            let ghost pos0 = self.pos as int;
            proof {
                if pos0 < t.len() {
                    assert(t[pos0] == tv(self.tokens@[pos0]));
                }
            }
            let step = match self.peek() {
                Some(Token::Star) => 1u8,
                Some(Token::Var(_)) | Some(Token::LParen) => 2u8,
                _ => 0u8,
            };
            if step == 0 {
                break ;
            }
            if step == 1 {
                self.next();
            }
            let rhs = match self.parse_atom() {
                Ok(e) => e,
                Err(m) => return Err(m),
            };
            expr = Expr::Mul(Box::new(expr), Box::new(rhs));
        }
        Ok(expr)
    }

    fn parse_atom(&mut self) -> (res: Result<Expr, String>)
        requires
            old(self).pos <= old(self).tokens@.len(),
        ensures
            final(self).tokens == old(self).tokens,
            final(self).pos <= final(self).tokens@.len(),
            match p_atom(tvs(old(self).tokens@), old(self).pos as int) {
                Ok((e, p)) => res matches Ok(x) && ev(x) == e && final(self).pos == p,
                Err(m) => res matches Err(s) && s@ == m,
            },
            res is Ok ==> final(self).pos > old(self).pos,
        decreases old(self).tokens@.len() - old(self).pos, 0int,
    {
        let ghost t = tvs(self.tokens@);
        let ghost start = self.pos as int;
        proof {
            if start < t.len() {
                assert(t[start] == tv(self.tokens@[start]));
            }
        }
        match self.next() {
            Some(Token::Var(name)) => Ok(Expr::Var(name)),
            Some(Token::LParen) => {
                let expr = match self.parse_expr() {
                    Ok(e) => e,
                    Err(m) => return Err(m),
                };
                let ghost p = self.pos as int;
                proof {
                    if p < t.len() {
                        assert(t[p] == tv(self.tokens@[p]));
                    }
                }
                let closing = match self.peek() {
                    Some(Token::RParen) => true,
                    _ => false,
                };
                if closing {
                    self.next();
                    Ok(expr)
                } else {
                    let d = opt_token_debug_exec(self.peek());
                    Err(message("Expected ')', got ", &d))
                }
            },
            other => {
                let d = match &other {
                    Some(x) => {
                        let mut m = str_chars("Some(");
                        append_chars(&mut m, &token_debug_exec(x));
                        append_chars(&mut m, &str_chars(")"));
                        m
                    },
                    None => str_chars("None"),
                };
                Err(message("Expected variable or '(', got ", &d))
            },
        }
    }
}

// ---------------------------------------------------------------------
// Normalization
// ---------------------------------------------------------------------
/// Prefix notation: `x1`, `(+ a b)`, `(* a b)`.
pub open spec fn prefix(e: SpecExpr) -> Seq<char>
    decreases e,
{
    match e {
        SpecExpr::Var(n) => n,
        SpecExpr::Add(l, r) => "(+ "@ + prefix(*l) + " "@ + prefix(*r) + ")"@,
        SpecExpr::Mul(l, r) => "(* "@ + prefix(*l) + " "@ + prefix(*r) + ")"@,
    }
}

/// The number of a variable `x<number>`, `usize::MAX` when it has none.
pub open spec fn var_number(name: Seq<char>) -> nat {
    if name.len() > 0 && name[0] == 'x' {
        match parse_usize(name.drop_first()) {
            Some(v) => v as nat,
            None => usize::MAX as nat,
        }
    } else {
        usize::MAX as nat
    }
}

/// The ordering key of a term: variables first, by number (so `x2` comes
/// before `x10`), then sums, then products, by their prefix form.
pub open spec fn sort_key(e: SpecExpr) -> Seq<char> {
    match e {
        SpecExpr::Var(n) => "0:"@ + zero_pad(nat_digits(var_number(n)), 10),
        SpecExpr::Add(..) => "1:"@ + prefix(e),
        SpecExpr::Mul(..) => "2:"@ + prefix(e),
    }
}

/// Lexicographic order of strings.
pub open spec fn seq_lt(a: Seq<char>, b: Seq<char>) -> bool
    decreases a.len(),
{
    if a.len() == 0 {
        b.len() > 0
    } else if b.len() == 0 {
        false
    } else if a[0] != b[0] {
        a[0] < b[0]
    } else {
        seq_lt(a.drop_first(), b.drop_first())
    }
}

/// Position at which `x` enters the sorted sequence: after every element
/// whose key is not greater than its key.
pub open spec fn insert_pos(sorted: Seq<SpecExpr>, x: SpecExpr, i: int) -> int
    decreases sorted.len() - i,
{
    if i < 0 || i >= sorted.len() {
        sorted.len() as int
    } else if seq_lt(sort_key(x), sort_key(sorted[i])) {
        i
    } else {
        insert_pos(sorted, x, i + 1)
    }
}

/// Stable sort by `sort_key`.
pub open spec fn sort_terms(s: Seq<SpecExpr>) -> Seq<SpecExpr>
    decreases s.len(),
{
    if s.len() == 0 {
        seq![]
    } else {
        let sorted = sort_terms(s.drop_last());
        sorted.insert(insert_pos(sorted, s.last(), 0), s.last())
    }
}

pub open spec fn flat_add(e: SpecExpr) -> Seq<SpecExpr>
    decreases e,
{
    match e {
        SpecExpr::Add(l, r) => flat_add(*l) + flat_add(*r),
        _ => seq![e],
    }
}

pub open spec fn flat_mul(e: SpecExpr) -> Seq<SpecExpr>
    decreases e,
{
    match e {
        SpecExpr::Mul(l, r) => flat_mul(*l) + flat_mul(*r),
        _ => seq![e],
    }
}

/// A balanced binary sum of the terms, the first half on the left.
pub open spec fn balanced_add(terms: Seq<SpecExpr>) -> SpecExpr
    decreases terms.len(),
{
    if terms.len() <= 1 {
        terms[0]
    } else {
        let mid = terms.len() / 2;
        SpecExpr::Add(
            Box::new(balanced_add(terms.subrange(0, mid as int))),
            Box::new(balanced_add(terms.subrange(mid as int, terms.len() as int))),
        )
    }
}

pub open spec fn balanced_mul(terms: Seq<SpecExpr>) -> SpecExpr
    decreases terms.len(),
{
    if terms.len() <= 1 {
        terms[0]
    } else {
        let mid = terms.len() / 2;
        SpecExpr::Mul(
            Box::new(balanced_mul(terms.subrange(0, mid as int))),
            Box::new(balanced_mul(terms.subrange(mid as int, terms.len() as int))),
        )
    }
}

/// For `+` and `*`: normalize the operands, flatten associativity, sort
/// the operands by their keys (commutativity) and rebuild a balanced tree.
pub open spec fn normalize(e: SpecExpr) -> SpecExpr
    decreases e,
{
    match e {
        SpecExpr::Var(_) => e,
        SpecExpr::Add(l, r) => balanced_add(
            sort_terms(flat_add(normalize(*l)) + flat_add(normalize(*r))),
        ),
        SpecExpr::Mul(l, r) => balanced_mul(
            sort_terms(flat_mul(normalize(*l)) + flat_mul(normalize(*r))),
        ),
    }
}

fn collect_add(expr: Expr, out: &mut Vec<Expr>)
    ensures
        evs(final(out)@) == evs(old(out)@) + flat_add(ev(expr)),
    decreases expr,
{
    match expr {
        Expr::Add(left, right) => {
            let ghost o = evs(out@);
            let ghost lv = ev(*left);
            let ghost rv = ev(*right);
            collect_add(*left, out);
            collect_add(*right, out);
            assert(o + flat_add(lv) + flat_add(rv) =~= o + (flat_add(lv) + flat_add(rv)));
        },
        other => {
            let ghost o = evs(out@);
            let ghost v = ev(other);
            out.push(other);
            assert(evs(out@) =~= o + seq![v]);
        },
    }
}

fn collect_mul(expr: Expr, out: &mut Vec<Expr>)
    ensures
        evs(final(out)@) == evs(old(out)@) + flat_mul(ev(expr)),
    decreases expr,
{
    match expr {
        Expr::Mul(left, right) => {
            let ghost o = evs(out@);
            let ghost lv = ev(*left);
            let ghost rv = ev(*right);
            collect_mul(*left, out);
            collect_mul(*right, out);
            assert(o + flat_mul(lv) + flat_mul(rv) =~= o + (flat_mul(lv) + flat_mul(rv)));
        },
        other => {
            let ghost o = evs(out@);
            let ghost v = ev(other);
            out.push(other);
            assert(evs(out@) =~= o + seq![v]);
        },
    }
}

fn to_prefix(expr: &Expr) -> (res: Vec<char>)
    ensures
        res@ == prefix(ev(*expr)),
    decreases expr,
{
    match expr {
        Expr::Var(name) => str_chars(name.as_str()),
        Expr::Add(left, right) => {
            let mut m = str_chars("(+ ");
            append_chars(&mut m, &to_prefix(left));
            append_chars(&mut m, &str_chars(" "));
            append_chars(&mut m, &to_prefix(right));
            append_chars(&mut m, &str_chars(")"));
            m
        },
        Expr::Mul(left, right) => {
            let mut m = str_chars("(* ");
            append_chars(&mut m, &to_prefix(left));
            append_chars(&mut m, &str_chars(" "));
            append_chars(&mut m, &to_prefix(right));
            append_chars(&mut m, &str_chars(")"));
            m
        },
    }
}

fn expr_sort_key(expr: &Expr) -> (res: Vec<char>)
    ensures
        res@ == sort_key(ev(*expr)),
{
    match expr {
        Expr::Var(name) => {
            let chars = str_chars(name.as_str());
            let number: usize = if chars.len() > 0 && chars[0] == 'x' {
                let rest = copy_range(&chars, 1, chars.len());
                assert(rest@ =~= chars@.drop_first());
                match parse_usize_chars(&rest) {
                    Some(v) => v,
                    None => usize::MAX,
                }
            } else {
                usize::MAX
            };
            let mut key = str_chars("0:");
            append_chars(&mut key, &zero_padded(&usize_digits(number), 10));
            key
        },
        Expr::Add(_, _) => {
            let mut key = str_chars("1:");
            append_chars(&mut key, &to_prefix(expr));
            key
        },
        Expr::Mul(_, _) => {
            let mut key = str_chars("2:");
            append_chars(&mut key, &to_prefix(expr));
            key
        },
    }
}

fn chars_lt(a: &[char], b: &[char]) -> (res: bool)
    ensures
        res == seq_lt(a@, b@),
{
    let mut i: usize = 0;
    assert(a@.subrange(0, a@.len() as int) =~= a@);
    assert(b@.subrange(0, b@.len() as int) =~= b@);
    while i < a.len() && i < b.len() && a[i] == b[i]
        invariant
            i <= a@.len(),
            i <= b@.len(),
            seq_lt(a@, b@) == seq_lt(
                a@.subrange(i as int, a@.len() as int),
                b@.subrange(i as int, b@.len() as int),
            ),
        decreases a@.len() - i,
    {
        proof {
            let x = a@.subrange(i as int, a@.len() as int);
            let y = b@.subrange(i as int, b@.len() as int);
            assert(x.drop_first() =~= a@.subrange(i + 1, a@.len() as int));
            assert(y.drop_first() =~= b@.subrange(i + 1, b@.len() as int));
        }
        i = i + 1;
    }
    let ghost x = a@.subrange(i as int, a@.len() as int);
    let ghost y = b@.subrange(i as int, b@.len() as int);
    if i == a.len() {
        i < b.len()
    } else if i == b.len() {
        false
    } else {
        assert(x[0] == a@[i as int] && y[0] == b@[i as int]);
        a[i] < b[i]
    }
}

/// Stable sort by the term keys; `x2` sorts before `x10`.
fn terms_sort_by_variable_then_structure(exprs: Vec<Expr>) -> (res: Vec<Expr>)
    ensures
        evs(res@) == sort_terms(evs(exprs@)),
{
    let ghost all = evs(exprs@);
    let n = exprs.len();
    assert(all.len() == n);
    let mut rest = exprs;
    let mut sorted: Vec<Expr> = Vec::new();
    let mut keys: Vec<Vec<char>> = Vec::new();
    let mut k: usize = 0;
    while rest.len() > 0
        invariant
            k + rest@.len() == all.len(),
            all.len() <= usize::MAX,
            evs(rest@) == all.subrange(k as int, all.len() as int),
            evs(sorted@) == sort_terms(all.subrange(0, k as int)),
            keys@.len() == sorted@.len(),
            forall|j: int| 0 <= j < keys@.len() ==> #[trigger] keys@[j]@ == sort_key(evs(sorted@)[j]),
        decreases rest@.len(),
    {
        let ghost rest_before = rest@;
        let term = rest.remove(0);
        proof {
            assert(evs(rest@) =~= evs(rest_before).drop_first());
            assert(evs(rest_before)[0] == ev(rest_before[0]));
            assert(ev(term) == all[k as int]);
            assert(all.subrange(0, k + 1).drop_last() =~= all.subrange(0, k as int));
            assert(all.subrange(0, k + 1).last() == ev(term));
            assert(evs(rest@) =~= all.subrange(k + 1, all.len() as int));
        }
        let key = expr_sort_key(&term);
        let ghost sv = evs(sorted@);
        let mut i: usize = 0;
        while i < sorted.len() && !chars_lt(&key, &keys[i])
            invariant
                i <= sorted@.len(),
                keys@.len() == sorted@.len(),
                sv == evs(sorted@),
                key@ == sort_key(ev(term)),
                forall|j: int| 0 <= j < keys@.len() ==> #[trigger] keys@[j]@ == sort_key(sv[j]),
                insert_pos(sv, ev(term), 0) == insert_pos(sv, ev(term), i as int),
            decreases sorted@.len() - i,
        {
            i = i + 1;
        }
        assert(insert_pos(sv, ev(term), 0) == i);
        let ghost tv0 = ev(term);
        sorted.insert(i, term);
        keys.insert(i, key);
        k = k + 1;
        proof {
            assert(evs(sorted@) =~= sv.insert(i as int, tv0));
            assert forall|j: int| 0 <= j < keys@.len() implies #[trigger] keys@[j]@ == sort_key(
                evs(sorted@)[j],
            ) by {}
        }
    }
    assert(all.subrange(0, k as int) =~= all);
    sorted
}

fn build_balanced_add(terms: Vec<Expr>) -> (res: Expr)
    requires
        terms@.len() > 0,
    ensures
        ev(res) == balanced_add(evs(terms@)),
    decreases terms@.len(),
{
    let mut terms = terms;
    let ghost tv0 = evs(terms@);
    if terms.len() == 1 {
        let e = terms.pop().unwrap();
        return e;
    }
    let mid = terms.len() / 2;
    let right = terms.split_off(mid);
    proof {
        assert(evs(terms@) =~= tv0.subrange(0, mid as int));
        assert(evs(right@) =~= tv0.subrange(mid as int, tv0.len() as int));
    }
    Expr::Add(Box::new(build_balanced_add(terms)), Box::new(build_balanced_add(right)))
}

fn build_balanced_mul(factors: Vec<Expr>) -> (res: Expr)
    requires
        factors@.len() > 0,
    ensures
        ev(res) == balanced_mul(evs(factors@)),
    decreases factors@.len(),
{
    let mut factors = factors;
    let ghost tv0 = evs(factors@);
    if factors.len() == 1 {
        let e = factors.pop().unwrap();
        return e;
    }
    let mid = factors.len() / 2;
    let right = factors.split_off(mid);
    proof {
        assert(evs(factors@) =~= tv0.subrange(0, mid as int));
        assert(evs(right@) =~= tv0.subrange(mid as int, tv0.len() as int));
    }
    Expr::Mul(Box::new(build_balanced_mul(factors)), Box::new(build_balanced_mul(right)))
}

pub(crate) proof fn lemma_flat_nonempty(e: SpecExpr)
    ensures
        flat_add(e).len() > 0,
        flat_mul(e).len() > 0,
    decreases e,
{
    match e {
        SpecExpr::Add(l, r) => {
            lemma_flat_nonempty(*l);
            lemma_flat_nonempty(*r);
        },
        SpecExpr::Mul(l, r) => {
            lemma_flat_nonempty(*l);
            lemma_flat_nonempty(*r);
        },
        _ => {},
    }
}

pub(crate) proof fn lemma_sort_len(s: Seq<SpecExpr>)
    ensures
        sort_terms(s).len() == s.len(),
    decreases s.len(),
{
    if s.len() > 0 {
        lemma_sort_len(s.drop_last());
        lemma_insert_pos_bound(sort_terms(s.drop_last()), s.last(), 0);
    }
}

pub(crate) proof fn lemma_insert_pos_bound(sorted: Seq<SpecExpr>, x: SpecExpr, i: int)
    requires
        0 <= i <= sorted.len(),
    ensures
        i <= insert_pos(sorted, x, i) <= sorted.len(),
    decreases sorted.len() - i,
{
    if i < sorted.len() && !seq_lt(sort_key(x), sort_key(sorted[i])) {
        lemma_insert_pos_bound(sorted, x, i + 1);
    }
}

/// Recursive normalization, associativity flattening, commutativity
/// sorting and balanced rebuilding of `+` and `*`.
fn normalize_expr(expr: Expr) -> (res: Expr)
    ensures
        ev(res) == normalize(ev(expr)),
    decreases expr,
{
    match expr {
        Expr::Var(name) => Expr::Var(name),
        Expr::Add(left, right) => {
            let ghost lv = ev(*left);
            let ghost rv = ev(*right);
            let mut terms: Vec<Expr> = Vec::new();
            assert(evs(terms@) =~= Seq::<SpecExpr>::empty());
            collect_add(normalize_expr(*left), &mut terms);
            collect_add(normalize_expr(*right), &mut terms);
            assert(Seq::<SpecExpr>::empty() + flat_add(normalize(lv)) + flat_add(normalize(rv))
                =~= flat_add(normalize(lv)) + flat_add(normalize(rv)));
            let sorted = terms_sort_by_variable_then_structure(terms);
            proof {
                lemma_flat_nonempty(normalize(lv));
                lemma_sort_len(flat_add(normalize(lv)) + flat_add(normalize(rv)));
            }
            build_balanced_add(sorted)
        },
        Expr::Mul(left, right) => {
            let ghost lv = ev(*left);
            let ghost rv = ev(*right);
            let mut factors: Vec<Expr> = Vec::new();
            assert(evs(factors@) =~= Seq::<SpecExpr>::empty());
            collect_mul(normalize_expr(*left), &mut factors);
            collect_mul(normalize_expr(*right), &mut factors);
            assert(Seq::<SpecExpr>::empty() + flat_mul(normalize(lv)) + flat_mul(normalize(rv))
                =~= flat_mul(normalize(lv)) + flat_mul(normalize(rv)));
            let sorted = terms_sort_by_variable_then_structure(factors);
            proof {
                lemma_flat_nonempty(normalize(lv));
                lemma_sort_len(flat_mul(normalize(lv)) + flat_mul(normalize(rv)));
            }
            build_balanced_mul(sorted)
        },
    }
}

// ---------------------------------------------------------------------
// The formula front end
// ---------------------------------------------------------------------
/// What `arithmetic_to_prefix` returns for an input: the output name and
/// the normalized prefix form, or the error message.
pub open spec fn spec_arithmetic_to_prefix(input: Seq<char>) -> Result<
    (Seq<char>, Seq<char>),
    Seq<char>,
> {
    let cut = cut_at_char(input, '=');
    let lhs = trim(cut);
    let rhs = trim(input.subrange(cut.len() + 1 as int, input.len() as int));
    if cut.len() == input.len() {
        Err("Input must contain '='."@)
    } else if lhs.len() == 0 {
        Err("Missing output name before '='."@)
    } else {
        match tok_from(rhs, 0) {
            Err(m) => Err(m),
            Ok(toks) => if toks.len() == 0 {
                Err("Expression after '=' is empty."@)
            } else {
                match p_expr(toks, 0) {
                    Err(m) => Err(m),
                    Ok((e, p)) => if p < toks.len() {
                        Err("Unexpected remaining token: "@ + token_debug(toks[p]))
                    } else {
                        Ok((lhs, prefix(normalize(e))))
                    },
                }
            },
        }
    }
}

/// Parse `name = formula` and return the name and the normalized prefix
/// form of the formula, e.g. `("f", "(+ (* x3 x6) ...)")`.
pub fn arithmetic_to_prefix(input: &str) -> (res: Result<(String, String), String>)
    ensures
        match spec_arithmetic_to_prefix(input@) {
            Ok((name, pre)) => res matches Ok((n, p)) && n@ == name && p@ == pre,
            Err(m) => res matches Err(e) && e@ == m,
        },
{
    let chars = str_chars(input);
    let eq = cut_index(&chars, '=');
    if eq == chars.len() {
        return Err(string_from_chars(&str_chars("Input must contain '='.")));
    }
    let lhs = copy_range(&chars, 0, eq);
    let rhs = copy_range(&chars, eq + 1, chars.len());
    let output_name = trim_chars(&lhs);
    if output_name.len() == 0 {
        return Err(string_from_chars(&str_chars("Missing output name before '='.")));
    }
    let rhs_trimmed = trim_chars(&rhs);
    let tokens = match tokenize_rhs(&rhs_trimmed) {
        Ok(t) => t,
        Err(e) => return Err(e),
    };
    if tokens.len() == 0 {
        return Err(string_from_chars(&str_chars("Expression after '=' is empty.")));
    }
    let mut parser = Parser::new(tokens);
    let expr = match parser.parse_expr() {
        Ok(e) => e,
        Err(e) => return Err(e),
    };
    if let Some(token) = parser.peek() {
        let ghost p = parser.pos as int;
        assert(tvs(parser.tokens@)[p] == tv(parser.tokens@[p]));
        return Err(message("Unexpected remaining token: ", &token_debug_exec(token)));
    }
    let normalized = normalize_expr(expr);
    Ok((string_from_chars(&output_name), string_from_chars(&to_prefix(&normalized))))
}

} // verus!
