//! The arithmetic language of extracted programs, with e-class ids as plain
//! indices, and `RecExpr`, a post-order sequence of such nodes.
use vstd::prelude::*;
use crate::text::{
    append_chars, chars_eq, nat_digits, parse_i64, parse_i64_chars, str_chars, string_from_chars,
    usize_digits,
};

verus! {

/// Arithmetic language:
/// - Add / Mul are commutative at the node equality level;
/// - they remain binary and non-associative structurally.
///
/// Child ids index earlier nodes of a [`RecExpr`] (or e-classes of an
/// e-graph snapshot).
#[derive(Clone, Debug)]
pub enum FheLang {
    Num(i64),
    Add(usize, usize),
    Mul(usize, usize),
    Neg(usize),
    /// Variadic, virtual, zero-cost program root.
    Outputs(Vec<usize>),
    Symbol(String),
}

/// The mathematical value of a node: symbols and output lists by content.
pub enum SpecLang {
    Num(i64),
    Add(usize, usize),
    Mul(usize, usize),
    Neg(usize),
    Outputs(Seq<usize>),
    Symbol(Seq<char>),
}

impl View for FheLang {
    type V = SpecLang;

    open spec fn view(&self) -> SpecLang {
        match self {
            FheLang::Num(n) => SpecLang::Num(*n),
            FheLang::Add(a, b) => SpecLang::Add(*a, *b),
            FheLang::Mul(a, b) => SpecLang::Mul(*a, *b),
            FheLang::Neg(a) => SpecLang::Neg(*a),
            FheLang::Outputs(c) => SpecLang::Outputs(c@),
            FheLang::Symbol(s) => SpecLang::Symbol(s@),
        }
    }
}

#[derive(Debug, Clone, Copy, PartialEq, Eq, Structural, PartialOrd, Ord, Hash)]
pub enum FheLangDiscriminant {
    Num,
    Add,
    Mul,
    Neg,
    Outputs,
    Symbol,
}

#[derive(Debug, Clone)]
pub struct FheLangParseError(pub String);

/// Child ids of a node, in stored order.
pub open spec fn spec_children(n: SpecLang) -> Seq<usize> {
    match n {
        SpecLang::Num(_) | SpecLang::Symbol(_) => seq![],
        SpecLang::Add(a, b) | SpecLang::Mul(a, b) => seq![a, b],
        SpecLang::Neg(a) => seq![a],
        SpecLang::Outputs(c) => c,
    }
}

/// The node with its children replaced, in order, by `ch`.
pub open spec fn relabel(n: SpecLang, ch: Seq<usize>) -> SpecLang {
    match n {
        SpecLang::Num(_) | SpecLang::Symbol(_) => n,
        SpecLang::Add(_, _) => SpecLang::Add(ch[0], ch[1]),
        SpecLang::Mul(_, _) => SpecLang::Mul(ch[0], ch[1]),
        SpecLang::Neg(_) => SpecLang::Neg(ch[0]),
        SpecLang::Outputs(_) => SpecLang::Outputs(ch),
    }
}

pub open spec fn spec_tag(n: SpecLang) -> u8 {
    match n {
        SpecLang::Num(_) => 0,
        SpecLang::Add(..) => 1,
        SpecLang::Mul(..) => 2,
        SpecLang::Neg(_) => 3,
        SpecLang::Outputs(_) => 4,
        SpecLang::Symbol(_) => 5,
    }
}

pub open spec fn spec_discriminant(n: SpecLang) -> FheLangDiscriminant {
    match n {
        SpecLang::Num(_) => FheLangDiscriminant::Num,
        SpecLang::Add(..) => FheLangDiscriminant::Add,
        SpecLang::Mul(..) => FheLangDiscriminant::Mul,
        SpecLang::Neg(_) => FheLangDiscriminant::Neg,
        SpecLang::Outputs(_) => FheLangDiscriminant::Outputs,
        SpecLang::Symbol(_) => FheLangDiscriminant::Symbol,
    }
}

/// Smaller id first.
pub open spec fn spec_unordered_pair(a: usize, b: usize) -> (usize, usize) {
    if a <= b {
        (a, b)
    } else {
        (b, a)
    }
}

/// Node equality: operands of `Add` and `Mul` are compared as unordered
/// pairs; every other node by its operator and content.
pub open spec fn spec_node_eq(x: SpecLang, y: SpecLang) -> bool {
    match (x, y) {
        (SpecLang::Num(a), SpecLang::Num(b)) => a == b,
        (SpecLang::Add(a1, a2), SpecLang::Add(b1, b2)) => spec_unordered_pair(a1, a2)
            == spec_unordered_pair(b1, b2),
        (SpecLang::Mul(a1, a2), SpecLang::Mul(b1, b2)) => spec_unordered_pair(a1, a2)
            == spec_unordered_pair(b1, b2),
        (SpecLang::Neg(a), SpecLang::Neg(b)) => a == b,
        (SpecLang::Outputs(a), SpecLang::Outputs(b)) => a == b,
        (SpecLang::Symbol(a), SpecLang::Symbol(b)) => a == b,
        _ => false,
    }
}

/// Node equality is an equivalence under which `Add` and `Mul` are
/// commutative and nothing else is: two additions (or multiplications) are
/// equal exactly when their operands are the same up to order.
pub proof fn lemma_node_eq_laws(x: SpecLang, y: SpecLang, z: SpecLang, a: usize, b: usize, c: usize, d: usize)
    ensures
        spec_node_eq(x, x),
        spec_node_eq(x, y) ==> spec_node_eq(y, x),
        spec_node_eq(x, y) && spec_node_eq(y, z) ==> spec_node_eq(x, z),
        spec_node_eq(SpecLang::Add(a, b), SpecLang::Add(b, a)),
        spec_node_eq(SpecLang::Mul(a, b), SpecLang::Mul(b, a)),
        spec_node_eq(SpecLang::Add(a, b), SpecLang::Add(c, d)) <==> ((a == c && b == d) || (a == d
            && b == c)),
        spec_node_eq(SpecLang::Mul(a, b), SpecLang::Mul(c, d)) <==> ((a == c && b == d) || (a == d
            && b == c)),
        !spec_node_eq(SpecLang::Add(a, b), SpecLang::Mul(c, d)),
{
}

/// Operator-and-arity matching, ignoring child ids.
pub open spec fn spec_matches(x: SpecLang, y: SpecLang) -> bool {
    match (x, y) {
        (SpecLang::Num(a), SpecLang::Num(b)) => a == b,
        (SpecLang::Symbol(a), SpecLang::Symbol(b)) => a == b,
        (SpecLang::Add(..), SpecLang::Add(..)) => true,
        (SpecLang::Mul(..), SpecLang::Mul(..)) => true,
        (SpecLang::Neg(_), SpecLang::Neg(_)) => true,
        (SpecLang::Outputs(a), SpecLang::Outputs(b)) => a.len() == b.len(),
        _ => false,
    }
}

/// The node that `from_op` builds from an operator and its children, or
/// `None` where it reports an error.
pub open spec fn spec_from_op(op: Seq<char>, children: Seq<usize>) -> Option<SpecLang> {
    if op == "+"@ && children.len() == 2 {
        Some(SpecLang::Add(children[0], children[1]))
    } else if op == "*"@ && children.len() == 2 {
        Some(SpecLang::Mul(children[0], children[1]))
    } else if op == "-"@ && children.len() == 1 {
        Some(SpecLang::Neg(children[0]))
    } else if op == "outputs"@ {
        Some(SpecLang::Outputs(children))
    } else if children.len() == 0 {
        match parse_i64(op) {
            Some(v) => Some(SpecLang::Num(v)),
            None => Some(SpecLang::Symbol(op)),
        }
    } else {
        None
    }
}

/// The message of the error that `from_op` reports.
pub open spec fn from_op_error_text(op: Seq<char>, n: nat) -> Seq<char> {
    "Invalid FheLang node: operator `"@ + op + "` with "@ + nat_digits(n) + " children"@
}

pub fn unordered_pair(a: usize, b: usize) -> (res: (usize, usize))
    ensures
        res == spec_unordered_pair(a, b),
{
    if a <= b {
        (a, b)
    } else {
        (b, a)
    }
}

impl FheLang {
    pub fn tag(&self) -> (res: u8)
        ensures
            res == spec_tag(self@),
    {
        match self {
            FheLang::Num(_) => 0,
            FheLang::Add(..) => 1,
            FheLang::Mul(..) => 2,
            FheLang::Neg(_) => 3,
            FheLang::Outputs(_) => 4,
            FheLang::Symbol(_) => 5,
        }
    }

    pub fn discriminant(&self) -> (res: FheLangDiscriminant)
        ensures
            res == spec_discriminant(self@),
    {
        match self {
            FheLang::Num(_) => FheLangDiscriminant::Num,
            FheLang::Add(..) => FheLangDiscriminant::Add,
            FheLang::Mul(..) => FheLangDiscriminant::Mul,
            FheLang::Neg(_) => FheLangDiscriminant::Neg,
            FheLang::Outputs(_) => FheLangDiscriminant::Outputs,
            FheLang::Symbol(_) => FheLangDiscriminant::Symbol,
        }
    }

    pub fn matches(&self, other: &FheLang) -> (res: bool)
        ensures
            res == spec_matches(self@, other@),
    {
        match (self, other) {
            (FheLang::Num(a), FheLang::Num(b)) => *a == *b,
            (FheLang::Symbol(a), FheLang::Symbol(b)) => *a == *b,
            (FheLang::Add(..), FheLang::Add(..)) => true,
            (FheLang::Mul(..), FheLang::Mul(..)) => true,
            (FheLang::Neg(_), FheLang::Neg(_)) => true,
            (FheLang::Outputs(a), FheLang::Outputs(b)) => a.len() == b.len(),
            _ => false,
        }
    }

    pub fn children(&self) -> (res: Vec<usize>)
        ensures
            res@ == spec_children(self@),
    {
        match self {
            FheLang::Num(_) | FheLang::Symbol(_) => Vec::new(),
            FheLang::Add(a, b) | FheLang::Mul(a, b) => {
                let mut v = Vec::new();
                v.push(*a);
                v.push(*b);
                v
            },
            FheLang::Neg(a) => {
                let mut v = Vec::new();
                v.push(*a);
                v
            },
            FheLang::Outputs(c) => c.clone(),
        }
    }

    /// A copy of the node whose children are, in order, `ch`.
    pub fn with_children(&self, ch: &[usize]) -> (res: FheLang)
        requires
            ch@.len() == spec_children(self@).len(),
        ensures
            res@ == relabel(self@, ch@),
            spec_children(res@) == ch@,
    {
        match self {
            FheLang::Num(n) => FheLang::Num(*n),
            FheLang::Add(..) => FheLang::Add(ch[0], ch[1]),
            FheLang::Mul(..) => FheLang::Mul(ch[0], ch[1]),
            FheLang::Neg(_) => FheLang::Neg(ch[0]),
            FheLang::Outputs(_) => {
                let mut v: Vec<usize> = Vec::with_capacity(ch.len());
                let mut i: usize = 0;
                while i < ch.len()
                    invariant
                        i <= ch@.len(),
                        v@ == ch@.subrange(0, i as int),
                    decreases ch@.len() - i,
                {
                    v.push(ch[i]);
                    i = i + 1;
                }
                assert(v@ =~= ch@);
                FheLang::Outputs(v)
            },
            FheLang::Symbol(s) => FheLang::Symbol(s.clone()),
        }
    }

    /// A copy of the node.
    pub fn clone_node(&self) -> (res: FheLang)
        ensures
            res@ == self@,
    {
        match self {
            FheLang::Num(n) => FheLang::Num(*n),
            FheLang::Add(a, b) => FheLang::Add(*a, *b),
            FheLang::Mul(a, b) => FheLang::Mul(*a, *b),
            FheLang::Neg(a) => FheLang::Neg(*a),
            FheLang::Outputs(c) => FheLang::Outputs(c.clone()),
            FheLang::Symbol(s) => FheLang::Symbol(s.clone()),
        }
    }

    /// Node equality with built-in commutativity of `Add` and `Mul`.
    pub fn same_node(&self, other: &FheLang) -> (res: bool)
        ensures
            res == spec_node_eq(self@, other@),
    {
        match (self, other) {
            (FheLang::Num(a), FheLang::Num(b)) => *a == *b,
            (FheLang::Add(a1, a2), FheLang::Add(b1, b2)) => {
                let (x1, x2) = unordered_pair(*a1, *a2);
                let (y1, y2) = unordered_pair(*b1, *b2);
                x1 == y1 && x2 == y2
            },
            (FheLang::Mul(a1, a2), FheLang::Mul(b1, b2)) => {
                let (x1, x2) = unordered_pair(*a1, *a2);
                let (y1, y2) = unordered_pair(*b1, *b2);
                x1 == y1 && x2 == y2
            },
            (FheLang::Neg(a), FheLang::Neg(b)) => *a == *b,
            (FheLang::Outputs(a), FheLang::Outputs(b)) => usizes_eq(a, b),
            (FheLang::Symbol(a), FheLang::Symbol(b)) => *a == *b,
            _ => false,
        }
    }

    /// Build a node from an operator and its children.
    pub fn from_op(op: &str, children: Vec<usize>) -> (res: Result<FheLang, FheLangParseError>)
        ensures
            match spec_from_op(op@, children@) {
                Some(n) => res matches Ok(node) && node@ == n,
                None => res matches Err(e) && e.0@ == from_op_error_text(
                    op@,
                    children@.len(),
                ),
            },
    {
        let chars = str_chars(op);
        let n = children.len();
        proof {
            reveal_strlit("+");
            reveal_strlit("*");
            reveal_strlit("-");
            reveal_strlit("outputs");
        }
        if is_word(&chars, "+") && n == 2 {
            Ok(FheLang::Add(children[0], children[1]))
        } else if is_word(&chars, "*") && n == 2 {
            Ok(FheLang::Mul(children[0], children[1]))
        } else if is_word(&chars, "-") && n == 1 {
            Ok(FheLang::Neg(children[0]))
        } else if is_word(&chars, "outputs") {
            Ok(FheLang::Outputs(children))
        } else if n == 0 {
            match parse_i64_chars(&chars) {
                Some(v) => Ok(FheLang::Num(v)),
                None => Ok(FheLang::Symbol(string_from_chars(&chars))),
            }
        } else {
            let mut msg = str_chars("Invalid FheLang node: operator `");
            append_chars(&mut msg, &chars);
            append_chars(&mut msg, &str_chars("` with "));
            append_chars(&mut msg, &usize_digits(n));
            append_chars(&mut msg, &str_chars(" children"));
            Err(FheLangParseError(string_from_chars(&msg)))
        }
    }
}

/// Whether the characters spell the given word.
pub fn is_word(v: &[char], w: &str) -> (res: bool)
    ensures
        res == (v@ == w@),
{
    let wc = str_chars(w);
    chars_eq(v, &wc)
}

fn usizes_eq(a: &Vec<usize>, b: &Vec<usize>) -> (res: bool)
    ensures
        res == (a@ == b@),
{
    if a.len() != b.len() {
        return false;
    }
    let mut i: usize = 0;
    while i < a.len()
        invariant
            a@.len() == b@.len(),
            i <= a@.len(),
            forall|j: int| 0 <= j < i ==> a@[j] == b@[j],
        decreases a@.len() - i,
    {
        if a[i] != b[i] {
            return false;
        }
        i = i + 1;
    }
    assert(a@ =~= b@);
    true
}

// ---------------------------------------------------------------------
// RecExpr
// ---------------------------------------------------------------------
/// Every child of node `i` is an earlier node.
pub open spec fn nodes_topological(nodes: Seq<SpecLang>) -> bool {
    forall|i: int, k: int|
        0 <= i < nodes.len() && 0 <= k < spec_children(#[trigger] nodes[i]).len() ==> (
        #[trigger] spec_children(nodes[i])[k]) < i
}

/// A program in post-order: a sequence of nodes whose children point to
/// earlier nodes. The last node is the root.
pub struct RecExpr {
    nodes: Vec<FheLang>,
}

impl View for RecExpr {
    type V = Seq<SpecLang>;

    closed spec fn view(&self) -> Seq<SpecLang> {
        self.nodes@.map_values(|n: FheLang| n@)
    }
}

impl RecExpr {
    #[verifier::type_invariant]
    closed spec fn inv(self) -> bool {
        nodes_topological(self@)
    }

    /// The nodes, with the ordering invariant made available to callers.
    pub fn nodes(&self) -> (res: &[FheLang])
        ensures
            res@.map_values(|n: FheLang| n@) == self@,
            nodes_topological(self@),
    {
        proof {
            use_type_invariant(self);
        }
        self.nodes.as_slice()
    }

    pub fn new() -> (res: RecExpr)
        ensures
            res@ == Seq::<SpecLang>::empty(),
    {
        let r = RecExpr { nodes: Vec::new() };
        assert(r@ =~= Seq::<SpecLang>::empty());
        r
    }

    pub fn len(&self) -> (res: usize)
        ensures
            res == self@.len(),
    {
        self.nodes.len()
    }

    pub fn get(&self, i: usize) -> (res: &FheLang)
        requires
            i < self@.len(),
        ensures
            res@ == self@[i as int],
    {
        &self.nodes[i]
    }

    /// Whether `node` may be appended: all its children are present.
    pub fn can_add(&self, node: &FheLang) -> (res: bool)
        ensures
            res == (forall|k: int|
                0 <= k < spec_children(node@).len() ==> #[trigger] spec_children(node@)[k]
                    < self@.len()),
    {
        let c = node.children();
        let n = self.nodes.len();
        let mut i: usize = 0;
        while i < c.len()
            invariant
                i <= c@.len(),
                c@ == spec_children(node@),
                n == self@.len(),
                forall|k: int| 0 <= k < i ==> #[trigger] c@[k] < n,
            decreases c@.len() - i,
        {
            if c[i] >= n {
                return false;
            }
            i = i + 1;
        }
        true
    }

    /// Append a node whose children are already present; its id is returned.
    pub fn add(&mut self, node: FheLang) -> (id: usize)
        requires
            forall|k: int|
                0 <= k < spec_children(node@).len() ==> #[trigger] spec_children(node@)[k]
                    < old(self)@.len(),
        ensures
            final(self)@ == old(self)@.push(node@),
            id == old(self)@.len(),
    {
        proof {
            use_type_invariant(&*self);
        }
        let ghost old_view = self@;
        let id = self.nodes.len();
        let mut nodes: Vec<FheLang> = Vec::new();
        std::mem::swap(&mut nodes, &mut self.nodes);
        assert(nodes@.map_values(|n: FheLang| n@) == old_view);
        nodes.push(node);
        assert(nodes@.map_values(|n: FheLang| n@) =~= old_view.push(node@));
        self.nodes = nodes;
        id
    }
}

} // verus!
