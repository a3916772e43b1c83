//! A simple arithmetic DAG IR with one or more outputs, and its text format.
//!
//! ```text
//! n0 = a
//! n1 = b
//! n2 = n0 * n1
//! n3 = n2 + n0
//! outputs = n2, n3
//! ```
//!
//! `output = nX` remains accepted as a one-output alias. Nodes must be
//! declared in topological order: a node may refer only to an earlier
//! definition. `#` and `//` start comments.
use vstd::prelude::*;
use crate::dag::{dag_wf, key_children, keys_topological, keys_view, Dag, DagKey, SpecKey};
use crate::lang::{spec_children, FheLang, RecExpr, SpecLang};
use crate::text::{
    append_chars, copy_range, cut_at_char, cut_at_slashes, cut_index, cut_slashes_index, is_ws,
    nat_digits, parse_i64, parse_i64_chars, seqs_view, spec_lines, split_lines, split_words,
    str_chars, string_from_chars, trim, trim_chars, usize_digits, words,
};

verus! {

pub type NodeId = usize;

#[derive(Clone, Debug)]
enum ProgramNode {
    Constant(i64),
    Input(String),
    Add(NodeId, NodeId),
    Mul(NodeId, NodeId),
    Neg(NodeId),
}

impl View for ProgramNode {
    type V = SpecKey;

    closed spec fn view(&self) -> SpecKey {
        match self {
            ProgramNode::Constant(v) => SpecKey::Num(*v),
            ProgramNode::Input(s) => SpecKey::Symbol(s@),
            ProgramNode::Add(a, b) => SpecKey::Add(*a, *b),
            ProgramNode::Mul(a, b) => SpecKey::Mul(*a, *b),
            ProgramNode::Neg(a) => SpecKey::Neg(*a),
        }
    }
}

spec fn program_view(v: Seq<ProgramNode>) -> Seq<SpecKey> {
    v.map_values(|n: ProgramNode| n@)
}

/// A parsed program: nodes in definition order and the output nodes.
#[derive(Debug)]
pub struct ProgramDag {
    nodes: Vec<ProgramNode>,
    outputs: Vec<NodeId>,
}

pub struct ProgramView {
    pub nodes: Seq<SpecKey>,
    pub outputs: Seq<usize>,
}

/// Nodes refer to earlier nodes; outputs are nodes.
pub open spec fn program_wf(nodes: Seq<SpecKey>, outputs: Seq<usize>) -> bool {
    &&& keys_topological(nodes)
    &&& forall|i: int| 0 <= i < outputs.len() ==> #[trigger] outputs[i] < nodes.len()
}

impl View for ProgramDag {
    type V = ProgramView;

    closed spec fn view(&self) -> ProgramView {
        ProgramView { nodes: program_view(self.nodes@), outputs: self.outputs@ }
    }
}

// ---------------------------------------------------------------------
// The text format
// ---------------------------------------------------------------------
/// The state after some lines: nodes, outputs, the name of every node,
/// and whether outputs were declared.
pub struct ParseState {
    pub nodes: Seq<SpecKey>,
    pub outputs: Seq<usize>,
    pub names: Seq<Seq<char>>,
    pub declared: bool,
}

/// A line with its comment removed, trimmed.
pub open spec fn clean_line(line: Seq<char>) -> Seq<char> {
    trim(cut_at_slashes(cut_at_char(line, '#')))
}

/// Index of the node named `w`, searching from `i`.
pub open spec fn find_name(names: Seq<Seq<char>>, w: Seq<char>, i: int) -> Option<nat>
    decreases names.len() - i,
{
    if i < 0 || i >= names.len() {
        None
    } else if names[i] == w {
        Some(i as nat)
    } else {
        find_name(names, w, i + 1)
    }
}

pub open spec fn line_msg(no: nat, body: Seq<char>) -> Seq<char> {
    "Line "@ + nat_digits(no) + ": "@ + body
}

pub open spec fn undefined_msg(no: nat, w: Seq<char>) -> Seq<char> {
    line_msg(no, "node `"@ + w + "` must be defined before it is used"@)
}

/// Output names resolved in order; the first unknown name otherwise.
pub open spec fn resolve_outputs(names: Seq<Seq<char>>, ws: Seq<Seq<char>>) -> Result<
    Seq<usize>,
    Seq<char>,
>
    decreases ws.len(),
{
    if ws.len() == 0 {
        Ok(seq![])
    } else {
        match find_name(names, ws[0], 0) {
            None => Err(ws[0]),
            Some(i) => match resolve_outputs(names, ws.drop_first()) {
                Ok(r) => Ok(seq![i as usize] + r),
                Err(w) => Err(w),
            },
        }
    }
}

pub open spec fn output_decl(lhs: Seq<char>, rhs: Seq<char>, no: nat, st: ParseState) -> Result<
    ParseState,
    Seq<char>,
> {
    let ws = words(rhs, true);
    if st.declared {
        Err(line_msg(no, "outputs are already defined; use one `outputs = ...` declaration"@))
    } else if ws.len() == 0 {
        Err(line_msg(no, "expected at least one output node"@))
    } else if lhs == "output"@ && ws.len() != 1 {
        Err(
            line_msg(
                no,
                "`output` accepts one node; use `outputs = n1, n2, ...` for multiple outputs"@,
            ),
        )
    } else {
        match resolve_outputs(st.names, ws) {
            Ok(ids) => Ok(ParseState { outputs: ids, declared: true, ..st }),
            Err(w) => Err(line_msg(no, "output references undefined node `"@ + w + "`"@)),
        }
    }
}

/// The node a right-hand side defines.
pub open spec fn rhs_node(rhs: Seq<char>, no: nat, names: Seq<Seq<char>>) -> Result<
    SpecKey,
    Seq<char>,
> {
    let t = words(rhs, false);
    if t.len() == 1 {
        match parse_i64(t[0]) {
            Some(v) => Ok(SpecKey::Num(v)),
            None => Ok(SpecKey::Symbol(t[0])),
        }
    } else if t.len() == 2 && t[0] == "-"@ {
        match find_name(names, t[1], 0) {
            Some(c) => Ok(SpecKey::Neg(c as usize)),
            None => Err(undefined_msg(no, t[1])),
        }
    } else if t.len() == 3 && (t[1] == "+"@ || t[1] == "*"@) {
        match find_name(names, t[0], 0) {
            None => Err(undefined_msg(no, t[0])),
            Some(l) => match find_name(names, t[2], 0) {
                None => Err(undefined_msg(no, t[2])),
                Some(r) => if t[1] == "+"@ {
                    Ok(SpecKey::Add(l as usize, r as usize))
                } else {
                    Ok(SpecKey::Mul(l as usize, r as usize))
                },
            },
        }
    } else {
        Err(line_msg(no, "unsupported expression `"@ + rhs + "`"@))
    }
}

pub open spec fn node_def(lhs: Seq<char>, rhs: Seq<char>, no: nat, st: ParseState) -> Result<
    ParseState,
    Seq<char>,
> {
    if find_name(st.names, lhs, 0) is Some {
        Err(line_msg(no, "node `"@ + lhs + "` is already defined"@))
    } else {
        match rhs_node(rhs, no, st.names) {
            Ok(k) => Ok(ParseState { nodes: st.nodes.push(k), names: st.names.push(lhs), ..st }),
            Err(m) => Err(m),
        }
    }
}

/// One line of the program, numbered `no` from 1.
pub open spec fn parse_line(line: Seq<char>, no: nat, st: ParseState) -> Result<
    ParseState,
    Seq<char>,
> {
    let l = clean_line(line);
    let cut = cut_at_char(l, '=');
    if l.len() == 0 {
        Ok(st)
    } else if cut.len() == l.len() {
        Err(line_msg(no, "expected `=`"@))
    } else {
        let lhs = trim(cut);
        let rhs = trim(l.subrange(cut.len() + 1 as int, l.len() as int));
        if lhs.len() == 0 || rhs.len() == 0 {
            Err(line_msg(no, "invalid assignment"@))
        } else if lhs == "output"@ || lhs == "outputs"@ {
            output_decl(lhs, rhs, no, st)
        } else {
            node_def(lhs, rhs, no, st)
        }
    }
}

pub open spec fn missing_outputs_msg() -> Seq<char> {
    "Program has no `output = nX` or `outputs = n1, n2, ...` declaration"@
}

/// Lines `i..` on top of state `st`.
pub open spec fn parse_lines(lines: Seq<Seq<char>>, i: int, st: ParseState) -> Result<
    ParseState,
    Seq<char>,
>
    decreases lines.len() - i,
{
    if i < 0 || i >= lines.len() {
        if st.declared {
            Ok(st)
        } else {
            Err(missing_outputs_msg())
        }
    } else {
        match parse_line(lines[i], (i + 1) as nat, st) {
            Ok(st2) => parse_lines(lines, i + 1, st2),
            Err(m) => Err(m),
        }
    }
}

pub open spec fn empty_state() -> ParseState {
    ParseState { nodes: seq![], outputs: seq![], names: seq![], declared: false }
}

/// The program a text denotes, or the message of the error reported.
pub open spec fn spec_parse(text: Seq<char>) -> Result<ParseState, Seq<char>> {
    parse_lines(spec_lines(text), 0, empty_state())
}

/// The state is a well-formed program with one name per node.
pub open spec fn state_wf(st: ParseState) -> bool {
    &&& program_wf(st.nodes, st.outputs)
    &&& st.names.len() == st.nodes.len()
}

pub open spec fn no_outputs_msg() -> Seq<char> {
    "ProgramDag has no output nodes"@
}

proof fn lemma_resolve_len(names: Seq<Seq<char>>, ws: Seq<Seq<char>>)
    ensures
        resolve_outputs(names, ws) matches Ok(ids) ==> ids.len() == ws.len(),
    decreases ws.len(),
{
    if ws.len() > 0 {
        lemma_resolve_len(names, ws.drop_first());
    }
}

proof fn lemma_lines_outputs(lines: Seq<Seq<char>>, i: int, st: ParseState)
    requires
        st.declared ==> st.outputs.len() > 0,
    ensures
        parse_lines(lines, i, st) matches Ok(s) ==> s.outputs.len() > 0,
    decreases lines.len() - i,
{
    if 0 <= i < lines.len() {
        let l = clean_line(lines[i]);
        let cut = cut_at_char(l, '=');
        let rhs = trim(l.subrange(cut.len() + 1 as int, l.len() as int));
        lemma_resolve_len(st.names, words(rhs, true));
        if let Ok(st2) = parse_line(lines[i], (i + 1) as nat, st) {
            lemma_lines_outputs(lines, i + 1, st2);
        }
    }
}

/// A parsed program always declares at least one output.
pub proof fn lemma_parse_outputs(text: Seq<char>)
    ensures
        spec_parse(text) matches Ok(st) ==> st.outputs.len() > 0,
{
    lemma_lines_outputs(spec_lines(text), 0, empty_state());
}

// ---------------------------------------------------------------------
// Parsing
// ---------------------------------------------------------------------
pub(crate) proof fn lemma_find_name(names: Seq<Seq<char>>, w: Seq<char>, i: int)
    requires
        0 <= i,
    ensures
        match find_name(names, w, i) {
            Some(j) => i <= j < names.len() && names[j as int] == w,
            None => forall|j: int| i <= j < names.len() ==> names[j] != w,
        },
    decreases names.len() - i,
{
    if i < names.len() && names[i] != w {
        lemma_find_name(names, w, i + 1);
    }
}

fn find_name_exec(names: &Vec<Vec<char>>, w: &[char]) -> (res: Option<usize>)
    ensures
        match res {
            Some(i) => find_name(seqs_view(names@), w@, 0) == Some(i as nat),
            None => find_name(seqs_view(names@), w@, 0) is None,
        },
{
    let ghost nv = seqs_view(names@);
    let mut i: usize = 0;
    while i < names.len()
        invariant
            nv == seqs_view(names@),
            i <= names@.len(),
            find_name(nv, w@, 0) == find_name(nv, w@, i as int),
        decreases names@.len() - i,
    {
        if crate::text::chars_eq(&names[i], w) {
            return Some(i);
        }
        i = i + 1;
    }
    None
}

fn line_error(no: usize, body: &[char]) -> (res: String)
    ensures
        res@ == line_msg(no as nat, body@),
{
    let mut m = str_chars("Line ");
    append_chars(&mut m, &usize_digits(no));
    append_chars(&mut m, &str_chars(": "));
    append_chars(&mut m, body);
    string_from_chars(&m)
}

/// `pre + w + post` as characters.
fn quoted(pre: &str, w: &[char], post: &str) -> (res: Vec<char>)
    ensures
        res@ == pre@ + w@ + post@,
{
    let mut m = str_chars(pre);
    append_chars(&mut m, w);
    append_chars(&mut m, &str_chars(post));
    m
}

fn lookup_node(names: &Vec<Vec<char>>, node_name: &[char], line_no: usize) -> (res: Result<
    NodeId,
    String,
>)
    ensures
        match find_name(seqs_view(names@), node_name@, 0) {
            Some(i) => res == Ok::<NodeId, String>(i as usize),
            None => res matches Err(e) && e@ == undefined_msg(line_no as nat, node_name@),
        },
{
    match find_name_exec(names, node_name) {
        Some(i) => Ok(i),
        None => {
            let body = quoted("node `", node_name, "` must be defined before it is used");
            Err(line_error(line_no, &body))
        },
    }
}

/// The output names of a declaration, split at commas and whitespace.
fn parse_output_names(rhs: &[char], line_no: usize) -> (res: Result<Vec<Vec<char>>, String>)
    ensures
        match res {
            Ok(ws) => seqs_view(ws@) == words(rhs@, true) && ws@.len() > 0,
            Err(e) => words(rhs@, true).len() == 0 && e@ == line_msg(
                line_no as nat,
                "expected at least one output node"@,
            ),
        },
{
    let names = split_words(rhs, true);
    if names.len() == 0 {
        return Err(line_error(line_no, &str_chars("expected at least one output node")));
    }
    Ok(names)
}

/// The executable parse state.
struct Builder {
    nodes: Vec<ProgramNode>,
    outputs: Vec<NodeId>,
    names: Vec<Vec<char>>,
    declared: bool,
}

impl Builder {
    spec fn state(&self) -> ParseState {
        ParseState {
            nodes: program_view(self.nodes@),
            outputs: self.outputs@,
            names: seqs_view(self.names@),
            declared: self.declared,
        }
    }
}

proof fn lemma_resolve_step(names: Seq<Seq<char>>, ws: Seq<Seq<char>>, k: int)
    requires
        0 <= k < ws.len(),
        find_name(names, ws[k], 0) is Some,
    ensures
        resolve_outputs(names, ws.subrange(k, ws.len() as int)) == match resolve_outputs(
            names,
            ws.subrange(k + 1, ws.len() as int),
        ) {
            Ok(r) => Ok(seq![find_name(names, ws[k], 0).unwrap() as usize] + r),
            Err(w) => Err(w),
        },
{
    let t = ws.subrange(k, ws.len() as int);
    assert(t.drop_first() =~= ws.subrange(k + 1, ws.len() as int));
    assert(t[0] == ws[k]);
}

#[verifier::loop_isolation(false)]
fn declare_outputs(b: &mut Builder, lhs: &[char], rhs: &[char], line_no: usize) -> (res: Result<
    (),
    String,
>)
    requires
        state_wf(old(b).state()),
    ensures
        match output_decl(lhs@, rhs@, line_no as nat, old(b).state()) {
            Ok(st) => res is Ok && final(b).state() == st,
            Err(m) => res matches Err(e) && e@ == m,
        },
        state_wf(final(b).state()),
{
    proof {
        reveal_strlit("output");
    }
    if b.declared {
        return Err(
            line_error(
                line_no,
                &str_chars("outputs are already defined; use one `outputs = ...` declaration"),
            ),
        );
    }
    let output_names = match parse_output_names(rhs, line_no) {
        Ok(ws) => ws,
        Err(e) => return Err(e),
    };
    if crate::lang::is_word(lhs, "output") && output_names.len() != 1 {
        return Err(
            line_error(
                line_no,
                &str_chars(
                    "`output` accepts one node; use `outputs = n1, n2, ...` for multiple outputs",
                ),
            ),
        );
    }
    let ghost ws = seqs_view(output_names@);
    let ghost names = seqs_view(b.names@);
    let mut outputs: Vec<NodeId> = Vec::new();
    let mut k: usize = 0;
    assert(ws.subrange(0, ws.len() as int) =~= ws);
    while k < output_names.len()
        invariant
            ws == seqs_view(output_names@),
            names == seqs_view(b.names@),
            state_wf(b.state()),
            k <= ws.len(),
            resolve_outputs(names, ws) == match resolve_outputs(
                names,
                ws.subrange(k as int, ws.len() as int),
            ) {
                Ok(r) => Ok(outputs@ + r),
                Err(w) => Err(w),
            },
            forall|j: int| 0 <= j < outputs@.len() ==> #[trigger] outputs@[j] < b.nodes@.len(),
        decreases ws.len() - k,
    {
        let name = &output_names[k];
        assert(ws[k as int] == name@);
        match find_name_exec(&b.names, name) {
            Some(id) => {
                proof {
                    lemma_find_name(names, name@, 0);
                    lemma_resolve_step(names, ws, k as int);
                    let rest = resolve_outputs(names, ws.subrange(k + 1, ws.len() as int));
                    if let Ok(r) = rest {
                        assert(outputs@.push(id) + r =~= outputs@ + (seq![id] + r));
                    }
                }
                outputs.push(id);
            },
            None => {
                proof {
                    let t = ws.subrange(k as int, ws.len() as int);
                    assert(t[0] == ws[k as int]);
                    assert(resolve_outputs(names, t) == Err::<Seq<usize>, Seq<char>>(name@));
                    assert(resolve_outputs(names, ws) == Err::<Seq<usize>, Seq<char>>(name@));
                }
                let body = quoted("output references undefined node `", name, "`");
                return Err(line_error(line_no, &body));
            },
        }
        k = k + 1;
    }
    proof {
        let t = ws.subrange(k as int, ws.len() as int);
        assert(t =~= Seq::<Seq<char>>::empty());
        assert(outputs@ + Seq::<usize>::empty() =~= outputs@);
    }
    b.outputs = outputs;
    b.declared = true;
    Ok(())
}

fn define_node(b: &mut Builder, lhs: &[char], rhs: &[char], line_no: usize) -> (res: Result<
    (),
    String,
>)
    requires
        state_wf(old(b).state()),
    ensures
        match node_def(lhs@, rhs@, line_no as nat, old(b).state()) {
            Ok(st) => res is Ok && final(b).state() == st,
            Err(m) => res matches Err(e) && e@ == m,
        },
        state_wf(final(b).state()),
{
    proof {
        reveal_strlit("-");
        reveal_strlit("+");
        reveal_strlit("*");
    }
    let ghost st = b.state();
    if find_name_exec(&b.names, lhs).is_some() {
        let body = quoted("node `", lhs, "` is already defined");
        return Err(line_error(line_no, &body));
    }
    let tokens = split_words(rhs, false);
    let ghost t = seqs_view(tokens@);
    if tokens.len() > 0 {
        assert(t[0] == tokens@[0]@);
    }
    if tokens.len() > 1 {
        assert(t[1] == tokens@[1]@);
    }
    if tokens.len() > 2 {
        assert(t[2] == tokens@[2]@);
    }
    let node = if tokens.len() == 1 {
        match parse_i64_chars(&tokens[0]) {
            Some(number) => ProgramNode::Constant(number),
            None => ProgramNode::Input(string_from_chars(&tokens[0])),
        }
    } else if tokens.len() == 2 && crate::lang::is_word(&tokens[0], "-") {
        let child = match lookup_node(&b.names, &tokens[1], line_no) {
            Ok(c) => c,
            Err(e) => return Err(e),
        };
        ProgramNode::Neg(child)
    } else if tokens.len() == 3 && (crate::lang::is_word(&tokens[1], "+") || crate::lang::is_word(
        &tokens[1],
        "*",
    )) {
        let left = match lookup_node(&b.names, &tokens[0], line_no) {
            Ok(c) => c,
            Err(e) => return Err(e),
        };
        let right = match lookup_node(&b.names, &tokens[2], line_no) {
            Ok(c) => c,
            Err(e) => return Err(e),
        };
        if crate::lang::is_word(&tokens[1], "+") {
            ProgramNode::Add(left, right)
        } else {
            ProgramNode::Mul(left, right)
        }
    } else {
        let body = quoted("unsupported expression `", rhs, "`");
        return Err(line_error(line_no, &body));
    };
    proof {
        lemma_find_name(st.names, lhs@, 0);
        if t.len() == 2 {
            lemma_find_name(st.names, t[1], 0);
        }
        if t.len() == 3 {
            lemma_find_name(st.names, t[0], 0);
            lemma_find_name(st.names, t[2], 0);
        }
    }
    let ghost old_nodes = b.nodes@;
    let ghost old_names = b.names@;
    b.nodes.push(node);
    b.names.push(copy_range(lhs, 0, lhs.len()));
    proof {
        assert(lhs@.subrange(0, lhs@.len() as int) =~= lhs@);
        assert(program_view(b.nodes@) =~= program_view(old_nodes).push(node@));
        assert(seqs_view(b.names@) =~= seqs_view(old_names).push(lhs@));
        let nv = program_view(b.nodes@);
        assert forall|a: int, k: int|
            0 <= a < nv.len() && 0 <= k < key_children(#[trigger] nv[a]).len() implies (
            #[trigger] key_children(nv[a])[k]) < a by {
            if a < old_nodes.len() {
                assert(nv[a] == program_view(old_nodes)[a]);
            }
        }
    }
    Ok(())
}

fn parse_one_line(b: &mut Builder, raw_line: &[char], line_no: usize) -> (res: Result<(), String>)
    requires
        state_wf(old(b).state()),
    ensures
        match parse_line(raw_line@, line_no as nat, old(b).state()) {
            Ok(st) => res is Ok && final(b).state() == st,
            Err(m) => res matches Err(e) && e@ == m,
        },
        state_wf(final(b).state()),
{
    proof {
        reveal_strlit("output");
        reveal_strlit("outputs");
    }
    let hash = cut_index(raw_line, '#');
    let before_hash = copy_range(raw_line, 0, hash);
    let slashes = cut_slashes_index(&before_hash);
    let uncommented = copy_range(&before_hash, 0, slashes);
    let line = trim_chars(&uncommented);
    assert(line@ == clean_line(raw_line@));
    if line.len() == 0 {
        return Ok(());
    }
    let eq = cut_index(&line, '=');
    if eq == line.len() {
        return Err(line_error(line_no, &str_chars("expected `=`")));
    }
    let lhs_raw = copy_range(&line, 0, eq);
    let rhs_raw = copy_range(&line, eq + 1, line.len());
    let lhs = trim_chars(&lhs_raw);
    let rhs = trim_chars(&rhs_raw);
    if lhs.len() == 0 || rhs.len() == 0 {
        return Err(line_error(line_no, &str_chars("invalid assignment")));
    }
    if crate::lang::is_word(&lhs, "output") || crate::lang::is_word(&lhs, "outputs") {
        declare_outputs(b, &lhs, &rhs, line_no)
    } else {
        define_node(b, &lhs, &rhs, line_no)
    }
}

impl ProgramDag {
    #[verifier::type_invariant]
    closed spec fn inv(self) -> bool {
        program_wf(program_view(self.nodes@), self.outputs@)
    }

    /// Parse a textual DAG program.
    pub fn parse(text: &str) -> (res: Result<ProgramDag, String>)
        ensures
            match spec_parse(text@) {
                Ok(st) => res matches Ok(p) && p@.nodes == st.nodes && p@.outputs == st.outputs,
                Err(m) => res matches Err(e) && e@ == m,
            },
    {
        let chars = str_chars(text);
        let lines = split_lines(&chars);
        let ghost lv = seqs_view(lines@);
        let mut b = Builder {
            nodes: Vec::new(),
            outputs: Vec::new(),
            names: Vec::new(),
            declared: false,
        };
        proof {
            assert(program_view(b.nodes@) =~= Seq::<SpecKey>::empty());
            assert(seqs_view(b.names@) =~= Seq::<Seq<char>>::empty());
            assert(b.state() == empty_state());
        }
        let mut i: usize = 0;
        while i < lines.len()
            invariant
                lv == seqs_view(lines@),
                lv == spec_lines(text@),
                i <= lv.len(),
                state_wf(b.state()),
                spec_parse(text@) == parse_lines(lv, i as int, b.state()),
            decreases lv.len() - i,
        {
            assert(lv[i as int] == lines@[i as int]@);
            match parse_one_line(&mut b, &lines[i], i + 1) {
                Ok(()) => {},
                Err(e) => {
                    return Err(e);
                },
            }
            i = i + 1;
        }
        if !b.declared {
            return Err(
                string_from_chars(
                    &str_chars(
                        "Program has no `output = nX` or `outputs = n1, n2, ...` declaration",
                    ),
                ),
            );
        }
        Ok(ProgramDag { nodes: b.nodes, outputs: b.outputs })
    }

    /// Convert this parsed program directly into the internal DAG: every
    /// program node becomes exactly one DAG node, so the explicit sharing of
    /// the input is preserved.
    pub fn to_dag(&self) -> (res: Result<Dag, String>)
        ensures
            self@.outputs.len() == 0 ==> (res matches Err(e) && e@ == no_outputs_msg()),
            self@.outputs.len() > 0 ==> (res matches Ok(d) && d@.nodes == self@.nodes && d@.roots
                == self@.outputs),
    {
        proof {
            use_type_invariant(self);
        }
        if self.outputs.len() == 0 {
            return Err(string_from_chars(&str_chars("ProgramDag has no output nodes")));
        }
        let mut nodes: Vec<DagKey> = Vec::new();
        let mut i: usize = 0;
        while i < self.nodes.len()
            invariant
                i <= self.nodes@.len(),
                keys_view(nodes@) == program_view(self.nodes@).subrange(0, i as int),
            decreases self.nodes@.len() - i,
        {
            let key = match &self.nodes[i] {
                ProgramNode::Constant(value) => DagKey::Num(*value),
                ProgramNode::Input(name) => DagKey::Symbol(name.clone()),
                ProgramNode::Add(left, right) => DagKey::Add(*left, *right),
                ProgramNode::Mul(left, right) => DagKey::Mul(*left, *right),
                ProgramNode::Neg(child) => DagKey::Neg(*child),
            };
            assert(key@ == self.nodes@[i as int]@);
            let ghost before = nodes@;
            nodes.push(key);
            i = i + 1;
            assert(keys_view(nodes@) =~= keys_view(before).push(key@));
            assert(keys_view(nodes@) =~= program_view(self.nodes@).subrange(0, i as int));
        }
        assert(program_view(self.nodes@).subrange(0, i as int) =~= program_view(self.nodes@));
        Ok(Dag::from_wf_parts(nodes, self.outputs.clone()))
    }

    /// The program as a post-order expression: its nodes in order, then a
    /// virtual `outputs(...)` root over the output nodes.
    pub fn to_recexpr(&self) -> (res: Result<RecExpr, String>)
        ensures
            self@.outputs.len() == 0 ==> (res matches Err(e) && e@ == no_outputs_msg()),
            self@.outputs.len() > 0 ==> (res matches Ok(r) && r@.len() == self@.nodes.len() + 1
                && (forall|i: int| 0 <= i < self@.nodes.len() ==> #[trigger] r@[i] == key_to_lang(
                self@.nodes[i],
            )) && r@[self@.nodes.len() as int] == SpecLang::Outputs(self@.outputs)),
    {
        proof {
            use_type_invariant(self);
        }
        if self.outputs.len() == 0 {
            return Err(string_from_chars(&str_chars("ProgramDag has no output nodes")));
        }
        let ghost pv = program_view(self.nodes@);
        let mut expr = RecExpr::new();
        let mut i: usize = 0;
        while i < self.nodes.len()
            invariant
                pv == program_view(self.nodes@),
                keys_topological(pv),
                i <= pv.len(),
                expr@.len() == i,
                forall|j: int| 0 <= j < i ==> #[trigger] expr@[j] == key_to_lang(pv[j]),
            decreases pv.len() - i,
        {
            assert(pv[i as int] == self.nodes@[i as int]@);
            let node = match &self.nodes[i] {
                ProgramNode::Constant(value) => FheLang::Num(*value),
                ProgramNode::Input(name) => FheLang::Symbol(name.clone()),
                ProgramNode::Add(left, right) => FheLang::Add(*left, *right),
                ProgramNode::Mul(left, right) => FheLang::Mul(*left, *right),
                ProgramNode::Neg(child) => FheLang::Neg(*child),
            };
            proof {
                assert(node@ == key_to_lang(pv[i as int]));
                assert forall|k: int|
                    0 <= k < spec_children(node@).len() implies #[trigger] spec_children(node@)[k]
                    < expr@.len() by {
                    assert(spec_children(node@)[k] == key_children(pv[i as int])[k]);
                }
            }
            expr.add(node);
            i = i + 1;
        }
        let root = FheLang::Outputs(self.outputs.clone());
        expr.add(root);
        Ok(expr)
    }

    pub fn node_count(&self) -> (res: usize)
        ensures
            res == self@.nodes.len(),
    {
        self.nodes.len()
    }

    pub fn output_count(&self) -> (res: usize)
        ensures
            res == self@.outputs.len(),
    {
        self.outputs.len()
    }
}

/// A DAG node as a language node with the same operands.
pub open spec fn key_to_lang(k: SpecKey) -> SpecLang {
    match k {
        SpecKey::Num(v) => SpecLang::Num(v),
        SpecKey::Symbol(s) => SpecLang::Symbol(s),
        SpecKey::Add(a, b) => SpecLang::Add(a, b),
        SpecKey::Mul(a, b) => SpecLang::Mul(a, b),
        SpecKey::Neg(a) => SpecLang::Neg(a),
    }
}

impl Clone for ProgramDag {
    fn clone(&self) -> (res: ProgramDag)
        ensures
            res@ == self@,
    {
        proof {
            use_type_invariant(self);
        }
        let mut nodes: Vec<ProgramNode> = Vec::new();
        let mut i: usize = 0;
        while i < self.nodes.len()
            invariant
                i <= self.nodes@.len(),
                program_view(nodes@) == program_view(self.nodes@).subrange(0, i as int),
            decreases self.nodes@.len() - i,
        {
            let node = match &self.nodes[i] {
                ProgramNode::Constant(value) => ProgramNode::Constant(*value),
                ProgramNode::Input(name) => ProgramNode::Input(name.clone()),
                ProgramNode::Add(left, right) => ProgramNode::Add(*left, *right),
                ProgramNode::Mul(left, right) => ProgramNode::Mul(*left, *right),
                ProgramNode::Neg(child) => ProgramNode::Neg(*child),
            };
            assert(node@ == self.nodes@[i as int]@);
            let ghost before = nodes@;
            nodes.push(node);
            i = i + 1;
            assert(program_view(nodes@) =~= program_view(before).push(node@));
            assert(program_view(nodes@) =~= program_view(self.nodes@).subrange(0, i as int));
        }
        assert(program_view(self.nodes@).subrange(0, i as int) =~= program_view(self.nodes@));
        let res = ProgramDag { nodes, outputs: self.outputs.clone() };
        assert(res@.nodes =~= self@.nodes);
        res
    }
}

impl Default for ProgramDag {
    fn default() -> (res: ProgramDag)
        ensures
            res@.nodes == Seq::<SpecKey>::empty(),
            res@.outputs == Seq::<usize>::empty(),
    {
        let p = ProgramDag { nodes: Vec::new(), outputs: Vec::new() };
        assert(program_view(p.nodes@) =~= Seq::<SpecKey>::empty());
        p
    }
}

} // verus!
