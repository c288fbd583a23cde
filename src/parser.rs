//! The front end: s-expression parsing, symbol resolution and function inlining.
use crate::names::CompileError;
use crate::text::{chars_of, string_of};
use vstd::prelude::*;

verus! {

/// The built-in forms and operators.
#[derive(Debug, PartialEq, Eq, Clone, Copy, Structural)]
pub enum Builtin {
    Defun,
    Defalias,
    Defunalias,
    Defcolumns,
    Add,
    Sub,
    Mul,
    Equals,
}

#[derive(Debug, PartialEq, Eq, Clone, Copy, Structural)]
pub enum VerbStatus {
    Builtin(Builtin),
    Defined,
}

/// The head of an s-expression.
#[derive(Debug)]
pub struct Verb {
    pub name: String,
    pub status: VerbStatus,
}

/// Whether a symbol is a column reference or a formal parameter or alias target.
#[derive(Debug, PartialEq, Eq, Clone, Copy, Structural)]
pub enum SymbolStatus {
    Pending,
    Resolved,
    Functional,
}

/// The raw syntax tree.
#[derive(Debug)]
pub enum AstNode {
    Ignore,
    Value(i32),
    Symbol { name: String, status: SymbolStatus },
    Funcall { verb: Verb, args: Vec<AstNode> },
}

/// A compiled expression: built-in calls over constants and final column names.
#[derive(Debug)]
pub enum Constraint {
    Funcall { func: Builtin, args: Vec<Constraint> },
    Const(i32),
    Column(String),
}

/// The compiled program.
#[derive(Debug)]
pub struct ConstraintsSet {
    pub constraints: Vec<Constraint>,
}

/// The built-in that a surface name stands for.
pub open spec fn builtin_of(s: Seq<char>) -> Option<Builtin> {
    if s == seq!['d', 'e', 'f', 'u', 'n'] {
        Some(Builtin::Defun)
    } else if s == seq!['d', 'e', 'f', 'a', 'l', 'i', 'a', 's'] {
        Some(Builtin::Defalias)
    } else if s == seq!['d', 'e', 'f', 'u', 'n', 'a', 'l', 'i', 'a', 's'] {
        Some(Builtin::Defunalias)
    } else if s == seq!['d', 'e', 'f', 'c', 'o', 'l', 'u', 'm', 'n', 's'] {
        Some(Builtin::Defcolumns)
    } else if s == seq!['+'] || s == seq!['a', 'd', 'd'] {
        Some(Builtin::Add)
    } else if s == seq!['*'] || s == seq!['m', 'u', 'l'] || s == seq!['a', 'n', 'd'] {
        Some(Builtin::Mul)
    } else if s == seq!['-'] || s == seq!['s', 'u', 'b'] {
        Some(Builtin::Sub)
    } else if s == seq!['='] || s == seq!['e', 'q'] {
        Some(Builtin::Equals)
    } else {
        None
    }
}

fn chars_eq(a: &Vec<char>, b: &[char]) -> (r: bool)
    ensures
        r == (a@ == b@),
{
    if a.len() != b.len() {
        return false;
    }
    let mut k: usize = 0;
    while k < a.len()
        invariant
            k <= a@.len(),
            a@.len() == b@.len(),
            forall|j: int| 0 <= j < k ==> a@[j] == b@[j],
        decreases a@.len() - k,
    {
        if a[k] != b[k] {
            return false;
        }
        k = k + 1;
    }
    assert(a@ =~= b@);
    true
}

/// Looks a surface name up among the built-ins.
pub fn lookup_builtin(s: &Vec<char>) -> (r: Option<Builtin>)
    ensures
        r == builtin_of(s@),
{
    {
        let w: [char; 5] = ['d', 'e', 'f', 'u', 'n'];
        assert(w@ =~= seq!['d', 'e', 'f', 'u', 'n']);
        if chars_eq(s, &w) {
            return Some(Builtin::Defun);
        }
    }
    {
        let w: [char; 8] = ['d', 'e', 'f', 'a', 'l', 'i', 'a', 's'];
        assert(w@ =~= seq!['d', 'e', 'f', 'a', 'l', 'i', 'a', 's']);
        if chars_eq(s, &w) {
            return Some(Builtin::Defalias);
        }
    }
    {
        let w: [char; 10] = ['d', 'e', 'f', 'u', 'n', 'a', 'l', 'i', 'a', 's'];
        assert(w@ =~= seq!['d', 'e', 'f', 'u', 'n', 'a', 'l', 'i', 'a', 's']);
        if chars_eq(s, &w) {
            return Some(Builtin::Defunalias);
        }
    }
    {
        let w: [char; 10] = ['d', 'e', 'f', 'c', 'o', 'l', 'u', 'm', 'n', 's'];
        assert(w@ =~= seq!['d', 'e', 'f', 'c', 'o', 'l', 'u', 'm', 'n', 's']);
        if chars_eq(s, &w) {
            return Some(Builtin::Defcolumns);
        }
    }
    {
        let w: [char; 1] = ['+'];
        assert(w@ =~= seq!['+']);
        if chars_eq(s, &w) {
            return Some(Builtin::Add);
        }
    }
    {
        let w: [char; 3] = ['a', 'd', 'd'];
        assert(w@ =~= seq!['a', 'd', 'd']);
        if chars_eq(s, &w) {
            return Some(Builtin::Add);
        }
    }
    {
        let w: [char; 1] = ['*'];
        assert(w@ =~= seq!['*']);
        if chars_eq(s, &w) {
            return Some(Builtin::Mul);
        }
    }
    {
        let w: [char; 3] = ['m', 'u', 'l'];
        assert(w@ =~= seq!['m', 'u', 'l']);
        if chars_eq(s, &w) {
            return Some(Builtin::Mul);
        }
    }
    {
        let w: [char; 3] = ['a', 'n', 'd'];
        assert(w@ =~= seq!['a', 'n', 'd']);
        if chars_eq(s, &w) {
            return Some(Builtin::Mul);
        }
    }
    {
        let w: [char; 1] = ['-'];
        assert(w@ =~= seq!['-']);
        if chars_eq(s, &w) {
            return Some(Builtin::Sub);
        }
    }
    {
        let w: [char; 3] = ['s', 'u', 'b'];
        assert(w@ =~= seq!['s', 'u', 'b']);
        if chars_eq(s, &w) {
            return Some(Builtin::Sub);
        }
    }
    {
        let w: [char; 1] = ['='];
        assert(w@ =~= seq!['=']);
        if chars_eq(s, &w) {
            return Some(Builtin::Equals);
        }
    }
    {
        let w: [char; 2] = ['e', 'q'];
        assert(w@ =~= seq!['e', 'q']);
        if chars_eq(s, &w) {
            return Some(Builtin::Equals);
        }
    }
    None
}

/// A lexical token.
#[derive(Debug)]
pub enum Token {
    Open,
    Close,
    Atom(Vec<char>),
}

pub open spec fn is_space(c: char) -> bool {
    c == ' ' || c == '\t' || c == '\n' || c == '\r'
}

/// Characters that end an atom.
pub open spec fn is_delim(c: char) -> bool {
    is_space(c) || c == '(' || c == ')' || c == ';'
}

pub open spec fn atom_ok(t: Token) -> bool {
    t matches Token::Atom(a) ==> a@.len() > 0 && forall|k: int| 0 <= k < a@.len() ==> !is_delim(#[trigger] a@[k])
}

/// A token as a mathematical value.
pub ghost enum Tok {
    Open,
    Close,
    Atom(Seq<char>),
}

pub open spec fn tok_of(t: Token) -> Tok {
    match t {
        Token::Open => Tok::Open,
        Token::Close => Tok::Close,
        Token::Atom(a) => Tok::Atom(a@),
    }
}

pub open spec fn toks_of(v: Seq<Token>) -> Seq<Tok> {
    v.map_values(|t: Token| tok_of(t))
}

/// The end of a `;` comment whose text starts at `i`: the next newline, or the end.
pub open spec fn comment_end(src: Seq<char>, i: int) -> int
    decreases src.len() - i,
{
    if i >= src.len() || src[i] == '\n' {
        i
    } else {
        comment_end(src, i + 1)
    }
}

/// The end of an atom that starts at `i`: the next delimiter, or the end.
pub open spec fn atom_end(src: Seq<char>, i: int) -> int
    decreases src.len() - i,
{
    if i >= src.len() || is_delim(src[i]) {
        i
    } else {
        atom_end(src, i + 1)
    }
}

/// The tokens of `src` from `i` on: blanks and `;` comments dropped, parentheses one token
/// each, every maximal run of other characters an atom.
pub open spec fn lex_from(src: Seq<char>, i: int) -> Seq<Tok>
    decreases src.len() - i, 1int,
{
    if i < 0 || i >= src.len() {
        Seq::empty()
    } else if is_space(src[i]) {
        lex_from(src, i + 1)
    } else if src[i] == ';' {
        let j = comment_end(src, i + 1);
        if i < j <= src.len() {
            lex_from(src, j)
        } else {
            Seq::empty()
        }
    } else if src[i] == '(' {
        seq![Tok::Open] + lex_from(src, i + 1)
    } else if src[i] == ')' {
        seq![Tok::Close] + lex_from(src, i + 1)
    } else {
        let j = atom_end(src, i);
        if i < j <= src.len() {
            seq![Tok::Atom(src.subrange(i, j))] + lex_from(src, j)
        } else {
            Seq::empty()
        }
    }
}

proof fn lemma_comment_end(src: Seq<char>, i: int)
    requires
        0 <= i,
    ensures
        i <= comment_end(src, i),
        comment_end(src, i) <= src.len() || comment_end(src, i) == i,
    decreases src.len() - i,
{
    if !(i >= src.len() || src[i] == '\n') {
        lemma_comment_end(src, i + 1);
    }
}

proof fn lemma_atom_end(src: Seq<char>, i: int)
    requires
        0 <= i,
    ensures
        i <= atom_end(src, i),
        atom_end(src, i) <= src.len() || atom_end(src, i) == i,
    decreases src.len() - i,
{
    if !(i >= src.len() || is_delim(src[i])) {
        lemma_atom_end(src, i + 1);
    }
}

/// Splits source text into parentheses and atoms, dropping blanks and `;` comments.
pub fn tokenize(src: &Vec<char>) -> (r: Vec<Token>)
    ensures
        forall|k: int| 0 <= k < r@.len() ==> atom_ok(#[trigger] r@[k]),
        toks_of(r@) == lex_from(src@, 0),
{
    let mut out: Vec<Token> = Vec::new();
    let mut i: usize = 0;
    assert(toks_of(out@) =~= Seq::<Tok>::empty());
    while i < src.len()
        invariant
            i <= src@.len(),
            forall|k: int| 0 <= k < out@.len() ==> atom_ok(#[trigger] out@[k]),
            toks_of(out@) + lex_from(src@, i as int) == lex_from(src@, 0),
        decreases src@.len() - i,
    {
        let ghost before = toks_of(out@);
        let ghost i0 = i as int;
        let c = src[i];
        if c == ' ' || c == '\t' || c == '\n' || c == '\r' {
            i = i + 1;
        } else if c == ';' {
            let ghost s0 = i;
            i = i + 1;
            while i < src.len() && src[i] != '\n'
                invariant
                    i <= src@.len(),
                    i > s0,
                    comment_end(src@, i as int) == comment_end(src@, s0 + 1),
                    forall|k: int| 0 <= k < out@.len() ==> atom_ok(#[trigger] out@[k]),
                decreases src@.len() - i,
            {
                i = i + 1;
            }
            assert(comment_end(src@, i as int) == i);
            proof {
                lemma_comment_end(src@, s0 + 1);
            }
        } else if c == '(' {
            out.push(Token::Open);
            i = i + 1;
            assert(toks_of(out@) =~= before.push(Tok::Open));
            assert(before + lex_from(src@, i0) =~= toks_of(out@) + lex_from(src@, i as int));
        } else if c == ')' {
            out.push(Token::Close);
            i = i + 1;
            assert(toks_of(out@) =~= before.push(Tok::Close));
            assert(before + lex_from(src@, i0) =~= toks_of(out@) + lex_from(src@, i as int));
        } else {
            let mut a: Vec<char> = Vec::new();
            let ghost start = i as int;
            while i < src.len() && !(src[i] == ' ' || src[i] == '\t' || src[i] == '\n' || src[i]
                == '\r' || src[i] == '(' || src[i] == ')' || src[i] == ';')
                invariant
                    i <= src@.len(),
                    forall|k: int| 0 <= k < a@.len() ==> !is_delim(#[trigger] a@[k]),
                    start <= i,
                    start < src@.len(),
                    a@.len() == i - start,
                    0 <= start <= i <= src@.len(),
                    a@ =~= src@.subrange(start, i as int),
                    atom_end(src@, i as int) == atom_end(src@, start),
                    !is_delim(src@[start]),
                    forall|k: int| 0 <= k < out@.len() ==> atom_ok(#[trigger] out@[k]),
                decreases src@.len() - i,
            {
                let ghost olda = a@;
                let ghost oi = i as int;
                let x = src[i];
                a.push(x);
                i = i + 1;
                proof {
                    let s1 = src@.subrange(start, oi);
                    let s2 = src@.subrange(start, oi + 1);
                    assert(olda =~= s1);
                    assert forall|k: int| 0 <= k < s2.len() implies s2[k] == s1.push(src@[oi])[k] by {
                        if k < s1.len() {
                            assert(s2[k] == src@[start + k]);
                            assert(s1[k] == src@[start + k]);
                        }
                    }
                    assert(s2 =~= s1.push(src@[oi]));
                    assert(a@ =~= olda.push(x));
                    assert(x == src@[oi]);
                }
            }
            assert(i > start);
            assert(atom_end(src@, i as int) == i);
            proof {
                lemma_atom_end(src@, start);
            }
            let ghost av = a@;
            out.push(Token::Atom(a));
            assert(toks_of(out@) =~= before.push(Tok::Atom(av)));
            assert(before + lex_from(src@, i0) =~= toks_of(out@) + lex_from(src@, i as int));
        }
    }
    assert(lex_from(src@, i as int) =~= Seq::<Tok>::empty());
    assert(toks_of(out@) + Seq::<Tok>::empty() =~= toks_of(out@));
    out
}

pub open spec fn decimal_value(s: Seq<char>) -> int
    decreases s.len(),
{
    if s.len() == 0 {
        0
    } else {
        decimal_value(s.drop_last()) * 10 + (s.last() as int - '0' as int)
    }
}

pub open spec fn is_digit(c: char) -> bool {
    '0' <= c <= '9'
}

/// Reads a decimal literal; `None` when it is not all digits or does not fit an `i32`.
pub fn parse_decimal(s: &Vec<char>) -> (r: Option<i32>)
    ensures
        r matches Some(v) ==> s@.len() > 0 && (forall|k: int| 0 <= k < s@.len() ==> is_digit(#[trigger] s@[k]))
            && v as int == decimal_value(s@),
        (s@.len() > 0 && (forall|k: int| 0 <= k < s@.len() ==> is_digit(#[trigger] s@[k])) && decimal_value(s@) <= i32::MAX) ==> r is Some,
{
    if s.len() == 0 {
        return None;
    }
    let mut acc: i64 = 0;
    let mut k: usize = 0;
    while k < s.len()
        invariant
            k <= s@.len(),
            0 <= acc <= i32::MAX,
            acc as int == decimal_value(s@.subrange(0, k as int)),
            forall|j: int| 0 <= j < k ==> is_digit(#[trigger] s@[j]),
        decreases s@.len() - k,
    {
        let c = s[k];
        if !('0' <= c && c <= '9') {
            return None;
        }
        let d = (c as u32 - '0' as u32) as i64;
        assert(s@.subrange(0, k + 1).drop_last() =~= s@.subrange(0, k as int));
        let next = acc * 10 + d;
        if next > i32::MAX as i64 {
            proof {
                lemma_decimal_grows(s@, (k + 1) as nat);
            }
            return None;
        }
        acc = next;
        k = k + 1;
    }
    assert(s@.subrange(0, s@.len() as int) =~= s@);
    Some(acc as i32)
}

/// A prefix of digits is worth no more than the whole.
pub proof fn lemma_decimal_grows(s: Seq<char>, k: nat)
    requires
        k <= s.len(),
        forall|j: int| 0 <= j < k ==> is_digit(#[trigger] s[j]),
    ensures
        (forall|j: int| 0 <= j < s.len() ==> is_digit(#[trigger] s[j])) ==> decimal_value(s.subrange(0, k as int)) <= decimal_value(s),
        decimal_value(s.subrange(0, k as int)) >= 0,
    decreases s.len() - k,
{
    lemma_decimal_nonneg(s.subrange(0, k as int));
    if k < s.len() && (forall|j: int| 0 <= j < s.len() ==> is_digit(#[trigger] s[j])) {
        lemma_decimal_grows(s, (k + 1) as nat);
        assert(s.subrange(0, k as int + 1).drop_last() =~= s.subrange(0, k as int));
    } else if k == s.len() {
        assert(s.subrange(0, k as int) =~= s);
    }
}

pub proof fn lemma_decimal_nonneg(s: Seq<char>)
    requires
        forall|j: int| 0 <= j < s.len() ==> is_digit(#[trigger] s[j]),
    ensures
        decimal_value(s) >= 0,
    decreases s.len(),
{
    if s.len() > 0 {
        lemma_decimal_nonneg(s.drop_last());
        assert(is_digit(s[s.len() - 1]));
    }
}

/// The head of a form opens a definition context for its arguments.
pub open spec fn opens_definition(status: VerbStatus) -> bool {
    status == VerbStatus::Builtin(Builtin::Defun) || status == VerbStatus::Builtin(Builtin::Defalias)
        || status == VerbStatus::Builtin(Builtin::Defunalias)
}

/// The statuses of a parsed node: symbols are functional exactly inside a definition, heads are
/// built-in exactly when their name is one, and no `Ignore` node is kept.
pub open spec fn well_parsed(n: AstNode, in_def: bool) -> bool
    decreases n, 0nat,
{
    match n {
        AstNode::Ignore => false,
        AstNode::Value(_) => true,
        AstNode::Symbol { name, status } => status == if in_def {
            SymbolStatus::Functional
        } else {
            SymbolStatus::Resolved
        },
        AstNode::Funcall { verb, args } => {
            &&& verb.status == match builtin_of(verb.name@) {
                Some(b) => VerbStatus::Builtin(b),
                None => VerbStatus::Defined,
            }
            &&& all_well_parsed(args, args@.len(), in_def || opens_definition(verb.status))
        },
    }
}

pub open spec fn all_well_parsed(args: Vec<AstNode>, k: nat, in_def: bool) -> bool
    decreases args, k,
{
    if k == 0 || k > args@.len() {
        true
    } else {
        all_well_parsed(args, (k - 1) as nat, in_def) && well_parsed(args@[k - 1], in_def)
    }
}

proof fn lemma_all_well_parsed_push(before: Vec<AstNode>, after: Vec<AstNode>, n: AstNode, in_def: bool)
    requires
        all_well_parsed(before, before@.len(), in_def),
        well_parsed(n, in_def),
        after@ == before@.push(n),
    ensures
        all_well_parsed(after, after@.len(), in_def),
{
    lemma_all_well_parsed_same(before, after, before@.len(), in_def);
}

proof fn lemma_all_well_parsed_same(a: Vec<AstNode>, b: Vec<AstNode>, k: nat, in_def: bool)
    requires
        k <= a@.len(),
        k <= b@.len(),
        forall|j: int| 0 <= j < k ==> a@[j] == b@[j],
    ensures
        all_well_parsed(a, k, in_def) == all_well_parsed(b, k, in_def),
    decreases k,
{
    if k > 0 {
        lemma_all_well_parsed_same(a, b, (k - 1) as nat, in_def);
    }
}

/// An atom is acceptable: one that starts with a digit is a decimal that fits an `i32`.
pub open spec fn atom_acceptable(a: Seq<char>) -> bool {
    a.len() > 0 && is_digit(a[0]) ==> (forall|k: int| 0 <= k < a.len() ==> is_digit(#[trigger] a[k]))
        && decimal_value(a) <= i32::MAX
}

/// Where an expression that starts at token `pos` ends: an acceptable atom, or `(` and an atom
/// head followed by expressions up to `)`. `None` when no expression starts there.
pub open spec fn expr_end(toks: Seq<Tok>, pos: int) -> Option<int>
    decreases toks.len() - pos, 0int,
{
    if pos < 0 || pos >= toks.len() {
        None
    } else {
        match toks[pos] {
            Tok::Close => None,
            Tok::Atom(a) => if atom_acceptable(a) {
                Some(pos + 1)
            } else {
                None
            },
            Tok::Open => if pos + 1 < toks.len() && toks[pos + 1] is Atom {
                args_end(toks, pos + 2)
            } else {
                None
            },
        }
    }
}

/// Where a run of expressions that starts at token `p` and is closed by `)` ends, past the `)`.
pub open spec fn args_end(toks: Seq<Tok>, p: int) -> Option<int>
    decreases toks.len() - p, 1int,
{
    if p < 0 || p >= toks.len() {
        None
    } else if toks[p] is Close {
        Some(p + 1)
    } else {
        match expr_end(toks, p) {
            Some(q) => if p < q <= toks.len() {
                args_end(toks, q)
            } else {
                None
            },
            None => None,
        }
    }
}

/// The tokens from `p` on are a sequence of whole expressions.
pub open spec fn forms_from(toks: Seq<Tok>, p: int) -> bool
    decreases toks.len() - p,
{
    if p < 0 || p >= toks.len() {
        p == toks.len()
    } else {
        match expr_end(toks, p) {
            Some(q) => p < q <= toks.len() && forms_from(toks, q),
            None => false,
        }
    }
}

/// A parsed node as a mathematical value.
pub ghost enum PNode {
    Value(i32),
    Sym(Seq<char>, SymbolStatus),
    Call(Seq<char>, VerbStatus, Seq<PNode>),
    Nothing,
}

pub open spec fn node_view(n: AstNode) -> PNode
    decreases n, 0nat,
{
    match n {
        AstNode::Ignore => PNode::Nothing,
        AstNode::Value(v) => PNode::Value(v),
        AstNode::Symbol { name, status } => PNode::Sym(name@, status),
        AstNode::Funcall { verb, args } => PNode::Call(verb.name@, verb.status, node_views(args, args@.len())),
    }
}

/// The trees of a sequence of nodes.
pub open spec fn trees_of(ast: Seq<AstNode>) -> Seq<PNode> {
    ast.map_values(|n: AstNode| node_view(n))
}

pub open spec fn node_views(args: Vec<AstNode>, k: nat) -> Seq<PNode>
    decreases args, k,
{
    if k == 0 || k > args@.len() {
        Seq::empty()
    } else {
        node_views(args, (k - 1) as nat).push(node_view(args@[k - 1]))
    }
}

pub proof fn lemma_node_views_push(before: Vec<AstNode>, after: Vec<AstNode>, n: AstNode)
    requires
        after@ == before@.push(n),
    ensures
        node_views(after, after@.len()) == node_views(before, before@.len()).push(node_view(n)),
{
    lemma_node_views_same(before, after, before@.len());
}

pub proof fn lemma_node_views_same(a: Vec<AstNode>, b: Vec<AstNode>, k: nat)
    requires
        k <= a@.len(),
        k <= b@.len(),
        forall|j: int| 0 <= j < k ==> a@[j] == b@[j],
    ensures
        node_views(a, k) == node_views(b, k),
    decreases k,
{
    if k > 0 {
        lemma_node_views_same(a, b, (k - 1) as nat);
    }
}

/// The tree of the expression that starts at token `pos`: a decimal atom is a value, another
/// atom a symbol (functional inside a definition), and a form its head with its arguments.
pub open spec fn expr_tree(toks: Seq<Tok>, pos: int, in_def: bool) -> Option<PNode>
    decreases toks.len() - pos, 0int,
{
    if pos < 0 || pos >= toks.len() {
        None
    } else {
        match toks[pos] {
            Tok::Close => None,
            Tok::Atom(a) => if !atom_acceptable(a) {
                None
            } else if a.len() > 0 && is_digit(a[0]) {
                Some(PNode::Value(decimal_value(a) as i32))
            } else {
                Some(PNode::Sym(a, if in_def { SymbolStatus::Functional } else { SymbolStatus::Resolved }))
            },
            Tok::Open => if pos + 1 < toks.len() && toks[pos + 1] is Atom {
                let h = toks[pos + 1]->Atom_0;
                let status = match builtin_of(h) {
                    Some(b) => VerbStatus::Builtin(b),
                    None => VerbStatus::Defined,
                };
                match args_trees(toks, pos + 2, in_def || opens_definition(status)) {
                    Some(ts) => Some(PNode::Call(h, status, ts)),
                    None => None,
                }
            } else {
                None
            },
        }
    }
}

/// The trees of the arguments from token `p` up to the closing `)`.
pub open spec fn args_trees(toks: Seq<Tok>, p: int, in_def: bool) -> Option<Seq<PNode>>
    decreases toks.len() - p, 1int,
{
    if p < 0 || p >= toks.len() {
        None
    } else if toks[p] is Close {
        Some(Seq::empty())
    } else {
        match (expr_tree(toks, p, in_def), expr_end(toks, p)) {
            (Some(t), Some(q)) => if p < q <= toks.len() {
                match args_trees(toks, q, in_def) {
                    Some(rest) => Some(seq![t] + rest),
                    None => None,
                }
            } else {
                None
            },
            _ => None,
        }
    }
}

/// The trees of the whole expressions from token `p` on.
pub open spec fn forms_trees(toks: Seq<Tok>, p: int) -> Seq<PNode>
    decreases toks.len() - p,
{
    if p < 0 || p >= toks.len() {
        Seq::empty()
    } else {
        match (expr_tree(toks, p, false), expr_end(toks, p)) {
            (Some(t), Some(q)) => if p < q <= toks.len() {
                seq![t] + forms_trees(toks, q)
            } else {
                Seq::empty()
            },
            _ => Seq::empty(),
        }
    }
}

/// Parses one expression starting at token `pos`; returns it with the position after it.
/// Symbols inside a `defun`, `defalias` or `defunalias` form are marked functional.
fn parse_node(toks: &Vec<Token>, pos: usize, in_def: bool) -> (r: Result<(AstNode, usize), CompileError>)
    requires
        pos <= toks@.len(),
    ensures
        r matches Ok((_, p)) ==> pos < p <= toks@.len(),
        r matches Ok((n, _)) ==> well_parsed(n, in_def),
        r matches Err(e) ==> e == CompileError::Parse,
        r is Ok <==> expr_end(toks_of(toks@), pos as int) is Some,
        r matches Ok((_, p)) ==> expr_end(toks_of(toks@), pos as int) == Some(p as int),
        r matches Ok((n, _)) ==> expr_tree(toks_of(toks@), pos as int, in_def) == Some(node_view(n)),
        r is Err ==> expr_tree(toks_of(toks@), pos as int, in_def) is None || expr_end(toks_of(toks@), pos as int) is None,
    decreases toks@.len() - pos,
{
    if pos >= toks.len() {
        return Err(CompileError::Parse);
    }
    assert(toks_of(toks@)[pos as int] == tok_of(toks@[pos as int]));
    match &toks[pos] {
        Token::Close => Err(CompileError::Parse),
        Token::Atom(a) => {
            if a.len() > 0 && '0' <= a[0] && a[0] <= '9' {
                match parse_decimal(a) {
                    Some(v) => Ok((AstNode::Value(v), pos + 1)),
                    None => Err(CompileError::Parse),
                }
            } else {
                let status = if in_def {
                    SymbolStatus::Functional
                } else {
                    SymbolStatus::Resolved
                };
                Ok((AstNode::Symbol { name: string_of(a), status }, pos + 1))
            }
        },
        Token::Open => {
            if pos + 1 >= toks.len() {
                return Err(CompileError::Parse);
            }
            assert(toks_of(toks@)[pos as int] == tok_of(toks@[pos as int]));
            assert(toks_of(toks@)[pos + 1] == tok_of(toks@[pos + 1]));
            let verb_name = match &toks[pos + 1] {
                Token::Atom(a) => a,
                _ => {
                    return Err(CompileError::Parse);
                },
            };
            let status = match lookup_builtin(verb_name) {
                Some(b) => VerbStatus::Builtin(b),
                None => VerbStatus::Defined,
            };
            let inner = in_def || status == VerbStatus::Builtin(Builtin::Defun) || status
                == VerbStatus::Builtin(Builtin::Defalias) || status == VerbStatus::Builtin(
                Builtin::Defunalias,
            );
            let verb = Verb { name: string_of(verb_name), status };
            let mut args: Vec<AstNode> = Vec::new();
            let mut p: usize = pos + 2;
            assert(toks_of(toks@)[pos as int] == tok_of(toks@[pos as int]));
            assert(toks_of(toks@)[pos + 1] == tok_of(toks@[pos + 1]));
            while p < toks.len()
                invariant
                    pos + 2 <= p <= toks@.len(),
                    inner == (in_def || opens_definition(verb.status)),
                    verb.status == match builtin_of(verb.name@) {
                        Some(b) => VerbStatus::Builtin(b),
                        None => VerbStatus::Defined,
                    },
                    all_well_parsed(args, args@.len(), inner),
                    expr_end(toks_of(toks@), pos as int) == args_end(toks_of(toks@), p as int),
                    expr_tree(toks_of(toks@), pos as int, in_def) == match args_trees(toks_of(toks@), p as int, inner) {
                        Some(rest) => Some(PNode::Call(verb.name@, verb.status, node_views(args, args@.len()) + rest)),
                        None => None::<PNode>,
                    },
                decreases toks@.len() - p,
            {
                assert(toks_of(toks@)[p as int] == tok_of(toks@[p as int]));
                if let Token::Close = &toks[p] {
                    return Ok((AstNode::Funcall { verb, args }, p + 1));
                }
                match parse_node(toks, p, inner) {
                    Ok((n, q)) => {
                        let ghost before = args;
                        match n {
                            AstNode::Ignore => {},
                            _ => {
                                args.push(n);
                                proof {
                                    lemma_all_well_parsed_push(before, args, n, inner);
                                    lemma_node_views_push(before, args, n);
                                    let vb = node_views(before, before@.len());
                                    match args_trees(toks_of(toks@), q as int, inner) {
                                        Some(rest) => {
                                            assert(vb + (seq![node_view(n)] + rest) =~= vb.push(node_view(n)) + rest);
                                        },
                                        None => {},
                                    }
                                }
                            },
                        }
                        p = q;
                    },
                    Err(e) => {
                        return Err(e);
                    },
                }
            }
            Err(CompileError::Parse)
        },
    }
}

/// Parses source text into its top-level forms.
pub fn parse(source: &str) -> (r: Result<Vec<AstNode>, CompileError>)
    ensures
        r matches Err(e) ==> e == CompileError::Parse,
        r matches Ok(v) ==> forall|k: int| 0 <= k < v@.len() ==> well_parsed(#[trigger] v@[k], false),
        r is Ok <==> forms_from(lex_from(source@, 0), 0),
        r matches Ok(v) ==> v@.map_values(|n: AstNode| node_view(n)) == forms_trees(lex_from(source@, 0), 0),
{
    let chars = chars_of(source);
    let toks = tokenize(&chars);
    let mut out: Vec<AstNode> = Vec::new();
    let mut p: usize = 0;
    assert(toks_of(toks@).len() == toks@.len());
    assert(out@.map_values(|n: AstNode| node_view(n)) + forms_trees(toks_of(toks@), 0) =~= forms_trees(toks_of(toks@), 0));
    while p < toks.len()
        invariant
            p <= toks@.len(),
            toks_of(toks@) == lex_from(source@, 0),
            toks_of(toks@).len() == toks@.len(),
            forms_from(lex_from(source@, 0), 0) == forms_from(toks_of(toks@), p as int),
            forall|k: int| 0 <= k < out@.len() ==> well_parsed(#[trigger] out@[k], false),
            forms_trees(toks_of(toks@), 0) == out@.map_values(|n: AstNode| node_view(n)) + forms_trees(
                toks_of(toks@),
                p as int,
            ),
        decreases toks@.len() - p,
    {
        match parse_node(&toks, p, false) {
            Ok((n, q)) => {
                let ghost before = out@;
                out.push(n);
                proof {
                    let f = |n: AstNode| node_view(n);
                    assert(out@.map_values(f) =~= before.map_values(f).push(node_view(n)));
                    assert(before.map_values(f) + (seq![node_view(n)] + forms_trees(toks_of(toks@), q as int))
                        =~= before.map_values(f).push(node_view(n)) + forms_trees(toks_of(toks@), q as int));
                }
                p = q;
            },
            Err(e) => {
                return Err(e);
            },
        }
    }
    assert(out@.map_values(|n: AstNode| node_view(n)) + forms_trees(toks_of(toks@), p as int) =~= out@.map_values(|n: AstNode| node_view(n)));
    Ok(out)
}

} // verus!
