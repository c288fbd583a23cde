//! Semantic analysis: columns, functions and aliases, then lowering with inlining.
use crate::names::{position_of, resolves_to, CompileError, Names};
use crate::parser::{parse, AstNode, Builtin, Constraint, ConstraintsSet, SymbolStatus, Verb, VerbStatus};
use vstd::prelude::*;

verus! {

/// A user-defined function: its formal parameters and its body.
#[derive(Debug)]
pub struct Function {
    pub name: String,
    pub args: Vec<String>,
    pub body: AstNode,
}

/// Columns and their aliases; functions and their aliases.
#[derive(Debug)]
pub struct SymbolsTable {
    pub symbols: Names,
    pub funcs: Names,
    /// For each entry of `funcs`, its definition when it is final.
    pub defs: Vec<Option<Function>>,
}

/// A copy of a syntax tree.
pub fn copy_ast(n: &AstNode) -> (r: AstNode)
    ensures
        crate::parser::node_view(r) == crate::parser::node_view(*n),
    decreases n,
{
    match n {
        AstNode::Ignore => AstNode::Ignore,
        AstNode::Value(v) => AstNode::Value(*v),
        AstNode::Symbol { name, status } => AstNode::Symbol { name: name.clone(), status: *status },
        AstNode::Funcall { verb, args } => {
            let mut out: Vec<AstNode> = Vec::new();
            let mut k: usize = 0;
            while k < args.len()
                invariant
                    k <= args@.len(),
                    out@.len() == k,
                    decreases_to!(*n => *args),
                    crate::parser::node_views(out, k as nat) == crate::parser::node_views(*args, k as nat),
                decreases args@.len() - k,
            {
                let x = copy_ast(&args[k]);
                let ghost before = out;
                out.push(x);
                proof {
                    crate::parser::lemma_node_views_same(before, out, k as nat);
                }
                k = k + 1;
            }
            AstNode::Funcall { verb: Verb { name: verb.name.clone(), status: verb.status }, args: out }
        },
    }
}

/// A compiled expression as a mathematical term.
pub ghost enum Term {
    Call(Builtin, Seq<Term>),
    Const(i32),
    Col(Seq<char>),
}

/// The term that a compiled expression stands for.
pub open spec fn term_of(c: Constraint) -> Term
    decreases c, 0nat,
{
    match c {
        Constraint::Funcall { func, args } => Term::Call(func, terms_of(args, args@.len())),
        Constraint::Const(v) => Term::Const(v),
        Constraint::Column(s) => Term::Col(s@),
    }
}

/// The terms of the first `k` expressions.
pub open spec fn terms_of(args: Vec<Constraint>, k: nat) -> Seq<Term>
    decreases args, k,
{
    if k == 0 || k > args@.len() {
        Seq::empty()
    } else {
        terms_of(args, (k - 1) as nat).push(term_of(args@[k - 1]))
    }
}

/// The terms of all expressions of `v`.
pub open spec fn terms_seq(v: Seq<Constraint>) -> Seq<Term> {
    v.map_values(|c: Constraint| term_of(c))
}

proof fn lemma_terms_of(args: Vec<Constraint>, k: nat)
    requires
        k <= args@.len(),
    ensures
        terms_of(args, k) == terms_seq(args@.subrange(0, k as int)),
    decreases k,
{
    if k > 0 {
        lemma_terms_of(args, (k - 1) as nat);
        assert(terms_seq(args@.subrange(0, k as int)) =~= terms_seq(args@.subrange(0, k - 1)).push(
            term_of(args@[k - 1]),
        ));
    } else {
        assert(terms_seq(args@.subrange(0, 0)) =~= Seq::<Term>::empty());
    }
}

/// A copy of a compiled expression.
pub fn copy_constraint(c: &Constraint) -> (r: Constraint)
    ensures
        term_of(r) == term_of(*c),
    decreases c,
{
    match c {
        Constraint::Const(v) => Constraint::Const(*v),
        Constraint::Column(s) => Constraint::Column(s.clone()),
        Constraint::Funcall { func, args } => {
            let mut out: Vec<Constraint> = Vec::new();
            let mut k: usize = 0;
            while k < args.len()
                invariant
                    k <= args@.len(),
                    out@.len() == k,
                    decreases_to!(*c => *args),
                    terms_seq(out@) == terms_seq(args@.subrange(0, k as int)),
                decreases args@.len() - k,
            {
                let x = copy_constraint(&args[k]);
                let ghost before = out@;
                out.push(x);
                proof {
                    assert(terms_seq(out@) =~= terms_seq(before).push(term_of(x)));
                    assert(terms_seq(args@.subrange(0, k + 1)) =~= terms_seq(args@.subrange(0, k as int)).push(
                        term_of(args@[k as int]),
                    ));
                }
                k = k + 1;
            }
            proof {
                lemma_terms_of(out, out@.len());
                lemma_terms_of(*args, args@.len());
                assert(out@.subrange(0, out@.len() as int) =~= out@);
                assert(args@.subrange(0, args@.len() as int) =~= args@);
            }
            Constraint::Funcall { func: *func, args: out }
        },
    }
}

impl SymbolsTable {
    pub open spec fn wf(&self) -> bool {
        &&& self.symbols.wf()
        &&& self.funcs.wf()
        &&& self.defs@.len() == self.funcs.keys@.len()
        &&& forall|j: int|
            0 <= j < self.defs@.len() ==> ((#[trigger] self.defs@[j]) is Some <==> self.funcs.targets@[j] is None)
    }

    pub fn new() -> (r: SymbolsTable)
        ensures
            r.wf(),
            r.symbols.keys@.len() == 0,
            r.funcs.keys@.len() == 0,
    {
        SymbolsTable { symbols: Names::new(), funcs: Names::new(), defs: Vec::new() }
    }

    /// Declares a column.
    pub fn insert_symbol(&mut self, symbol: &String) -> (r: Result<(), CompileError>)
        requires
            old(self).wf(),
        ensures
            final(self).wf(),
            r is Ok <==> !old(self).symbols.has(symbol@),
            r matches Err(e) ==> e is Redefinition,
            final(self).symbols.has(symbol@),
            forall|n: Seq<char>| old(self).symbols.has(n) ==> #[trigger] final(self).symbols.has(n),
            final(self).funcs == old(self).funcs,
            r is Ok ==> final(self).symbols.entry(symbol@) == Some(None::<Seq<char>>),
            r is Err ==> *final(self) == *old(self),
            forall|n: Seq<char>| n != symbol@ ==> #[trigger] final(self).symbols.entry(n) == old(self).symbols.entry(n),
            final(self).defs == old(self).defs,
    {
        let r = self.symbols.insert(symbol, None);
        proof {
            if r is Ok {
                self.lemma_fresh_entry(symbol@, None);
            }
        }
        r
    }

    /// Declares `from` as another name of the column `to`.
    pub fn insert_alias(&mut self, from: &String, to: &String) -> (r: Result<(), CompileError>)
        requires
            old(self).wf(),
        ensures
            final(self).wf(),
            r is Ok <==> !old(self).symbols.has(from@),
            r matches Err(e) ==> e is Redefinition,
            final(self).symbols.has(from@),
            forall|n: Seq<char>| old(self).symbols.has(n) ==> #[trigger] final(self).symbols.has(n),
            final(self).funcs == old(self).funcs,
            r is Ok ==> final(self).symbols.entry(from@) == Some(Some(to@)),
            r is Err ==> *final(self) == *old(self),
            forall|n: Seq<char>| n != from@ ==> #[trigger] final(self).symbols.entry(n) == old(self).symbols.entry(n),
            final(self).defs == old(self).defs,
    {
        let r = self.symbols.insert(from, Some(to.clone()));
        proof {
            if r is Ok {
                self.lemma_fresh_entry(from@, Some(*to));
            }
        }
        r
    }

    /// Declares `from` as another name of the function `to`.
    pub fn insert_funalias(&mut self, from: &String, to: &String) -> (r: Result<(), CompileError>)
        requires
            old(self).wf(),
        ensures
            final(self).wf(),
            r is Ok <==> !old(self).funcs.has(from@),
            r matches Err(e) ==> e is Redefinition,
            final(self).funcs.has(from@),
            forall|n: Seq<char>| old(self).funcs.has(n) ==> #[trigger] final(self).funcs.has(n),
            final(self).symbols == old(self).symbols,
            r is Ok ==> final(self).funcs.entry(from@) == Some(Some(to@)),
            r is Err ==> *final(self) == *old(self),
            r is Ok ==> final(self).defs@ == old(self).defs@.push(None),
            r is Ok ==> final(self).funcs.keys@ == old(self).funcs.keys@.push(*from) && final(self).funcs.targets@
                == old(self).funcs.targets@.push(Some(*to)),
            forall|n: Seq<char>| n != from@ ==> #[trigger] final(self).funcs.entry(n) == old(self).funcs.entry(n),
    {
        let r = self.funcs.insert(from, Some(to.clone()));
        if r.is_ok() {
            self.defs.push(None);
            proof {
                lemma_last_entry(self.funcs, from@, Some(*to));
            }
        }
        r
    }

    /// Defines a function.
    pub fn insert_function(&mut self, f: Function) -> (r: Result<(), CompileError>)
        requires
            old(self).wf(),
        ensures
            final(self).wf(),
            r is Ok <==> !old(self).funcs.has(f.name@),
            r matches Err(e) ==> e is Redefinition,
            final(self).funcs.has(f.name@),
            forall|n: Seq<char>| old(self).funcs.has(n) ==> #[trigger] final(self).funcs.has(n),
            final(self).symbols == old(self).symbols,
            r is Ok ==> final(self).funcs.entry(f.name@) == Some(None::<Seq<char>>),
            r is Err ==> *final(self) == *old(self),
            r is Ok ==> final(self).defs@ == old(self).defs@.push(Some(f)),
            r is Ok ==> final(self).funcs.keys@ == old(self).funcs.keys@.push(f.name) && final(self).funcs.targets@
                == old(self).funcs.targets@.push(None),
            forall|n: Seq<char>| n != f.name@ ==> #[trigger] final(self).funcs.entry(n) == old(self).funcs.entry(n),
    {
        let name = f.name.clone();
        let r = self.funcs.insert(&name, None);
        if r.is_ok() {
            self.defs.push(Some(f));
            proof {
                lemma_last_entry(self.funcs, name@, None);
            }
        }
        r
    }

    proof fn lemma_fresh_entry(&self, name: Seq<char>, t: Option<String>)
        requires
            self.symbols.wf(),
            self.symbols.keys@.len() > 0,
            self.symbols.keys@.last()@ == name,
            self.symbols.targets@.last() == t,
        ensures
            self.symbols.entry(name) == match t {
                Some(s) => Some(Some(s@)),
                None => Some(None::<Seq<char>>),
            },
    {
        lemma_last_entry(self.symbols, name, t);
    }

    /// The column that `name` finally stands for, following aliases.
    pub fn resolve_symbol(&self, name: &String) -> (r: Result<String, CompileError>)
        requires
            self.wf(),
        ensures
            match r {
                Ok(s) => exists|j: usize| resolves_to(self.symbols, name@, Ok(j)) && #[trigger] self.symbols.keys@[j as int]@ == s@,
                Err(e) => resolves_to(self.symbols, name@, Err(e)),
            },
            r matches Ok(s) ==> sym_resolved(*self, name@) == Some(s@),
            r is Err ==> sym_resolved(*self, name@) is None,
    {
        match self.symbols.resolve(name) {
            Ok(j) => Ok(self.symbols.keys[j].clone()),
            Err(e) => Err(e),
        }
    }

    /// The function that `name` finally stands for, following aliases.
    pub fn resolve_function(&self, name: &String) -> (r: Result<&Function, CompileError>)
        requires
            self.wf(),
        ensures
            match r {
                Ok(f) => exists|j: usize| resolves_to(self.funcs, name@, Ok(j)) && #[trigger] self.defs@[j as int] == Some(*f),
                Err(e) => resolves_to(self.funcs, name@, Err(e)),
            },
            r matches Ok(f) ==> fn_resolved(*self, name@) == Some(*f),
            r is Err ==> fn_resolved(*self, name@) is None,
    {
        match self.funcs.resolve(name) {
            Ok(j) => {
                match &self.defs[j] {
                    Some(f) => Ok(f),
                    None => Err(CompileError::InvalidDecl),
                }
            },
            Err(e) => Err(e),
        }
    }
}

/// The last binding of a table is the one its name finds.
pub proof fn lemma_last_entry(t: Names, name: Seq<char>, target: Option<String>)
    requires
        t.wf(),
        t.keys@.len() > 0,
        t.keys@.last()@ == name,
        t.targets@.last() == target,
    ensures
        t.entry(name) == match target {
            Some(s) => Some(Some(s@)),
            None => Some(None::<Seq<char>>),
        },
{
    let last = t.keys@.len() - 1;
    assert(t.keys@[last]@ == name);
    assert(t.has(name));
    let c = choose|j: int| 0 <= j < t.keys@.len() && (#[trigger] t.keys@[j])@ == name;
    if c != last {
        assert(t.keys@[c]@ != t.keys@[last]@);
    }
}

/// The name at argument `i` of form `q`, when that form is a `defcolumns` with such an
/// argument and the argument is a symbol.
pub open spec fn col_at(ast: Seq<AstNode>, q: int, i: int) -> Option<Seq<char>> {
    match form_args(ast[q], Builtin::Defcolumns) {
        Some(a) => if 0 <= i < a.len() {
            symbol_name(a[i])
        } else {
            None
        },
        None => None,
    }
}

/// Form `q` is a `defcolumns` with an argument `i`.
pub open spec fn in_col_form(ast: Seq<AstNode>, q: int, i: int) -> bool {
    form_args(ast[q], Builtin::Defcolumns) matches Some(a) && 0 <= i < a.len()
}

/// Argument `(q, i)` comes before `(k, j)` in source order.
pub open spec fn pos_before(q: int, i: int, k: int, j: int) -> bool {
    q < k || (q == k && i < j)
}

/// Up to argument `(k, j)`, every `defcolumns` argument is a symbol naming a column not in
/// `old`, and no two name the same column.
pub open spec fn cols_upto(ast: Seq<AstNode>, old: Set<Seq<char>>, k: int, j: int) -> bool {
    &&& forall|q: int, i: int|
        0 <= q < ast.len() && pos_before(q, i, k, j) && #[trigger] in_col_form(ast, q, i) ==> col_at(ast, q, i) is Some
            && !old.contains(col_at(ast, q, i)->Some_0)
    &&& forall|q1: int, i1: int, q2: int, i2: int|
        0 <= q1 < ast.len() && 0 <= q2 < ast.len() && pos_before(q1, i1, q2, i2) && pos_before(q2, i2, k, j)
            && #[trigger] in_col_form(ast, q1, i1) && #[trigger] in_col_form(ast, q2, i2) ==> col_at(ast, q1, i1)
            != col_at(ast, q2, i2)
}

/// Pass one: declares the columns of every `defcolumns` form.
pub fn register_columns(ast: &Vec<AstNode>, table: &mut SymbolsTable) -> (r: Result<(), CompileError>)
    requires
        old(table).wf(),
    ensures
        final(table).wf(),
        r matches Err(e) ==> e is InvalidDecl || e is Redefinition,
        r is Ok ==> forall|k: int, name: Seq<char>|
            0 <= k < ast@.len() && #[trigger] declares_column(ast@[k], name) ==> final(table).symbols.entry(name)
                == Some(None::<Seq<char>>),
        final(table).funcs == old(table).funcs,
        final(table).defs == old(table).defs,
        r is Ok ==> forall|n: Seq<char>| #[trigger] final(table).symbols.has(n) ==> old(table).symbols.has(n) || exists|k: int|
            0 <= k < ast@.len() && #[trigger] declares_column(ast@[k], n),
        r is Ok <==> cols_upto(ast@, old(table).symbols.key_set(), ast@.len() as int, 0),
{
    let mut k: usize = 0;
    while k < ast.len()
        invariant
            table.wf(),
            forall|q: int, name: Seq<char>|
                0 <= q < k && #[trigger] declares_column(ast@[q], name) ==> table.symbols.entry(name) == Some(None::<Seq<char>>),
            table.funcs == old(table).funcs,
            table.defs == old(table).defs,
            k <= ast@.len(),
            forall|n: Seq<char>| #[trigger] table.symbols.has(n) ==> old(table).symbols.has(n) || exists|q: int|
                0 <= q < k && #[trigger] declares_column(ast@[q], n),
            cols_upto(ast@, old(table).symbols.key_set(), k as int, 0),
            forall|n: Seq<char>| old(table).symbols.has(n) ==> #[trigger] table.symbols.has(n),
        decreases ast@.len() - k,
    {
        if let AstNode::Funcall { verb, args } = &ast[k] {
            if verb.status == VerbStatus::Builtin(Builtin::Defcolumns) {
                let mut j: usize = 0;
                while j < args.len()
                    invariant
                        table.wf(),
                        forall|q: int, name: Seq<char>|
                            0 <= q < k && #[trigger] declares_column(ast@[q], name) ==> table.symbols.entry(name) == Some(None::<Seq<char>>),
                        table.funcs == old(table).funcs,
                        table.defs == old(table).defs,
                        j <= args@.len(),
                        k < ast@.len(),
                        ast@[k as int] == (AstNode::Funcall { verb: *verb, args: *args }),
                        verb.status == VerbStatus::Builtin(Builtin::Defcolumns),
                        forall|n: Seq<char>| #[trigger] table.symbols.has(n) ==> old(table).symbols.has(n) || (exists|q: int|
                            0 <= q < k && #[trigger] declares_column(ast@[q], n)) || (exists|i: int|
                            0 <= i < j && #[trigger] symbol_name(args@[i]) == Some(n)),
                        cols_upto(ast@, old(table).symbols.key_set(), k as int, j as int),
                        form_args(ast@[k as int], Builtin::Defcolumns) == Some(args@),
                        forall|n: Seq<char>| old(table).symbols.has(n) ==> #[trigger] table.symbols.has(n),
                        forall|i: int| 0 <= i < j ==> (#[trigger] symbol_name(args@[i])) is Some,
                        forall|i: int| 0 <= i < j ==> table.symbols.entry((#[trigger] symbol_name(args@[i]))->Some_0) == Some(None::<Seq<char>>),
                    decreases args@.len() - j,
                {
                    match &args[j] {
                        AstNode::Symbol { name, .. } => {
                            let ghost before = *table;
                            assert(col_at(ast@, k as int, j as int) == Some(name@));
                            assert(in_col_form(ast@, k as int, j as int));
                            let r = table.insert_symbol(name);
                            if r.is_err() {
                                proof {
                                    assert(before.symbols.has(name@));
                                    if !old(table).symbols.has(name@) {
                                        if exists|q: int| 0 <= q < k && #[trigger] declares_column(ast@[q], name@) {
                                            let q = choose|q: int| 0 <= q < k && #[trigger] declares_column(ast@[q], name@);
                                            let a = form_args(ast@[q], Builtin::Defcolumns)->Some_0;
                                            let i = choose|i: int| 0 <= i < a.len() && #[trigger] symbol_name(a[i]) == Some(name@);
                                            assert(in_col_form(ast@, q, i));
                                            assert(col_at(ast@, q, i) == Some(name@));
                                        } else {
                                            let i = choose|i: int| 0 <= i < j && #[trigger] symbol_name(args@[i]) == Some(name@);
                                            assert(in_col_form(ast@, k as int, i));
                                            assert(col_at(ast@, k as int, i) == Some(name@));
                                        }
                                    }
                                    assert(!cols_upto(ast@, old(table).symbols.key_set(), ast@.len() as int, 0));
                                }
                                return r;
                            }
                            proof {
                                assert forall|q1: int, i1: int|
                                    0 <= q1 < ast@.len() && pos_before(q1, i1, k as int, j as int) && #[trigger] in_col_form(ast@, q1, i1)
                                        implies col_at(ast@, q1, i1) != Some(name@) by {
                                    let n1 = col_at(ast@, q1, i1)->Some_0;
                                    if q1 < k {
                                        let a = form_args(ast@[q1], Builtin::Defcolumns)->Some_0;
                                        assert(symbol_name(a[i1]) == Some(n1));
                                        assert(declares_column(ast@[q1], n1));
                                        assert(before.symbols.entry(n1) == Some(None::<Seq<char>>));
                                    } else {
                                        assert(symbol_name(args@[i1]) == Some(n1));
                                        assert(before.symbols.entry(n1) == Some(None::<Seq<char>>));
                                    }
                                }
                                assert(!old(table).symbols.has(name@));
                                assert(cols_upto(ast@, old(table).symbols.key_set(), k as int, j + 1));
                                assert forall|q: int, nm: Seq<char>|
                                    0 <= q < k && #[trigger] declares_column(ast@[q], nm) implies table.symbols.entry(nm)
                                        == Some(None::<Seq<char>>) by {
                                    if nm == name@ {
                                        assert(before.symbols.entry(nm) == Some(None::<Seq<char>>));
                                        assert(before.symbols.has(nm));
                                    }
                                }
                                assert(symbol_name(args@[j as int]) == Some(name@));
                                assert forall|n: Seq<char>| #[trigger] table.symbols.has(n) implies old(table).symbols.has(n) || (exists|q: int|
                                    0 <= q < k && #[trigger] declares_column(ast@[q], n)) || (exists|i: int|
                                    0 <= i < j + 1 && #[trigger] symbol_name(args@[i]) == Some(n)) by {
                                    if n != name@ {
                                        assert(table.symbols.entry(n) == before.symbols.entry(n));
                                        assert(before.symbols.has(n));
                                    }
                                }
                                assert forall|i: int| 0 <= i < j + 1 implies table.symbols.entry(
                                    (#[trigger] symbol_name(args@[i]))->Some_0,
                                ) == Some(None::<Seq<char>>) by {
                                    if i < j && symbol_name(args@[i])->Some_0 == name@ {
                                        assert(before.symbols.has(name@));
                                    }
                                }
                            }
                        },
                        _ => {
                            proof {
                                assert(in_col_form(ast@, k as int, j as int));
                                assert(col_at(ast@, k as int, j as int) is None);
                                assert(!cols_upto(ast@, old(table).symbols.key_set(), ast@.len() as int, 0));
                            }
                            return Err(CompileError::InvalidDecl);
                        },
                    }
                    j = j + 1;
                }
                proof {
                    assert forall|n: Seq<char>| #[trigger] table.symbols.has(n) implies old(table).symbols.has(n) || exists|q: int|
                        0 <= q < k + 1 && #[trigger] declares_column(ast@[q], n) by {
                        if !old(table).symbols.has(n) && !(exists|q: int| 0 <= q < k && #[trigger] declares_column(ast@[q], n)) {
                            let i = choose|i: int| 0 <= i < j && #[trigger] symbol_name(args@[i]) == Some(n);
                            assert(declares_column(ast@[k as int], n));
                        }
                    }
                    assert forall|name: Seq<char>| #[trigger] declares_column(ast@[k as int], name) implies table.symbols.entry(name) == Some(None::<Seq<char>>) by {
                        let i = choose|i: int| 0 <= i < args@.len() && #[trigger] symbol_name(args@[i]) == Some(name);
                    }
                }
            }
        }
        k = k + 1;
    }
    Ok(())
}

/// The name of a symbol node.
pub open spec fn symbol_name(n: AstNode) -> Option<Seq<char>> {
    match n {
        AstNode::Symbol { name, .. } => Some(name@),
        _ => None,
    }
}

/// `n` is a `defcolumns` form that declares `name`.
pub open spec fn declares_column(n: AstNode, name: Seq<char>) -> bool {
    match n {
        AstNode::Funcall { verb, args } => verb.status == VerbStatus::Builtin(Builtin::Defcolumns) && exists|j: int|
            0 <= j < args@.len() && #[trigger] symbol_name(args@[j]) == Some(name),
        _ => false,
    }
}

/// Every symbol of `n` is one of `params`.
pub open spec fn symbols_within(n: AstNode, params: Seq<Seq<char>>) -> bool
    decreases n, 0nat,
{
    match n {
        AstNode::Symbol { name, .. } => params.contains(name@),
        AstNode::Funcall { args, .. } => symbols_within_all(args, params, args@.len()),
        _ => true,
    }
}

pub open spec fn symbols_within_all(args: Vec<AstNode>, params: Seq<Seq<char>>, k: nat) -> bool
    decreases args, k,
{
    if k == 0 || k > args@.len() {
        true
    } else {
        symbols_within_all(args, params, (k - 1) as nat) && symbols_within(args@[k - 1], params)
    }
}

pub open spec fn names_of(v: Seq<String>) -> Seq<Seq<char>> {
    v.map_values(|s: String| s@)
}

/// Checks that every symbol of a function body is one of its parameters.
pub fn check_body(n: &AstNode, params: &Vec<String>) -> (r: Result<(), CompileError>)
    ensures
        r is Ok <==> symbols_within(*n, names_of(params@)),
        r matches Err(e) ==> e is UnknownSymbol,
    decreases n,
{
    match n {
        AstNode::Symbol { name, .. } => {
            match position_of(params, name) {
                Some(t) => {
                    assert(names_of(params@)[t as int] == name@);
                    Ok(())
                },
                None => {
                    assert(!names_of(params@).contains(name@));
                    Err(CompileError::UnknownSymbol(name.clone()))
                },
            }
        },
        AstNode::Funcall { args, .. } => {
            let mut k: usize = 0;
            while k < args.len()
                invariant
                    k <= args@.len(),
                    decreases_to!(*n => *args),
                    symbols_within(*n, names_of(params@)) == symbols_within_all(*args, names_of(params@), args@.len()),
                    symbols_within_all(*args, names_of(params@), k as nat),
                decreases args@.len() - k,
            {
                let r = check_body(&args[k], params);
                if r.is_err() {
                    proof {
                        if symbols_within_all(*args, names_of(params@), args@.len()) {
                            lemma_within_all_prefix(*args, names_of(params@), args@.len(), (k + 1) as nat);
                        }
                    }
                    return r;
                }
                k = k + 1;
            }
            Ok(())
        },
        _ => Ok(()),
    }
}

pub proof fn lemma_within_all_prefix(args: Vec<AstNode>, params: Seq<Seq<char>>, k: nat, m: nat)
    requires
        m <= k <= args@.len(),
        symbols_within_all(args, params, k),
    ensures
        symbols_within_all(args, params, m),
    decreases k - m,
{
    if m < k {
        lemma_within_all_prefix(args, params, (k - 1) as nat, m);
    }
}

/// Reads the parameters of a form `(p0 p1 ...)` whose head is the first parameter, when
/// `with_head` is set, or the function name otherwise: every parameter a functional symbol,
/// no two alike.
fn parse_params(form: &AstNode, with_head: bool) -> (r: Result<(String, Vec<String>), CompileError>)
    ensures
        r matches Ok((name, _)) ==> form matches AstNode::Funcall { verb, .. } && verb.name@ == name@
            && (!with_head ==> verb.status == VerbStatus::Defined),
        r matches Ok((_, ps)) ==> params_of(*form, with_head) == Some(names_of(ps@)) && names_of(ps@).no_duplicates(),
        r matches Err(e) ==> e is InvalidDecl || e is Redefinition,
        r is Err ==> !params_acceptable(*form, with_head),
{
    match form {
        AstNode::Funcall { verb, args } => {
            let mut params: Vec<String> = Vec::new();
            if with_head {
                params.push(verb.name.clone());
            } else if verb.status != VerbStatus::Defined {
                return Err(CompileError::InvalidDecl);
            }
            let mut k: usize = 0;
            assert(names_of(params@) =~= head_param(verb.name@, with_head));
            while k < args.len()
                invariant
                    k <= args@.len(),
                    *form == (AstNode::Funcall { verb: *verb, args: *args }),
                    params_prefix(*args, k as nat) == Some(names_of(params@).subrange(
                        head_param(verb.name@, with_head).len() as int,
                        names_of(params@).len() as int,
                    )),
                    names_of(params@).subrange(0, head_param(verb.name@, with_head).len() as int) == head_param(verb.name@, with_head),
                    names_of(params@).len() >= head_param(verb.name@, with_head).len(),
                    names_of(params@).no_duplicates(),
                    with_head || verb.status == VerbStatus::Defined,
                decreases args@.len() - k,
            {
                let ghost before = names_of(params@);
                match &args[k] {
                    AstNode::Symbol { name, status } => {
                        if *status != SymbolStatus::Functional {
                            proof {
                                lemma_params_prefix_fails(*args, (k + 1) as nat, args@.len());
                            }
                            return Err(CompileError::InvalidDecl);
                        }
                        if let Some(t) = position_of(&params, name) {
                            proof {
                                let h = head_param(verb.name@, with_head).len() as int;
                                if params_prefix(*args, args@.len()) is Some {
                                    lemma_params_prefix(*args, (k + 1) as nat, args@.len());
                                    let full = head_param(verb.name@, with_head) + params_prefix(*args, args@.len())->Some_0;
                                    let pk1 = params_prefix(*args, (k + 1) as nat)->Some_0;
                                    let pk = params_prefix(*args, k as nat)->Some_0;
                                    lemma_params_len(*args, k as nat);
                                    assert(pk1 == pk.push(name@));
                                    assert(pk1[k as int] == name@);
                                    let pfull = params_prefix(*args, args@.len())->Some_0;
                                    assert(pfull.subrange(0, k + 1) == pk1);
                                    assert(full[h + k] == name@);
                                    assert(names_of(params@)[t as int] == name@);
                                    if t < h {
                                        assert(full[t as int] == names_of(params@)[t as int]);
                                    } else {
                                        assert(names_of(params@)[t as int] == names_of(params@).subrange(h, names_of(params@).len() as int)[t - h]);
                                        assert(names_of(params@).subrange(h, names_of(params@).len() as int) == pk);
                                        assert(pk1[t - h] == pk[t - h]);
                                        assert(pfull[t - h] == pk1[t - h]);
                                        assert(full[t as int] == pfull[t - h]);
                                    }
                                    assert(!full.no_duplicates());
                                }
                            }
                            return Err(CompileError::Redefinition(name.clone()));
                        }
                        params.push(name.clone());
                        proof {
                            let h = head_param(verb.name@, with_head).len() as int;
                            assert(names_of(params@) =~= before.push(name@));
                            assert(names_of(params@).subrange(h, names_of(params@).len() as int) =~= before.subrange(h, before.len() as int).push(name@));
                            assert(names_of(params@).subrange(0, h) =~= before.subrange(0, h));
                        }
                    },
                    _ => {
                        proof {
                            lemma_params_prefix_fails(*args, (k + 1) as nat, args@.len());
                        }
                        return Err(CompileError::InvalidDecl);
                    },
                }
                k = k + 1;
            }
            proof {
                let h = head_param(verb.name@, with_head).len() as int;
                assert(names_of(params@) =~= names_of(params@).subrange(0, h) + names_of(params@).subrange(h, names_of(params@).len() as int));
            }
            Ok((verb.name.clone(), params))
        },
        _ => Err(CompileError::InvalidDecl),
    }
}

/// The name that a `defun` form defines: the head of its header `(name arg ...)`, or its first
/// argument when that is a symbol followed by a parameter list and a body.
pub open spec fn head_param(name: Seq<char>, with_head: bool) -> Seq<Seq<char>> {
    if with_head {
        seq![name]
    } else {
        Seq::empty()
    }
}

/// The names of the first `k` nodes, when each is a functional symbol.
pub open spec fn params_prefix(args: Vec<AstNode>, k: nat) -> Option<Seq<Seq<char>>>
    decreases k,
{
    if k == 0 || k > args@.len() {
        Some(Seq::empty())
    } else {
        match (params_prefix(args, (k - 1) as nat), args@[k - 1]) {
            (Some(ps), AstNode::Symbol { name, status: SymbolStatus::Functional }) => Some(ps.push(name@)),
            _ => None,
        }
    }
}

/// A parameter form is acceptable: its head is a defined name unless it is itself a parameter,
/// and its parameters are functional symbols, no two alike.
pub open spec fn params_acceptable(form: AstNode, with_head: bool) -> bool {
    &&& form matches AstNode::Funcall { verb, .. } && (with_head || verb.status == VerbStatus::Defined)
    &&& params_of(form, with_head) matches Some(ps) && ps.no_duplicates()
}

proof fn lemma_params_prefix(args: Vec<AstNode>, k: nat, m: nat)
    requires
        k <= m <= args@.len(),
        params_prefix(args, m) is Some,
    ensures
        params_prefix(args, k) is Some,
        params_prefix(args, k)->Some_0 == params_prefix(args, m)->Some_0.subrange(0, k as int),
        params_prefix(args, m)->Some_0.len() == m,
    decreases m - k,
{
    if k < m {
        lemma_params_prefix(args, k, (m - 1) as nat);
        let pm = params_prefix(args, m)->Some_0;
        let pm1 = params_prefix(args, (m - 1) as nat)->Some_0;
        assert(pm == pm1.push(pm[m - 1]));
        assert(pm.subrange(0, k as int) =~= pm1.subrange(0, k as int));
    } else {
        lemma_params_len(args, m);
        assert(params_prefix(args, m)->Some_0.subrange(0, m as int) =~= params_prefix(args, m)->Some_0);
    }
}

proof fn lemma_params_len(args: Vec<AstNode>, m: nat)
    requires
        m <= args@.len(),
        params_prefix(args, m) is Some,
    ensures
        params_prefix(args, m)->Some_0.len() == m,
    decreases m,
{
    if m > 0 {
        lemma_params_len(args, (m - 1) as nat);
    }
}

proof fn lemma_params_prefix_fails(args: Vec<AstNode>, k: nat, m: nat)
    requires
        k <= m <= args@.len(),
        params_prefix(args, k) is None,
    ensures
        params_prefix(args, m) is None,
    decreases m - k,
{
    if k < m {
        lemma_params_prefix_fails(args, k, (m - 1) as nat);
    }
}

/// The parameter names of a form `(p ...)`, with its head first when `with_head` is set.
pub open spec fn params_of(form: AstNode, with_head: bool) -> Option<Seq<Seq<char>>> {
    match form {
        AstNode::Funcall { verb, args } => match params_prefix(args, args@.len()) {
            Some(ps) => Some(head_param(verb.name@, with_head) + ps),
            None => None,
        },
        _ => None,
    }
}

pub open spec fn defun_name(args: Seq<AstNode>) -> Option<Seq<char>> {
    if args.len() == 2 {
        match args[0] {
            AstNode::Funcall { verb, .. } => if verb.status == VerbStatus::Defined {
                Some(verb.name@)
            } else {
                None
            },
            _ => None,
        }
    } else if args.len() == 3 {
        match args[0] {
            AstNode::Symbol { name, .. } => Some(name@),
            _ => None,
        }
    } else {
        None
    }
}

/// The parameter names of a `defun` form's arguments.
pub open spec fn defun_params(args: Seq<AstNode>) -> Option<Seq<Seq<char>>> {
    if args.len() == 2 {
        params_of(args[0], false)
    } else if args.len() == 3 {
        params_of(args[1], true)
    } else {
        None
    }
}

/// A `defun` form's arguments name the function and list distinct parameters.
pub open spec fn defun_shape_ok(args: Seq<AstNode>) -> bool {
    &&& defun_name(args) is Some
    &&& defun_params(args) matches Some(ps) && ps.no_duplicates()
}

/// The function table `t` holds, as a final binding, the function `name` with parameters
/// `params` and body `body`.
pub open spec fn fn_stored(t: SymbolsTable, name: Seq<char>, params: Seq<Seq<char>>, body: AstNode) -> bool {
    exists|j: int|
        0 <= j < t.defs@.len() && j < t.funcs.keys@.len() && #[trigger] t.funcs.keys@[j]@ == name
            && t.funcs.targets@[j] is None && def_matches(t.defs@[j], name, params, body)
}

/// `d` is the function `name` with parameters `params` and body `body`.
pub open spec fn def_matches(d: Option<Function>, name: Seq<char>, params: Seq<Seq<char>>, body: AstNode) -> bool {
    match d {
        Some(f) => f.name@ == name && names_of(f.args@) == params && crate::parser::node_view(f.body)
            == crate::parser::node_view(body),
        None => false,
    }
}

/// Every `defun` among the first `k` forms has a parameter list and a body whose symbols are
/// all parameters, and no two of them, nor any of them and a function of `old`, share a name.
pub open spec fn defuns_ok(ast: Seq<AstNode>, old: Set<Seq<char>>, k: int) -> bool {
    &&& forall|q: int|
        0 <= q < k && (#[trigger] form_args(ast[q], Builtin::Defun)) is Some ==> {
            let args = form_args(ast[q], Builtin::Defun)->Some_0;
            &&& defun_shape_ok(args)
            &&& symbols_within(args[args.len() - 1], defun_params(args)->Some_0)
            &&& !old.contains(defun_name(args)->Some_0)
        }
    &&& forall|q1: int, q2: int|
        0 <= q1 < q2 < k && (#[trigger] form_args(ast[q1], Builtin::Defun)) is Some && (#[trigger] form_args(
            ast[q2],
            Builtin::Defun,
        )) is Some ==> defun_name(form_args(ast[q1], Builtin::Defun)->Some_0) != defun_name(
            form_args(ast[q2], Builtin::Defun)->Some_0,
        )
}

/// Every `defun` among the first `k` forms of `ast` is well-formed and its name is bound in `t`.
pub open spec fn functions_bound(ast: Seq<AstNode>, t: Names, k: int) -> bool {
    forall|q: int|
        0 <= q < k && (#[trigger] form_args(ast[q], Builtin::Defun)) is Some ==> defun_name(
            form_args(ast[q], Builtin::Defun)->Some_0,
        ) is Some && t.has(defun_name(form_args(ast[q], Builtin::Defun)->Some_0)->Some_0)
}

/// Reads a `defun`: either `(defun (name arg ...) body)` or `(defun name (arg ...) body)`.
/// Returns the name, the parameters and the index of the body among the arguments.
fn parse_defun(args: &Vec<AstNode>) -> (r: Result<(String, Vec<String>, usize), CompileError>)
    ensures
        r matches Ok((_, _, b)) ==> b < args@.len(),
        r matches Ok((name, _, _)) ==> defun_name(args@) == Some(name@),
        r matches Ok((_, ps, b)) ==> defun_params(args@) == Some(names_of(ps@)) && b == args@.len() - 1,
        r matches Err(e) ==> e is InvalidDecl || e is Redefinition,
        r is Ok <==> defun_shape_ok(args@),
{
    if args.len() == 2 {
        match parse_params(&args[0], false) {
            Ok((name, params)) => Ok((name, params, 1)),
            Err(e) => Err(e),
        }
    } else if args.len() == 3 {
        let name = match &args[0] {
            AstNode::Symbol { name, .. } => name.clone(),
            _ => {
                return Err(CompileError::InvalidDecl);
            },
        };
        match parse_params(&args[1], true) {
            Ok((_, params)) => Ok((name, params, 2)),
            Err(e) => Err(e),
        }
    } else {
        Err(CompileError::InvalidDecl)
    }
}

/// Pass two: defines the function of every `defun` form.
pub fn compile_funcs(ast: &Vec<AstNode>, table: &mut SymbolsTable) -> (r: Result<(), CompileError>)
    requires
        old(table).wf(),
    ensures
        final(table).wf(),
        final(table).symbols == old(table).symbols,
        r matches Err(e) ==> e is InvalidDecl || e is Redefinition || e is UnknownSymbol,
        r is Ok ==> functions_bound(ast@, final(table).funcs, ast@.len() as int),
        r is Ok <==> defuns_ok(ast@, old(table).funcs.key_set(), ast@.len() as int),
        r is Ok ==> forall|n: Seq<char>| #[trigger] final(table).funcs.has(n) ==> old(table).funcs.has(n) || exists|q: int|
            0 <= q < ast@.len() && (#[trigger] form_args(ast@[q], Builtin::Defun)) is Some && defun_name(
                form_args(ast@[q], Builtin::Defun)->Some_0,
            ) == Some(n),
        r is Ok ==> forall|q: int|
            0 <= q < ast@.len() && (#[trigger] form_args(ast@[q], Builtin::Defun)) is Some ==> fn_stored(
                *final(table),
                defun_name(form_args(ast@[q], Builtin::Defun)->Some_0)->Some_0,
                defun_params(form_args(ast@[q], Builtin::Defun)->Some_0)->Some_0,
                form_args(ast@[q], Builtin::Defun)->Some_0.last(),
            ),
{
    let mut k: usize = 0;
    while k < ast.len()
        invariant
            table.wf(),
            table.symbols == old(table).symbols,
            functions_bound(ast@, table.funcs, k as int),
            defuns_ok(ast@, old(table).funcs.key_set(), k as int),
            forall|n: Seq<char>| old(table).funcs.has(n) ==> #[trigger] table.funcs.has(n),
            k <= ast@.len(),
            forall|n: Seq<char>| #[trigger] table.funcs.has(n) ==> old(table).funcs.has(n) || exists|q: int|
                0 <= q < k && (#[trigger] form_args(ast@[q], Builtin::Defun)) is Some && defun_name(
                    form_args(ast@[q], Builtin::Defun)->Some_0,
                ) == Some(n),
            forall|q: int|
                0 <= q < k && (#[trigger] form_args(ast@[q], Builtin::Defun)) is Some ==> fn_stored(
                    *table,
                    defun_name(form_args(ast@[q], Builtin::Defun)->Some_0)->Some_0,
                    defun_params(form_args(ast@[q], Builtin::Defun)->Some_0)->Some_0,
                    form_args(ast@[q], Builtin::Defun)->Some_0.last(),
                ),
        decreases ast@.len() - k,
    {
        let ghost before = table.funcs;
        let ghost before_t = *table;
        if let AstNode::Funcall { verb, args } = &ast[k] {
            if verb.status == VerbStatus::Builtin(Builtin::Defun) {
                assert(form_args(ast@[k as int], Builtin::Defun) == Some(args@));
                let (name, params, b) = match parse_defun(args) {
                    Ok(h) => h,
                    Err(e) => {
                        return Err(e);
                    },
                };
                let checked = check_body(&args[b], &params);
                if checked.is_err() {
                    return checked;
                }
                let body = copy_ast(&args[b]);
                let ghost fname = name@;
                let ghost fparams = names_of(params@);
                let ghost fbody = body;
                let f = Function { name, args: params, body };
                let r = table.insert_function(f);
                if r.is_err() {
                    proof {
                        assert(before.has(fname));
                        if !old(table).funcs.has(fname) {
                            let q = choose|q: int|
                                0 <= q < k && (#[trigger] form_args(ast@[q], Builtin::Defun)) is Some && defun_name(
                                    form_args(ast@[q], Builtin::Defun)->Some_0,
                                ) == Some(fname);
                            assert(!defuns_ok(ast@, old(table).funcs.key_set(), ast@.len() as int));
                        }
                    }
                    return r;
                }
                proof {
                    let j = table.funcs.keys@.len() - 1;
                    assert(table.funcs.keys@[j]@ == fname);
                    assert(fn_stored(*table, fname, fparams, args@.last()));
                    assert forall|q: int|
                        0 <= q < k && (#[trigger] form_args(ast@[q], Builtin::Defun)) is Some implies fn_stored(
                            *table,
                            defun_name(form_args(ast@[q], Builtin::Defun)->Some_0)->Some_0,
                            defun_params(form_args(ast@[q], Builtin::Defun)->Some_0)->Some_0,
                            form_args(ast@[q], Builtin::Defun)->Some_0.last(),
                        ) by {
                        let a = form_args(ast@[q], Builtin::Defun)->Some_0;
                        assert(fn_stored(before_t, defun_name(a)->Some_0, defun_params(a)->Some_0, a.last()));
                        let i = choose|i: int|
                            0 <= i < before_t.defs@.len() && i < before_t.funcs.keys@.len() && #[trigger] before_t.funcs.keys@[i]@ == defun_name(a)->Some_0
                                && before_t.funcs.targets@[i] is None && def_matches(before_t.defs@[i], defun_name(a)->Some_0, defun_params(a)->Some_0, a.last());
                        assert(table.funcs.keys@[i] == before_t.funcs.keys@[i]);
                        assert(table.defs@[i] == before_t.defs@[i]);
                    }
                    assert forall|n: Seq<char>| #[trigger] table.funcs.has(n) implies old(table).funcs.has(n) || exists|q: int|
                        0 <= q < k + 1 && (#[trigger] form_args(ast@[q], Builtin::Defun)) is Some && defun_name(
                            form_args(ast@[q], Builtin::Defun)->Some_0,
                        ) == Some(n) by {
                        if n != fname {
                            assert(table.funcs.entry(n) == before.entry(n));
                            assert(before.has(n));
                        }
                    }
                }
            }
        }
        proof {
            assert forall|q1: int, q2: int|
                0 <= q1 < q2 < k + 1 && (#[trigger] form_args(ast@[q1], Builtin::Defun)) is Some && (#[trigger] form_args(
                    ast@[q2],
                    Builtin::Defun,
                )) is Some implies defun_name(form_args(ast@[q1], Builtin::Defun)->Some_0) != defun_name(
                    form_args(ast@[q2], Builtin::Defun)->Some_0,
                ) by {
                if q2 == k {
                    assert(before.has(defun_name(form_args(ast@[q1], Builtin::Defun)->Some_0)->Some_0));
                }
            }
            assert forall|q: int|
                0 <= q < k + 1 && (#[trigger] form_args(ast@[q], Builtin::Defun)) is Some implies defun_name(
                    form_args(ast@[q], Builtin::Defun)->Some_0,
                ) is Some && table.funcs.has(defun_name(form_args(ast@[q], Builtin::Defun)->Some_0)->Some_0) by {
                if q < k {
                    assert(before.has(defun_name(form_args(ast@[q], Builtin::Defun)->Some_0)->Some_0));
                }
            }
        }
        k = k + 1;
    }
    Ok(())
}

/// The two functional symbols `(from to)` of an alias form.
fn alias_pair(args: &Vec<AstNode>) -> (r: Result<(&String, &String), CompileError>)
    ensures
        match r {
            Ok((from, to)) => alias_args(args@) == Some((from@, to@)),
            Err(e) => e is InvalidDecl && alias_args(args@) is None,
        },
{
    if args.len() != 2 {
        return Err(CompileError::InvalidDecl);
    }
    match (&args[0], &args[1]) {
        (
            AstNode::Symbol { name: from, status: SymbolStatus::Functional },
            AstNode::Symbol { name: to, status: SymbolStatus::Functional },
        ) => Ok((from, to)),
        _ => Err(CompileError::InvalidDecl),
    }
}

/// The names `(from, to)` of a well-formed alias form's arguments: two functional symbols.
pub open spec fn alias_args(args: Seq<AstNode>) -> Option<(Seq<char>, Seq<char>)> {
    if args.len() == 2 {
        match (args[0], args[1]) {
            (
                AstNode::Symbol { name: from, status: SymbolStatus::Functional },
                AstNode::Symbol { name: to, status: SymbolStatus::Functional },
            ) => Some((from@, to@)),
            _ => None,
        }
    } else {
        None
    }
}

/// The arguments of `n` when it is a form headed by the built-in `b`.
pub open spec fn form_args(n: AstNode, b: Builtin) -> Option<Seq<AstNode>> {
    match n {
        AstNode::Funcall { verb, args } => if verb.status == VerbStatus::Builtin(b) {
            Some(args@)
        } else {
            None
        },
        _ => None,
    }
}

/// Every form headed by `b` among the first `k` of `ast` is a well-formed alias whose name
/// `from` is bound in `t`.
pub open spec fn aliases_bound(ast: Seq<AstNode>, b: Builtin, t: Names, k: int) -> bool {
    forall|q: int|
        0 <= q < k && (#[trigger] form_args(ast[q], b)) is Some ==> alias_args(form_args(ast[q], b)->Some_0) is Some
            && t.entry(alias_args(form_args(ast[q], b)->Some_0)->Some_0.0) == Some(
            Some(alias_args(form_args(ast[q], b)->Some_0)->Some_0.1),
        )
}

/// The bindings of `old` are kept in `t`.
pub open spec fn keeps(old: Names, t: Names) -> bool {
    forall|n: Seq<char>| old.has(n) ==> #[trigger] t.entry(n) == old.entry(n)
}

/// Up to form `k`, every alias form headed by `b` is well formed, its name is not bound in
/// `old`, and no two such forms alias the same name.
pub open spec fn aliases_ok(ast: Seq<AstNode>, b: Builtin, old: Set<Seq<char>>, k: int) -> bool {
    &&& forall|q: int|
        0 <= q < k && (#[trigger] form_args(ast[q], b)) is Some ==> alias_args(form_args(ast[q], b)->Some_0) is Some
            && !old.contains(alias_args(form_args(ast[q], b)->Some_0)->Some_0.0)
    &&& forall|q1: int, q2: int|
        0 <= q1 < q2 < k && (#[trigger] form_args(ast[q1], b)) is Some && (#[trigger] form_args(ast[q2], b)) is Some
            ==> alias_args(form_args(ast[q1], b)->Some_0)->Some_0.0 != alias_args(form_args(ast[q2], b)->Some_0)->Some_0.0
}

/// `n` is the name that some alias form headed by `b`, before form `k`, defines.
pub open spec fn alias_defined(ast: Seq<AstNode>, b: Builtin, k: int, n: Seq<char>) -> bool {
    exists|q: int|
        0 <= q < k && (#[trigger] form_args(ast[q], b)) is Some && alias_args(form_args(ast[q], b)->Some_0) is Some
            && alias_args(form_args(ast[q], b)->Some_0)->Some_0.0 == n
}

/// Pass three: records every `defalias` among the columns and every `defunalias` among the
/// functions.
pub fn compile_aliases(ast: &Vec<AstNode>, table: &mut SymbolsTable) -> (r: Result<(), CompileError>)
    requires
        old(table).wf(),
    ensures
        final(table).wf(),
        r matches Err(e) ==> e is InvalidDecl || e is Redefinition,
        r is Ok ==> aliases_bound(ast@, Builtin::Defalias, final(table).symbols, ast@.len() as int),
        r is Ok ==> aliases_bound(ast@, Builtin::Defunalias, final(table).funcs, ast@.len() as int),
        r is Ok ==> keeps(old(table).symbols, final(table).symbols),
        r is Ok ==> keeps(old(table).funcs, final(table).funcs),
        r is Ok ==> forall|n: Seq<char>| #[trigger] final(table).symbols.entry(n) == Some(None::<Seq<char>>) ==> old(
            table,
        ).symbols.entry(n) == Some(None::<Seq<char>>),
        r is Ok ==> final(table).defs@.len() >= old(table).defs@.len() && forall|j: int|
            0 <= j < old(table).defs@.len() ==> #[trigger] final(table).defs@[j] == old(table).defs@[j],
        r is Ok ==> forall|n: Seq<char>| #[trigger] final(table).symbols.has(n) ==> old(table).symbols.has(n) || alias_defined(ast@, Builtin::Defalias, ast@.len() as int, n),
        r is Ok ==> forall|n: Seq<char>| #[trigger] final(table).funcs.has(n) ==> old(table).funcs.has(n) || alias_defined(ast@, Builtin::Defunalias, ast@.len() as int, n),
        r is Ok ==> final(table).funcs.keys@.len() >= old(table).funcs.keys@.len() && forall|j: int|
            0 <= j < old(table).funcs.keys@.len() ==> #[trigger] final(table).funcs.keys@[j] == old(table).funcs.keys@[j]
                && final(table).funcs.targets@[j] == old(table).funcs.targets@[j],
        r is Ok <==> aliases_ok(ast@, Builtin::Defalias, old(table).symbols.key_set(), ast@.len() as int) && aliases_ok(
            ast@,
            Builtin::Defunalias,
            old(table).funcs.key_set(),
            ast@.len() as int,
        ),
{
    let mut k: usize = 0;
    while k < ast.len()
        invariant
            table.wf(),
            aliases_bound(ast@, Builtin::Defalias, table.symbols, k as int),
            keeps(old(table).symbols, table.symbols),
            table.funcs == old(table).funcs,
            table.defs == old(table).defs,
            forall|n: Seq<char>| #[trigger] table.symbols.entry(n) == Some(None::<Seq<char>>) ==> old(
                table,
            ).symbols.entry(n) == Some(None::<Seq<char>>),
            k <= ast@.len(),
            aliases_ok(ast@, Builtin::Defalias, old(table).symbols.key_set(), k as int),
            forall|n: Seq<char>| #[trigger] table.symbols.has(n) ==> old(table).symbols.has(n) || alias_defined(ast@, Builtin::Defalias, k as int, n),
        decreases ast@.len() - k,
    {
        let ghost before = table.symbols;
        if let AstNode::Funcall { verb, args } = &ast[k] {
            if verb.status == VerbStatus::Builtin(Builtin::Defalias) {
                assert(form_args(ast@[k as int], Builtin::Defalias) == Some(args@));
                let r = match alias_pair(args) {
                    Ok((from, to)) => {
                        let ghost f = from@;
                        let r = table.insert_alias(from, to);
                        proof {
                            if r is Err {
                                assert(before.has(f));
                                if !old(table).symbols.has(f) {
                                    let q = choose|q: int|
                                        0 <= q < k && (#[trigger] form_args(ast@[q], Builtin::Defalias)) is Some && alias_args(form_args(ast@[q], Builtin::Defalias)->Some_0) is Some
                                            && alias_args(form_args(ast@[q], Builtin::Defalias)->Some_0)->Some_0.0 == f;
                                }
                                assert(!aliases_ok(ast@, Builtin::Defalias, old(table).symbols.key_set(), ast@.len() as int));
                            } else {
                                assert(!before.has(f));
                                assert forall|q: int| 0 <= q < k && (#[trigger] form_args(ast@[q], Builtin::Defalias)) is Some implies
                                    alias_args(form_args(ast@[q], Builtin::Defalias)->Some_0)->Some_0.0 != f by {
                                    assert(before.has(alias_args(form_args(ast@[q], Builtin::Defalias)->Some_0)->Some_0.0));
                                }
                                assert forall|n: Seq<char>| #[trigger] table.symbols.has(n) implies old(table).symbols.has(n) || alias_defined(ast@, Builtin::Defalias, k + 1, n) by {
                                    if n != f {
                                        assert(table.symbols.entry(n) == before.entry(n));
                                        assert(before.has(n));
                                    }
                                }
                            }
                        }
                        r
                    },
                    Err(e) => Err(e),
                };
                if r.is_err() {
                    return r;
                }
            }
        }
        proof {
            assert forall|q: int|
                0 <= q < k + 1 && (#[trigger] form_args(ast@[q], Builtin::Defalias)) is Some implies alias_args(form_args(ast@[q], Builtin::Defalias)->Some_0) is Some
                    && table.symbols.entry(alias_args(form_args(ast@[q], Builtin::Defalias)->Some_0)->Some_0.0) == Some(
                    Some(alias_args(form_args(ast@[q], Builtin::Defalias)->Some_0)->Some_0.1),
                ) by {
                if q < k {
                    assert(before.has(alias_args(form_args(ast@[q], Builtin::Defalias)->Some_0)->Some_0.0));
                }
            }
            assert forall|n: Seq<char>| old(table).symbols.has(n) implies #[trigger] table.symbols.entry(n) == old(table).symbols.entry(n) by {
                assert(before.entry(n) == old(table).symbols.entry(n));
                assert(before.has(n));
            }
            assert forall|n: Seq<char>| #[trigger] table.symbols.entry(n) == Some(None::<Seq<char>>) implies old(
                table,
            ).symbols.entry(n) == Some(None::<Seq<char>>) by {
                assert(before.entry(n) == Some(None::<Seq<char>>));
            }
        }
        k = k + 1;
    }
    let mut k: usize = 0;
    while k < ast.len()
        invariant
            table.wf(),
            aliases_bound(ast@, Builtin::Defalias, table.symbols, ast@.len() as int),
            aliases_bound(ast@, Builtin::Defunalias, table.funcs, k as int),
            keeps(old(table).symbols, table.symbols),
            keeps(old(table).funcs, table.funcs),
            forall|n: Seq<char>| #[trigger] table.symbols.entry(n) == Some(None::<Seq<char>>) ==> old(
                table,
            ).symbols.entry(n) == Some(None::<Seq<char>>),
            table.defs@.len() >= old(table).defs@.len(),
            forall|j: int| 0 <= j < old(table).defs@.len() ==> #[trigger] table.defs@[j] == old(table).defs@[j],
            k <= ast@.len(),
            aliases_ok(ast@, Builtin::Defalias, old(table).symbols.key_set(), ast@.len() as int),
            aliases_ok(ast@, Builtin::Defunalias, old(table).funcs.key_set(), k as int),
            forall|n: Seq<char>| #[trigger] table.funcs.has(n) ==> old(table).funcs.has(n) || alias_defined(ast@, Builtin::Defunalias, k as int, n),
            forall|n: Seq<char>| #[trigger] table.symbols.has(n) ==> old(table).symbols.has(n) || alias_defined(ast@, Builtin::Defalias, ast@.len() as int, n),
            table.funcs.keys@.len() >= old(table).funcs.keys@.len(),
            forall|j: int|
                0 <= j < old(table).funcs.keys@.len() ==> #[trigger] table.funcs.keys@[j] == old(table).funcs.keys@[j]
                    && table.funcs.targets@[j] == old(table).funcs.targets@[j],
            table.funcs.keys@.len() == table.funcs.targets@.len(),
        decreases ast@.len() - k,
    {
        let ghost before = table.funcs;
        let ghost before_defs = table.defs@;
        let ghost before_t = *table;
        if let AstNode::Funcall { verb, args } = &ast[k] {
            if verb.status == VerbStatus::Builtin(Builtin::Defunalias) {
                assert(form_args(ast@[k as int], Builtin::Defunalias) == Some(args@));
                let r = match alias_pair(args) {
                    Ok((from, to)) => {
                        let ghost f = from@;
                        let r = table.insert_funalias(from, to);
                        proof {
                            if r is Err {
                                assert(before.has(f));
                                if !old(table).funcs.has(f) {
                                    let q = choose|q: int|
                                        0 <= q < k && (#[trigger] form_args(ast@[q], Builtin::Defunalias)) is Some && alias_args(form_args(ast@[q], Builtin::Defunalias)->Some_0) is Some
                                            && alias_args(form_args(ast@[q], Builtin::Defunalias)->Some_0)->Some_0.0 == f;
                                }
                                assert(!aliases_ok(ast@, Builtin::Defunalias, old(table).funcs.key_set(), ast@.len() as int));
                            } else {
                                assert(!before.has(f));
                                assert forall|q: int| 0 <= q < k && (#[trigger] form_args(ast@[q], Builtin::Defunalias)) is Some implies
                                    alias_args(form_args(ast@[q], Builtin::Defunalias)->Some_0)->Some_0.0 != f by {
                                    assert(before.has(alias_args(form_args(ast@[q], Builtin::Defunalias)->Some_0)->Some_0.0));
                                }
                                assert forall|j: int| 0 <= j < before_t.funcs.keys@.len() implies #[trigger] table.funcs.keys@[j]
                                    == before_t.funcs.keys@[j] && table.funcs.targets@[j] == before_t.funcs.targets@[j] by {}
                                assert forall|n: Seq<char>| #[trigger] table.funcs.has(n) implies old(table).funcs.has(n) || alias_defined(ast@, Builtin::Defunalias, k + 1, n) by {
                                    if n != f {
                                        assert(table.funcs.entry(n) == before.entry(n));
                                        assert(before.has(n));
                                    }
                                }
                            }
                        }
                        r
                    },
                    Err(e) => Err(e),
                };
                if r.is_err() {
                    return r;
                }
            }
        }
        proof {
            assert forall|q: int|
                0 <= q < k + 1 && (#[trigger] form_args(ast@[q], Builtin::Defunalias)) is Some implies alias_args(form_args(ast@[q], Builtin::Defunalias)->Some_0) is Some
                    && table.funcs.entry(alias_args(form_args(ast@[q], Builtin::Defunalias)->Some_0)->Some_0.0) == Some(
                    Some(alias_args(form_args(ast@[q], Builtin::Defunalias)->Some_0)->Some_0.1),
                ) by {
                if q < k {
                    assert(before.has(alias_args(form_args(ast@[q], Builtin::Defunalias)->Some_0)->Some_0.0));
                }
            }
            assert forall|n: Seq<char>| old(table).funcs.has(n) implies #[trigger] table.funcs.entry(n) == old(table).funcs.entry(n) by {
                assert(before.entry(n) == old(table).funcs.entry(n));
                assert(before.has(n));
            }
            assert forall|j: int| 0 <= j < old(table).defs@.len() implies #[trigger] table.defs@[j] == old(table).defs@[j] by {
                assert(before_defs[j] == old(table).defs@[j]);
            }
            assert(forall|j: int| 0 <= j < before_t.funcs.keys@.len() ==> #[trigger] table.funcs.keys@[j]
                == before_t.funcs.keys@[j] && table.funcs.targets@[j] == before_t.funcs.targets@[j]);
            assert forall|j: int|
                0 <= j < old(table).funcs.keys@.len() implies #[trigger] table.funcs.keys@[j] == old(table).funcs.keys@[j]
                    && table.funcs.targets@[j] == old(table).funcs.targets@[j] by {
                assert(before_t.funcs.keys@[j] == old(table).funcs.keys@[j]);
                assert(table.funcs.keys@[j] == before_t.funcs.keys@[j]);
            }
        }
        k = k + 1;
    }
    Ok(())
}

/// The first index below `k` at which `s` holds `x`, or -1.
pub open spec fn index_in(s: Seq<Seq<char>>, x: Seq<char>, k: nat) -> int
    decreases k,
{
    if k == 0 || k > s.len() {
        -1
    } else {
        let i = index_in(s, x, (k - 1) as nat);
        if i >= 0 {
            i
        } else if s[k - 1] == x {
            k - 1
        } else {
            -1
        }
    }
}

proof fn lemma_index_in(s: Seq<Seq<char>>, x: Seq<char>, k: nat, t: int)
    requires
        k <= s.len(),
        -1 <= t < s.len(),
        forall|q: int| 0 <= q < t && q < k ==> s[q] != x,
        t >= 0 ==> s[t] == x,
        t < 0 ==> forall|q: int| 0 <= q < k ==> s[q] != x,
    ensures
        index_in(s, x, k) == if t >= 0 && t < k { t } else { -1 },
    decreases k,
{
    if k > 0 {
        lemma_index_in(s, x, (k - 1) as nat, t);
    }
}

pub open spec fn opt_term(c: Option<Constraint>) -> Option<Term> {
    match c {
        Some(c) => Some(term_of(c)),
        None => None,
    }
}

/// The function that `name` finally stands for in `t`.
pub open spec fn fn_resolved(t: SymbolsTable, name: Seq<char>) -> Option<Function> {
    match crate::names::resolved(t.funcs, name) {
        Some(j) => if 0 <= j < t.defs@.len() {
            t.defs@[j]
        } else {
            None
        },
        None => None,
    }
}

/// The column that `name` finally stands for in `t`.
pub open spec fn sym_resolved(t: SymbolsTable, name: Seq<char>) -> Option<Seq<char>> {
    match crate::names::resolved(t.symbols, name) {
        Some(j) => if 0 <= j < t.symbols.keys@.len() {
            Some(t.symbols.keys@[j]@)
        } else {
            None
        },
        None => None,
    }
}

/// A node of a function body lowered with its parameters `params` bound to `args`: arguments
/// are lowered first, left to right; a call of a defined function is inlined with `fuel` levels
/// of nesting left. `None` when lowering fails, `Some(None)` when the node lowers to nothing.
pub open spec fn lower_in(
    t: SymbolsTable,
    e: AstNode,
    params: Seq<Seq<char>>,
    args: Seq<Term>,
    fuel: nat,
) -> Option<Option<Term>>
    decreases fuel, 1nat, e, 0nat,
{
    match e {
        AstNode::Ignore => Some(None),
        AstNode::Value(x) => Some(Some(Term::Const(x))),
        AstNode::Symbol { name, status } => {
            let p = index_in(params, name@, params.len());
            if status == SymbolStatus::Functional && p >= 0 && p < args.len() {
                Some(Some(args[p]))
            } else {
                None
            }
        },
        AstNode::Funcall { verb, args: cs } => match lower_in_all(t, cs, cs@.len(), params, args, fuel) {
            None => None,
            Some(ts) => match verb.status {
                VerbStatus::Defined => match fn_resolved(t, verb.name@) {
                    Some(g) => match apply_spec(t, g, ts, fuel) {
                        Some(x) => Some(Some(x)),
                        None => None,
                    },
                    None => None,
                },
                VerbStatus::Builtin(b) => if is_declaration(b) {
                    Some(None)
                } else {
                    Some(Some(Term::Call(lowered_op(b), ts)))
                },
            },
        },
    }
}

/// The first `k` nodes lowered in a body, those that lower to nothing left out.
pub open spec fn lower_in_all(
    t: SymbolsTable,
    cs: Vec<AstNode>,
    k: nat,
    params: Seq<Seq<char>>,
    args: Seq<Term>,
    fuel: nat,
) -> Option<Seq<Term>>
    decreases fuel, 1nat, cs, k,
{
    if k == 0 || k > cs@.len() {
        Some(Seq::empty())
    } else {
        match (lower_in_all(t, cs, (k - 1) as nat, params, args, fuel), lower_in(t, cs@[k - 1], params, args, fuel)) {
            (Some(ts), Some(None)) => Some(ts),
            (Some(ts), Some(Some(x))) => Some(ts.push(x)),
            _ => None,
        }
    }
}

/// `f` applied to `args`: the arity must match, and its body is lowered with the parameters
/// bound to the arguments.
pub open spec fn apply_spec(t: SymbolsTable, f: Function, args: Seq<Term>, fuel: nat) -> Option<Term>
    decreases fuel, 0nat,
{
    if args.len() != f.args@.len() || fuel == 0 {
        None
    } else {
        match lower_in(t, f.body, names_of(f.args@), args, (fuel - 1) as nat) {
            Some(Some(x)) => Some(x),
            _ => None,
        }
    }
}

/// A top-level node lowered: declarations lower to nothing, symbols to the column they resolve
/// to, built-in calls to the operator over their lowered arguments, and calls of defined
/// functions to the function inlined.
pub open spec fn lower(t: SymbolsTable, e: AstNode, fuel: nat) -> Option<Option<Term>>
    decreases e, 0nat,
{
    match e {
        AstNode::Ignore => Some(None),
        AstNode::Value(x) => Some(Some(Term::Const(x))),
        AstNode::Symbol { name, status } => if status == SymbolStatus::Pending {
            None
        } else {
            match sym_resolved(t, name@) {
                Some(n) => Some(Some(Term::Col(n))),
                None => None,
            }
        },
        AstNode::Funcall { verb, args: cs } => if verb.status matches VerbStatus::Builtin(b)
            && is_declaration(b) {
            Some(None)
        } else {
            match lower_all(t, cs, cs@.len(), fuel) {
                None => None,
                Some(ts) => match verb.status {
                    VerbStatus::Defined => match fn_resolved(t, verb.name@) {
                        Some(g) => match apply_spec(t, g, ts, fuel) {
                            Some(x) => Some(Some(x)),
                            None => None,
                        },
                        None => None,
                    },
                    VerbStatus::Builtin(b) => Some(Some(Term::Call(lowered_op(b), ts))),
                },
            }
        },
    }
}

pub open spec fn lower_all(t: SymbolsTable, cs: Vec<AstNode>, k: nat, fuel: nat) -> Option<Seq<Term>>
    decreases cs, k,
{
    if k == 0 || k > cs@.len() {
        Some(Seq::empty())
    } else {
        match (lower_all(t, cs, (k - 1) as nat, fuel), lower(t, cs@[k - 1], fuel)) {
            (Some(ts), Some(None)) => Some(ts),
            (Some(ts), Some(Some(x))) => Some(ts.push(x)),
            _ => None,
        }
    }
}

proof fn lemma_lower_in_all_fails(
    t: SymbolsTable,
    cs: Vec<AstNode>,
    k: nat,
    m: nat,
    params: Seq<Seq<char>>,
    args: Seq<Term>,
    fuel: nat,
)
    requires
        0 < k <= m <= cs@.len(),
        lower_in_all(t, cs, k, params, args, fuel) is None,
    ensures
        lower_in_all(t, cs, m, params, args, fuel) is None,
    decreases m - k,
{
    if k < m {
        lemma_lower_in_all_fails(t, cs, k, (m - 1) as nat, params, args, fuel);
    }
}

proof fn lemma_lower_all_fails(t: SymbolsTable, cs: Vec<AstNode>, k: nat, m: nat, fuel: nat)
    requires
        0 < k <= m <= cs@.len(),
        lower_all(t, cs, k, fuel) is None,
    ensures
        lower_all(t, cs, m, fuel) is None,
    decreases m - k,
{
    if k < m {
        lemma_lower_all_fails(t, cs, k, (m - 1) as nat, fuel);
    }
}

/// The operator that a built-in lowers to: `=` becomes a subtraction, the others stay.
pub open spec fn lowered_op(b: Builtin) -> Builtin {
    if b == Builtin::Equals {
        Builtin::Sub
    } else {
        b
    }
}

pub fn lower_op(b: Builtin) -> (r: Builtin)
    ensures
        r == lowered_op(b),
{
    if b == Builtin::Equals {
        Builtin::Sub
    } else {
        b
    }
}

/// A built-in form that declares something and lowers to nothing.
pub open spec fn is_declaration(b: Builtin) -> bool {
    b == Builtin::Defun || b == Builtin::Defalias || b == Builtin::Defunalias || b == Builtin::Defcolumns
}

/// Inlines `f` applied to `args`: every parameter of its body is replaced by the argument at its
/// position. A call nested deeper than `fuel` is a circular definition.
pub fn apply(table: &SymbolsTable, f: &Function, args: Vec<Constraint>, fuel: usize) -> (r: Result<
    Constraint,
    CompileError,
>)
    requires
        table.wf(),
    ensures
        args@.len() != f.args@.len() ==> r == Err::<Constraint, CompileError>(CompileError::Arity(f.name)),
        args@.len() == f.args@.len() && fuel == 0 ==> r == Err::<Constraint, CompileError>(
            CompileError::CircularDefinition(f.name),
        ),
        r is Ok <==> apply_spec(*table, *f, terms_seq(args@), fuel as nat) is Some,
        r matches Ok(c) ==> apply_spec(*table, *f, terms_seq(args@), fuel as nat) == Some(term_of(c)),
    decreases fuel, 0nat,
{
    if f.args.len() != args.len() {
        return Err(CompileError::Arity(f.name.clone()));
    }
    if fuel == 0 {
        return Err(CompileError::CircularDefinition(f.name.clone()));
    }
    match reduce_function(table, &f.body, f, &args, fuel - 1) {
        Ok(Some(c)) => Ok(c),
        Ok(None) => Err(CompileError::InvalidDecl),
        Err(e) => Err(e),
    }
}

/// Lowers a node of the body of `f`, its parameters bound to `ctx`.
pub fn reduce_function(table: &SymbolsTable, e: &AstNode, f: &Function, ctx: &Vec<Constraint>, fuel: usize) -> (r:
    Result<Option<Constraint>, CompileError>)
    requires
        table.wf(),
        ctx@.len() == f.args@.len(),
    ensures
        (*e) is Ignore ==> r == Ok::<Option<Constraint>, CompileError>(None),
        (*e) matches AstNode::Value(x) ==> r == Ok::<Option<Constraint>, CompileError>(Some(Constraint::Const(x))),
        (*e) matches AstNode::Symbol { name, status } ==> (status != SymbolStatus::Functional || !names_of(f.args@).contains(name@)) ==> r is Err,
        r is Ok <==> lower_in(*table, *e, names_of(f.args@), terms_seq(ctx@), fuel as nat) is Some,
        r matches Ok(c) ==> lower_in(*table, *e, names_of(f.args@), terms_seq(ctx@), fuel as nat)
            == Some(opt_term(c)),
    decreases fuel, 1nat, e,
{
    match e {
        AstNode::Ignore => Ok(None),
        AstNode::Value(x) => Ok(Some(Constraint::Const(*x))),
        AstNode::Symbol { name, status } => {
            if *status == SymbolStatus::Functional {
                match position_of(&f.args, name) {
                    Some(p) => {
                        assert(names_of(f.args@)[p as int] == name@);
                        proof {
                            lemma_index_in(names_of(f.args@), name@, f.args@.len(), p as int);
                        }
                        Ok(Some(copy_constraint(&ctx[p])))
                    },
                    None => {
                        assert(!names_of(f.args@).contains(name@));
                        proof {
                            lemma_index_in(names_of(f.args@), name@, f.args@.len(), -1);
                        }
                        Err(CompileError::UnknownSymbol(name.clone()))
                    },
                }
            } else {
                Err(CompileError::UnknownSymbol(name.clone()))
            }
        },
        AstNode::Funcall { verb, args } => {
            let mut reduced: Vec<Constraint> = Vec::new();
            let mut k: usize = 0;
            while k < args.len()
                invariant
                    k <= args@.len(),
                    table.wf(),
                    ctx@.len() == f.args@.len(),
                    decreases_to!(*e => *args),
                    *e == (AstNode::Funcall { verb: *verb, args: *args }),
                    lower_in_all(*table, *args, k as nat, names_of(f.args@), terms_seq(ctx@), fuel as nat)
                        == Some(terms_seq(reduced@)),
                decreases args@.len() - k,
            {
                let ghost before = reduced@;
                match reduce_function(table, &args[k], f, ctx, fuel) {
                    Ok(Some(c)) => {
                        reduced.push(c);
                        assert(terms_seq(reduced@) =~= terms_seq(before).push(term_of(c)));
                    },
                    Ok(None) => {},
                    Err(err) => {
                        proof {
                            lemma_lower_in_all_fails(*table, *args, (k + 1) as nat, args@.len(), names_of(f.args@), terms_seq(ctx@), fuel as nat);
                        }
                        return Err(err);
                    },
                }
                k = k + 1;
            }
            proof {
                lemma_terms_of(reduced, reduced@.len());
                assert(reduced@.subrange(0, reduced@.len() as int) =~= reduced@);
            }
            match verb.status {
                VerbStatus::Defined => {
                    let g = match table.resolve_function(&verb.name) {
                        Ok(g) => g,
                        Err(err) => {
                            return Err(err);
                        },
                    };
                    match apply(table, g, reduced, fuel) {
                        Ok(c) => Ok(Some(c)),
                        Err(err) => Err(err),
                    }
                },
                VerbStatus::Builtin(b) => {
                    if b == Builtin::Defun || b == Builtin::Defalias || b == Builtin::Defunalias || b
                        == Builtin::Defcolumns {
                        Ok(None)
                    } else {
                        Ok(Some(Constraint::Funcall { func: lower_op(b), args: reduced }))
                    }
                },
            }
        },
    }
}

/// Lowers a top-level node: columns resolve through their aliases, calls are inlined,
/// declarations lower to nothing.
pub fn reduce(table: &SymbolsTable, e: &AstNode, fuel: usize) -> (r: Result<Option<Constraint>, CompileError>)
    requires
        table.wf(),
    ensures
        (*e) is Ignore ==> r == Ok::<Option<Constraint>, CompileError>(None),
        (*e) matches AstNode::Value(x) ==> r == Ok::<Option<Constraint>, CompileError>(Some(Constraint::Const(x))),
        (*e) matches AstNode::Symbol { name, status } ==> status != SymbolStatus::Pending ==> match r {
            Ok(Some(Constraint::Column(s))) => exists|j: usize|
                resolves_to(table.symbols, name@, Ok(j)) && #[trigger] table.symbols.keys@[j as int]@ == s@,
            Err(err) => resolves_to(table.symbols, name@, Err(err)),
            _ => false,
        },
        (*e) matches AstNode::Funcall { verb, .. } ==> verb.status matches VerbStatus::Builtin(b) ==> is_declaration(b)
            ==> r == Ok::<Option<Constraint>, CompileError>(None),
        r is Ok <==> lower(*table, *e, fuel as nat) is Some,
        r matches Ok(c) ==> lower(*table, *e, fuel as nat) == Some(opt_term(c)),
    decreases e,
{
    match e {
        AstNode::Ignore => Ok(None),
        AstNode::Value(x) => Ok(Some(Constraint::Const(*x))),
        AstNode::Symbol { name, status } => {
            if *status == SymbolStatus::Pending {
                Err(CompileError::UnknownSymbol(name.clone()))
            } else {
                match table.resolve_symbol(name) {
                    Ok(s) => Ok(Some(Constraint::Column(s))),
                    Err(err) => Err(err),
                }
            }
        },
        AstNode::Funcall { verb, args } => {
            if let VerbStatus::Builtin(b) = verb.status {
                if b == Builtin::Defun || b == Builtin::Defalias || b == Builtin::Defunalias || b
                    == Builtin::Defcolumns {
                    return Ok(None);
                }
            }
            let mut reduced: Vec<Constraint> = Vec::new();
            let mut k: usize = 0;
            assert(terms_seq(reduced@) =~= Seq::<Term>::empty());
            while k < args.len()
                invariant
                    k <= args@.len(),
                    table.wf(),
                    decreases_to!(*e => *args),
                    *e == (AstNode::Funcall { verb: *verb, args: *args }),
                    verb.status matches VerbStatus::Builtin(b) ==> !is_declaration(b),
                    lower_all(*table, *args, k as nat, fuel as nat) == Some(terms_seq(reduced@)),
                decreases args@.len() - k,
            {
                let ghost before = reduced@;
                match reduce(table, &args[k], fuel) {
                    Ok(Some(c)) => {
                        reduced.push(c);
                        assert(terms_seq(reduced@) =~= terms_seq(before).push(term_of(c)));
                    },
                    Ok(None) => {},
                    Err(err) => {
                        proof {
                            lemma_lower_all_fails(*table, *args, (k + 1) as nat, args@.len(), fuel as nat);
                        }
                        return Err(err);
                    },
                }
                k = k + 1;
            }
            proof {
                lemma_terms_of(reduced, reduced@.len());
                assert(reduced@.subrange(0, reduced@.len() as int) =~= reduced@);
            }
            match verb.status {
                VerbStatus::Defined => {
                    let g = match table.resolve_function(&verb.name) {
                        Ok(g) => g,
                        Err(err) => {
                            return Err(err);
                        },
                    };
                    match apply(table, g, reduced, fuel) {
                        Ok(c) => Ok(Some(c)),
                        Err(err) => Err(err),
                    }
                },
                VerbStatus::Builtin(b) => Ok(Some(Constraint::Funcall { func: lower_op(b), args: reduced })),
            }
        },
    }
}

/// The top-level forms among the first `k` lowered, those that lower to nothing left out.
pub open spec fn lower_forms(t: SymbolsTable, ast: Seq<AstNode>, k: nat, fuel: nat) -> Option<Seq<Term>>
    decreases k,
{
    if k == 0 || k > ast.len() {
        Some(Seq::empty())
    } else {
        match (lower_forms(t, ast, (k - 1) as nat, fuel), lower(t, ast[k - 1], fuel)) {
            (Some(ts), Some(None)) => Some(ts),
            (Some(ts), Some(Some(x))) => Some(ts.push(x)),
            _ => None,
        }
    }
}

/// `t` records what the declarations of `ast` declare: every column final, every alias bound to
/// its target, every function defined.
pub open spec fn table_for(ast: Seq<AstNode>, t: SymbolsTable) -> bool {
    &&& t.wf()
    &&& forall|k: int, name: Seq<char>|
        0 <= k < ast.len() && #[trigger] declares_column(ast[k], name) ==> t.symbols.entry(name) == Some(
            None::<Seq<char>>,
        )
    &&& aliases_bound(ast, Builtin::Defalias, t.symbols, ast.len() as int)
    &&& aliases_bound(ast, Builtin::Defunalias, t.funcs, ast.len() as int)
    &&& functions_bound(ast, t.funcs, ast.len() as int)
    &&& forall|n: Seq<char>|
        #[trigger] t.symbols.entry(n) == Some(None::<Seq<char>>) ==> exists|k: int|
            0 <= k < ast.len() && #[trigger] declares_column(ast[k], n)
    &&& forall|n: Seq<char>|
        #[trigger] t.symbols.has(n) ==> declared_columns(ast).contains(n) || alias_defined(
            ast,
            Builtin::Defalias,
            ast.len() as int,
            n,
        )
    &&& forall|n: Seq<char>|
        #[trigger] t.funcs.has(n) ==> defined_functions(ast).contains(n) || alias_defined(
            ast,
            Builtin::Defunalias,
            ast.len() as int,
            n,
        )
    &&& forall|q: int|
        0 <= q < ast.len() && (#[trigger] form_args(ast[q], Builtin::Defun)) is Some ==> fn_stored(
            t,
            defun_name(form_args(ast[q], Builtin::Defun)->Some_0)->Some_0,
            defun_params(form_args(ast[q], Builtin::Defun)->Some_0)->Some_0,
            form_args(ast[q], Builtin::Defun)->Some_0.last(),
        )
}

/// A name resolves, through its aliases, only to a column that some `defcolumns` form declares.
pub proof fn lemma_resolved_column_declared(ast: Seq<AstNode>, t: SymbolsTable, name: Seq<char>)
    requires
        table_for(ast, t),
        sym_resolved(t, name) is Some,
    ensures
        exists|k: int| 0 <= k < ast.len() && #[trigger] declares_column(ast[k], sym_resolved(t, name)->Some_0),
{
    crate::names::lemma_resolved_is_final(t.symbols, name, Seq::empty(), (t.symbols.keys@.len() + 1) as nat);
    let j = crate::names::resolved(t.symbols, name)->Some_0;
    let c = t.symbols.keys@[j]@;
    assert(sym_resolved(t, name) == Some(c));
    assert(t.symbols.entry(c) == Some(None::<Seq<char>>));
    let k = choose|k: int| 0 <= k < ast.len() && #[trigger] declares_column(ast[k], c);
    assert(declares_column(ast[k], sym_resolved(t, name)->Some_0));
}

/// The nesting of calls that lowering allows: one more than the number of functions.
pub open spec fn fuel_for(t: SymbolsTable) -> nat {
    if t.defs@.len() < usize::MAX {
        (t.defs@.len() + 1) as nat
    } else {
        t.defs@.len()
    }
}

proof fn lemma_lower_forms_fails(t: SymbolsTable, ast: Seq<AstNode>, k: nat, m: nat, fuel: nat)
    requires
        0 < k <= m <= ast.len(),
        lower_forms(t, ast, k, fuel) is None,
    ensures
        lower_forms(t, ast, m, fuel) is None,
    decreases m - k,
{
    if k < m {
        lemma_lower_forms_fails(t, ast, k, (m - 1) as nat, fuel);
    }
}

/// The columns that the `defcolumns` forms of `ast` declare.
pub open spec fn declared_columns(ast: Seq<AstNode>) -> Set<Seq<char>> {
    Set::new(|n: Seq<char>| exists|k: int| 0 <= k < ast.len() && #[trigger] declares_column(ast[k], n))
}

/// The functions that the `defun` forms of `ast` define.
pub open spec fn defined_functions(ast: Seq<AstNode>) -> Set<Seq<char>> {
    Set::new(
        |n: Seq<char>|
            exists|q: int|
                0 <= q < ast.len() && (#[trigger] form_args(ast[q], Builtin::Defun)) is Some && defun_name(
                    form_args(ast[q], Builtin::Defun)->Some_0,
                ) == Some(n),
    )
}

/// The declarations of `ast` are accepted: columns are symbols, distinct; functions are
/// well formed, use only their parameters, and are distinct; aliases are well formed and alias
/// names not already taken by a column or function, nor by another alias.
pub open spec fn declarations_ok(ast: Seq<AstNode>) -> bool {
    &&& cols_upto(ast, Set::empty(), ast.len() as int, 0)
    &&& defuns_ok(ast, Set::empty(), ast.len() as int)
    &&& aliases_ok(ast, Builtin::Defalias, declared_columns(ast), ast.len() as int)
    &&& aliases_ok(ast, Builtin::Defunalias, defined_functions(ast), ast.len() as int)
}

/// Compiles parsed forms: declares columns, then functions, then aliases, and lowers every
/// top-level form that is not a declaration into a constraint, in order.
pub fn compile_ast(ast: &Vec<AstNode>) -> (r: Result<ConstraintsSet, CompileError>)
    ensures
        !declarations_ok(ast@) ==> r is Err,
        r is Ok ==> declarations_ok(ast@),
        declarations_ok(ast@) ==> exists|t: SymbolsTable|
            #[trigger] table_for(ast@, t) && (r is Ok <==> lower_forms(t, ast@, ast@.len(), fuel_for(t)) is Some) && (
            r matches Ok(cs) ==> lower_forms(t, ast@, ast@.len(), fuel_for(t)) == Some(terms_seq(cs.constraints@))),
{
    let mut table = SymbolsTable::new();
    assert(table.symbols.key_set() =~= Set::<Seq<char>>::empty());
    assert(table.funcs.key_set() =~= Set::<Seq<char>>::empty());
    let r = register_columns(ast, &mut table);
    if let Err(e) = r {
        return Err(e);
    }
    let ghost t1 = table;
    assert(t1.symbols.key_set() =~= declared_columns(ast@)) by {
        assert forall|n: Seq<char>| t1.symbols.key_set().contains(n) <==> declared_columns(ast@).contains(n) by {
            if declared_columns(ast@).contains(n) {
                let k = choose|k: int| 0 <= k < ast@.len() && #[trigger] declares_column(ast@[k], n);
                assert(t1.symbols.entry(n) == Some(None::<Seq<char>>));
            }
        }
    }
    let r = compile_funcs(ast, &mut table);
    if let Err(e) = r {
        return Err(e);
    }
    let ghost t2 = table;
    assert(t2.funcs.key_set() =~= defined_functions(ast@)) by {
        assert forall|n: Seq<char>| t2.funcs.key_set().contains(n) <==> defined_functions(ast@).contains(n) by {
            if defined_functions(ast@).contains(n) {
                let q = choose|q: int|
                    0 <= q < ast@.len() && (#[trigger] form_args(ast@[q], Builtin::Defun)) is Some && defun_name(
                        form_args(ast@[q], Builtin::Defun)->Some_0,
                    ) == Some(n);
                assert(t2.funcs.has(n));
            }
        }
    }
    let r = compile_aliases(ast, &mut table);
    if let Err(e) = r {
        return Err(e);
    }
    proof {
        assert forall|n: Seq<char>| #[trigger] table.symbols.entry(n) == Some(None::<Seq<char>>) implies exists|k: int|
            0 <= k < ast@.len() && #[trigger] declares_column(ast@[k], n) by {
            assert(t2.symbols.entry(n) == Some(None::<Seq<char>>));
            assert(t1.symbols.has(n));
        }
        assert forall|k: int, name: Seq<char>|
            0 <= k < ast@.len() && #[trigger] declares_column(ast@[k], name) implies table.symbols.entry(name)
                == Some(None::<Seq<char>>) by {
            assert(t2.symbols.entry(name) == Some(None::<Seq<char>>));
            assert(t2.symbols.has(name));
        }
        assert forall|q: int|
            0 <= q < ast@.len() && (#[trigger] form_args(ast@[q], Builtin::Defun)) is Some implies defun_name(
                form_args(ast@[q], Builtin::Defun)->Some_0,
            ) is Some && table.funcs.has(defun_name(form_args(ast@[q], Builtin::Defun)->Some_0)->Some_0) by {
            let n = defun_name(form_args(ast@[q], Builtin::Defun)->Some_0)->Some_0;
            assert(t2.funcs.has(n));
            assert(table.funcs.entry(n) == t2.funcs.entry(n));
        }
        assert forall|n: Seq<char>| #[trigger] table.symbols.has(n) implies declared_columns(ast@).contains(n) || alias_defined(
            ast@,
            Builtin::Defalias,
            ast@.len() as int,
            n,
        ) by {
            if t2.symbols.has(n) {
                assert(t1.symbols.key_set().contains(n));
            }
        }
        assert forall|n: Seq<char>| #[trigger] table.funcs.has(n) implies defined_functions(ast@).contains(n) || alias_defined(
            ast@,
            Builtin::Defunalias,
            ast@.len() as int,
            n,
        ) by {
            if t2.funcs.has(n) {
                assert(t2.funcs.key_set().contains(n));
            }
        }
        assert forall|q: int|
            0 <= q < ast@.len() && (#[trigger] form_args(ast@[q], Builtin::Defun)) is Some implies fn_stored(
                table,
                defun_name(form_args(ast@[q], Builtin::Defun)->Some_0)->Some_0,
                defun_params(form_args(ast@[q], Builtin::Defun)->Some_0)->Some_0,
                form_args(ast@[q], Builtin::Defun)->Some_0.last(),
            ) by {
            let a = form_args(ast@[q], Builtin::Defun)->Some_0;
            assert(fn_stored(t2, defun_name(a)->Some_0, defun_params(a)->Some_0, a.last()));
            let i = choose|i: int|
                0 <= i < t2.defs@.len() && i < t2.funcs.keys@.len() && #[trigger] t2.funcs.keys@[i]@ == defun_name(a)->Some_0
                    && t2.funcs.targets@[i] is None && def_matches(t2.defs@[i], defun_name(a)->Some_0, defun_params(a)->Some_0, a.last());
            assert(table.funcs.keys@[i] == t2.funcs.keys@[i]);
            assert(table.defs@[i] == t2.defs@[i]);
        }
        assert(table_for(ast@, table));
    }
    let fuel = table.defs.len();
    let fuel = if fuel < usize::MAX {
        fuel + 1
    } else {
        fuel
    };
    let mut cs = ConstraintsSet { constraints: Vec::new() };
    let mut k: usize = 0;
    assert(terms_seq(cs.constraints@) =~= Seq::<Term>::empty());
    while k < ast.len()
        invariant
            table.wf(),
            table_for(ast@, table),
            fuel as nat == fuel_for(table),
            k <= ast@.len(),
            lower_forms(table, ast@, k as nat, fuel as nat) == Some(terms_seq(cs.constraints@)),
        decreases ast@.len() - k,
    {
        let ghost before = cs.constraints@;
        match reduce(&table, &ast[k], fuel) {
            Ok(Some(c)) => {
                cs.constraints.push(c);
                assert(terms_seq(cs.constraints@) =~= terms_seq(before).push(term_of(c)));
            },
            Ok(None) => {},
            Err(e) => {
                proof {
                    lemma_lower_forms_fails(table, ast@, (k + 1) as nat, ast@.len(), fuel as nat);
                }
                return Err(e);
            },
        }
        k = k + 1;
    }
    Ok(cs)
}

/// Compiles source text: parses it, then compiles the forms.
pub fn compile(source: &str) -> (r: Result<ConstraintsSet, CompileError>)
    ensures
        crate::parser::forms_from(crate::parser::lex_from(source@, 0), 0) ==> exists|ast: Seq<AstNode>|
            (forall|k: int| 0 <= k < ast.len() ==> crate::parser::well_parsed(#[trigger] ast[k], false))
                && #[trigger] crate::parser::trees_of(ast) == crate::parser::forms_trees(
                crate::parser::lex_from(source@, 0),
                0,
            ) && (!declarations_ok(ast) ==> r is Err) && (r is Ok ==> declarations_ok(ast)) && (declarations_ok(ast)
                ==> exists|t: SymbolsTable|
                #[trigger] table_for(ast, t) && (r is Ok <==> lower_forms(t, ast, ast.len(), fuel_for(t)) is Some) && (
                r matches Ok(cs) ==> lower_forms(t, ast, ast.len(), fuel_for(t)) == Some(terms_seq(cs.constraints@)))),
        !crate::parser::forms_from(crate::parser::lex_from(source@, 0), 0) ==> r == Err::<ConstraintsSet, CompileError>(
            CompileError::Parse,
        ),
{
    let ast = match parse(source) {
        Ok(a) => a,
        Err(e) => {
            return Err(e);
        },
    };
    let r = compile_ast(&ast);
    assert(crate::parser::trees_of(ast@) == crate::parser::forms_trees(crate::parser::lex_from(source@, 0), 0));
    r
}

impl ConstraintsSet {
    /// Compiles source text.
    pub fn from_str(s: &str) -> (r: Result<ConstraintsSet, CompileError>)
        ensures
            crate::parser::forms_from(crate::parser::lex_from(s@, 0), 0) ==> exists|ast: Seq<AstNode>|
                (forall|k: int| 0 <= k < ast.len() ==> crate::parser::well_parsed(#[trigger] ast[k], false))
                    && #[trigger] crate::parser::trees_of(ast) == crate::parser::forms_trees(
                    crate::parser::lex_from(s@, 0),
                    0,
                ) && (!declarations_ok(ast) ==> r is Err) && (r is Ok ==> declarations_ok(ast)) && (declarations_ok(ast)
                    ==> exists|t: SymbolsTable|
                    #[trigger] table_for(ast, t) && (r is Ok <==> lower_forms(t, ast, ast.len(), fuel_for(t)) is Some) && (
                    r matches Ok(cs) ==> lower_forms(t, ast, ast.len(), fuel_for(t)) == Some(terms_seq(cs.constraints@)))),
            !crate::parser::forms_from(crate::parser::lex_from(s@, 0), 0) ==> r == Err::<ConstraintsSet, CompileError>(
                CompileError::Parse,
            ),
    {
        compile(s)
    }
}

} // verus!
