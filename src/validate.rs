//! Validation of every constraint of a set against its trace.
use crate::check::{
    check_constraint, check_plookup, domain_passes, domain_view, lookup_holds,
    ragged, rows_pass, scan_len, side_absent, side_columns, side_wf, any_absent,
};
use crate::column::{ColumnSet, Handle};
use crate::field::Felt;
use crate::names::CompileError;
use crate::parser::Builtin;
use crate::expr::{cols_wf, deps, expr_wf, exprs_wf, lemma_exprs_wf, Expression, Op};
use vstd::prelude::*;

verus! {

/// A lowered constraint.
#[derive(Debug)]
pub enum Constraint {
    /// `expr` is zero on every row of `domain`, or on every row when there is none.
    Vanishes { name: String, domain: Option<Vec<i64>>, expr: Expression },
    /// Every row of `children` appears among the rows of `parents`.
    Plookup { name: String, parents: Vec<Expression>, children: Vec<Expression> },
    /// Not evaluated.
    Permutation { name: String, from: Vec<Handle>, to: Vec<Handle> },
    /// Not evaluated.
    InRange { name: String, expr: Expression, max: u64 },
}

impl Constraint {
    pub open spec fn name_view(&self) -> Seq<char> {
        match self {
            Constraint::Vanishes { name, .. } => name@,
            Constraint::Plookup { name, .. } => name@,
            Constraint::Permutation { name, .. } => name@,
            Constraint::InRange { name, .. } => name@,
        }
    }

    pub fn name(&self) -> (r: &String)
        ensures
            r@ == self.name_view(),
    {
        match self {
            Constraint::Vanishes { name, .. } => name,
            Constraint::Plookup { name, .. } => name,
            Constraint::Permutation { name, .. } => name,
            Constraint::InRange { name, .. } => name,
        }
    }
}

/// The constraints of a program together with the columns of its trace.
#[derive(Debug)]
pub struct ConstraintSet {
    pub columns: ColumnSet,
    pub constraints: Vec<Constraint>,
}

/// The expressions of `c` read only columns of a set of `n` columns.
pub open spec fn constraint_wf(c: Constraint, n: nat) -> bool {
    match c {
        Constraint::Vanishes { expr, .. } => expr_wf(expr, n),
        Constraint::Plookup { parents, children, .. } => side_wf(parents@, n) && side_wf(children@, n),
        Constraint::Permutation { .. } => true,
        Constraint::InRange { expr, .. } => expr_wf(expr, n),
    }
}

impl ConstraintSet {
    pub open spec fn wf(&self) -> bool {
        &&& self.columns.wf()
        &&& forall|k: int|
            0 <= k < self.constraints@.len() ==> constraint_wf(
                #[trigger] self.constraints@[k],
                self.columns.cols@.len(),
            )
    }
}

/// A vanishing expression holds: a column it reads is unfilled, or every row passes.
pub open spec fn vanishing_holds(e: Expression, domain: Option<Seq<i64>>, cols: Seq<crate::column::Column>) -> bool {
    let ds = deps(e);
    any_absent(ds, cols) || (scan_len(ds, cols) != 0 && match domain {
        Some(d) => domain_passes(e, d, cols),
        None => rows_pass(e, scan_len(ds, cols), cols),
    })
}

/// Every member of a list, each its own vanishing expression, holds on the first `k` members.
pub open spec fn members_hold(es: Seq<Expression>, domain: Option<Seq<i64>>, cols: Seq<crate::column::Column>, k: int) -> bool {
    forall|j: int| 0 <= j < k ==> vanishing_holds(#[trigger] es[j], domain, cols)
}

/// A lookup holds: same arity, every column filled, columns of equal length, rows found.
pub open spec fn plookup_holds(parents: Seq<Expression>, children: Seq<Expression>, cols: Seq<crate::column::Column>) -> bool {
    let p = side_columns(parents, cols);
    let c = side_columns(children, cols);
    parents.len() == children.len() && !side_absent(parents, cols) && !side_absent(children, cols)
        && !ragged(p) && !ragged(c) && lookup_holds(p, c)
}

pub open spec fn inv_name() -> Seq<char> {
    seq!['I', 'N', 'V', '_', 'C', 'O', 'N', 'S', 'T', 'R', 'A', 'I', 'N', 'T', 'S']
}

/// Whether constraint `c` fails on the trace `cols`.
pub open spec fn constraint_fails(c: Constraint, cols: Seq<crate::column::Column>) -> bool {
    match c {
        Constraint::Vanishes { name, domain, expr } => {
            if name@ == inv_name() || expr is Void {
                false
            } else {
                match expr {
                    Expression::List(es) => !members_hold(es@, domain_view(domain), cols, es@.len() as int),
                    _ => !vanishing_holds(expr, domain_view(domain), cols),
                }
            }
        },
        Constraint::Plookup { parents, children, .. } => !plookup_holds(parents@, children@, cols),
        _ => false,
    }
}

pub open spec fn names_view(v: Seq<String>) -> Seq<Seq<char>> {
    v.map_values(|s: String| s@)
}

/// A constraint named `name` is checked: `only` names it (or is absent) and `skip` does not.
pub open spec fn selected(name: Seq<char>, only: Option<Seq<Seq<char>>>, skip: Seq<Seq<char>>) -> bool {
    (match only {
        Some(o) => o.contains(name),
        None => true,
    }) && !skip.contains(name)
}

/// The names of the failing, selected constraints among the first `k`, each once, in order of
/// first failure.
pub open spec fn failing_names(
    cs: Seq<Constraint>,
    cols: Seq<crate::column::Column>,
    only: Option<Seq<Seq<char>>>,
    skip: Seq<Seq<char>>,
    k: nat,
) -> Seq<Seq<char>>
    decreases k,
{
    if k == 0 || k > cs.len() {
        Seq::empty()
    } else {
        let prev = failing_names(cs, cols, only, skip, (k - 1) as nat);
        let c = cs[k - 1];
        if selected(c.name_view(), only, skip) && constraint_fails(c, cols) && !prev.contains(c.name_view()) {
            prev.push(c.name_view())
        } else {
            prev
        }
    }
}

pub open spec fn only_view(only: Option<Vec<String>>) -> Option<Seq<Seq<char>>> {
    match only {
        Some(o) => Some(names_view(o@)),
        None => None,
    }
}

fn contains_name(v: &Vec<String>, name: &String) -> (r: bool)
    ensures
        r == names_view(v@).contains(name@),
{
    let mut k: usize = 0;
    while k < v.len()
        invariant
            k <= v@.len(),
            forall|j: int| 0 <= j < k ==> (#[trigger] v@[j])@ != name@,
        decreases v@.len() - k,
    {
        if v[k] == *name {
            assert(names_view(v@)[k as int] == name@);
            return true;
        }
        k = k + 1;
    }
    proof {
        if names_view(v@).contains(name@) {
            let j = choose|j: int| 0 <= j < names_view(v@).len() && names_view(v@)[j] == name@;
            assert(v@[j]@ == name@);
        }
    }
    false
}

fn check_vanishing(e: &Expression, domain: &Option<Vec<i64>>, cols: &ColumnSet) -> (r: bool)
    requires
        expr_wf(*e, cols.cols@.len()),
        cols_wf(cols.cols@),
    ensures
        r == vanishing_holds(*e, domain_view(*domain), cols.cols@),
{
    let out = check_constraint(e, domain, &cols.cols);
    out.is_ok()
}

/// Whether constraint `c` fails on the columns of `cols`.
pub fn fails(c: &Constraint, cols: &ColumnSet) -> (r: bool)
    requires
        constraint_wf(*c, cols.cols@.len()),
        cols_wf(cols.cols@),
    ensures
        r == constraint_fails(*c, cols.cols@),
{
    match c {
        Constraint::Vanishes { name, domain, expr } => {
            let inv = "INV_CONSTRAINTS".to_owned();
            proof {
                reveal_strlit("INV_CONSTRAINTS");
                assert(inv@ =~= inv_name());
            }
            if *name == inv {
                return false;
            }
            match expr {
                Expression::Void => false,
                Expression::List(es) => {
                    let mut k: usize = 0;
                    while k < es.len()
                        invariant
                            k <= es@.len(),
                            *c == (Constraint::Vanishes { name: *name, domain: *domain, expr: *expr }),
                            *expr == Expression::List(*es),
                            name@ != inv_name(),
                            exprs_wf(*es, cols.cols@.len(), es@.len()),
                            cols_wf(cols.cols@),
                            members_hold(es@, domain_view(*domain), cols.cols@, k as int),
                        decreases es@.len() - k,
                    {
                        proof {
                            lemma_exprs_wf(*es, cols.cols@.len(), es@.len(), k as int);
                        }
                        if !check_vanishing(&es[k], domain, cols) {
                            assert(!members_hold(es@, domain_view(*domain), cols.cols@, es@.len() as int));
                            return true;
                        }
                        k = k + 1;
                    }
                    false
                },
                _ => !check_vanishing(expr, domain, cols),
            }
        },
        Constraint::Plookup { parents, children, .. } => {
            let out = check_plookup(parents, children, &cols.cols);
            out.is_err()
        },
        _ => false,
    }
}

/// Checks every selected constraint of `cs`; on failure returns the names of those that fail,
/// each once, in increasing order.
pub fn check(cs: &ConstraintSet, only: &Option<Vec<String>>, skip: &Vec<String>) -> (r: Result<
    (),
    Vec<String>,
>)
    requires
        cs.wf(),
    ensures
        cs.columns.cols@.len() == 0 ==> r is Ok,
        cs.columns.cols@.len() > 0 ==> {
            let names = failing_names(
                cs.constraints@,
                cs.columns.cols@,
                only_view(*only),
                names_view(skip@),
                cs.constraints@.len(),
            );
            &&& r is Ok <==> names.len() == 0
            &&& r matches Err(v) ==> names_view(v@).to_set() == names.to_set() && strictly_sorted(names_view(v@))
        },
{
    if cs.columns.is_empty() {
        return Ok(());
    }
    let mut failed: Vec<String> = Vec::new();
    let mut k: usize = 0;
    assert(names_view(failed@).to_set() =~= Seq::<Seq<char>>::empty().to_set());
    while k < cs.constraints.len()
        invariant
            k <= cs.constraints@.len(),
            cs.wf(),
            names_view(failed@).to_set() == failing_names(
                cs.constraints@,
                cs.columns.cols@,
                only_view(*only),
                names_view(skip@),
                k as nat,
            ).to_set(),
            names_view(failed@).len() == failing_names(
                cs.constraints@,
                cs.columns.cols@,
                only_view(*only),
                names_view(skip@),
                k as nat,
            ).len(),
            strictly_sorted(names_view(failed@)),
        decreases cs.constraints@.len() - k,
    {
        let c = &cs.constraints[k];
        let name = c.name();
        let chosen = is_selected(name, only, skip);
        assert(constraint_wf(*c, cs.columns.cols@.len()));
        let ghost prev = failing_names(
            cs.constraints@,
            cs.columns.cols@,
            only_view(*only),
            names_view(skip@),
            k as nat,
        );
        if chosen && fails(c, &cs.columns) {
            if !contains_name(&failed, name) {
                assert(!names_view(failed@).to_set().contains(name@));
                insert_sorted(&mut failed, name.clone());
                assert forall|x: Seq<char>| prev.push(c.name_view()).contains(x) <==> (prev.contains(x) || x == c.name_view()) by {
                    if prev.push(c.name_view()).contains(x) {
                        let j = choose|j: int| 0 <= j < prev.len() + 1 && prev.push(c.name_view())[j] == x;
                        if j < prev.len() {
                            assert(prev[j] == x);
                        }
                    }
                    if prev.contains(x) {
                        let j = choose|j: int| 0 <= j < prev.len() && prev[j] == x;
                        assert(prev.push(c.name_view())[j] == x);
                    }
                    if x == c.name_view() {
                        assert(prev.push(c.name_view())[prev.len() as int] == x);
                    }
                }
                assert(prev.push(c.name_view()).to_set() =~= prev.to_set().insert(c.name_view()));
            } else {
                assert(names_view(failed@).to_set().contains(name@));
                assert(prev.contains(name@));
            }
        }
        k = k + 1;
    }
    if failed.len() == 0 {
        Ok(())
    } else {
        Err(failed)
    }
}

/// The checked operator of a built-in, if it is an operator.
pub open spec fn op_of(b: Builtin) -> Option<Op> {
    match b {
        Builtin::Add => Some(Op::Add),
        Builtin::Sub => Some(Op::Sub),
        Builtin::Mul => Some(Op::Mul),
        Builtin::Equals => Some(Op::Equals),
        _ => None,
    }
}

/// The column of `module` named `name` is in `cols`.
pub open spec fn has_column(cols: Seq<crate::column::Column>, module: Seq<char>, name: Seq<char>) -> bool {
    exists|k: int| 0 <= k < cols.len() && #[trigger] cols[k].handle.module@ == module && cols[k].handle.name@ == name
}

/// Every column name of `c` names a column of `module` in `cols`, and every call is an operator.
pub open spec fn bindable(c: crate::parser::Constraint, module: Seq<char>, cols: Seq<crate::column::Column>) -> bool
    decreases c, 0nat,
{
    match c {
        crate::parser::Constraint::Const(_) => true,
        crate::parser::Constraint::Column(name) => has_column(cols, module, name@),
        crate::parser::Constraint::Funcall { func, args } => op_of(func) is Some && bindable_all(args, args@.len(), module, cols),
    }
}

pub open spec fn bindable_all(args: Vec<crate::parser::Constraint>, k: nat, module: Seq<char>, cols: Seq<crate::column::Column>) -> bool
    decreases args, k,
{
    if k == 0 || k > args@.len() {
        true
    } else {
        bindable_all(args, (k - 1) as nat, module, cols) && bindable(args@[k - 1], module, cols)
    }
}

/// `e` is `c` bound: constants embedded in the field, each column name replaced by the index of
/// its column in `module`, unshifted, and each operator kept.
pub open spec fn binds(c: crate::parser::Constraint, module: Seq<char>, cols: Seq<crate::column::Column>, e: Expression) -> bool
    decreases c, 0nat,
{
    match c {
        crate::parser::Constraint::Const(v) => e matches Expression::Const(f) && f.val() == crate::field::embed_int(v as int),
        crate::parser::Constraint::Column(name) => match e {
            Expression::Column { handle, id, shift } => shift == 0 && id < cols.len() && cols[id as int].handle.module@
                == module && cols[id as int].handle.name@ == name@ && handle.module@ == module && handle.name@ == name@,
            _ => false,
        },
        crate::parser::Constraint::Funcall { func, args } => match e {
            Expression::Funcall(op, es) => op_of(func) == Some(op) && es@.len() == args@.len() && binds_all(args, module, cols, es, args@.len()),
            _ => false,
        },
    }
}

pub open spec fn binds_all(
    args: Vec<crate::parser::Constraint>,
    module: Seq<char>,
    cols: Seq<crate::column::Column>,
    es: Vec<Expression>,
    k: nat,
) -> bool
    decreases args, k,
{
    if k == 0 || k > args@.len() {
        true
    } else {
        binds_all(args, module, cols, es, (k - 1) as nat) && k <= es@.len() && binds(args@[k - 1], module, cols, es@[k - 1])
    }
}

proof fn lemma_binds_all_same(args: Vec<crate::parser::Constraint>, module: Seq<char>, cols: Seq<crate::column::Column>, a: Vec<Expression>, b: Vec<Expression>, k: nat)
    requires
        k <= a@.len(),
        k <= b@.len(),
        forall|j: int| 0 <= j < k ==> a@[j] == b@[j],
    ensures
        binds_all(args, module, cols, a, k) == binds_all(args, module, cols, b, k),
    decreases k,
{
    if k > 0 {
        lemma_binds_all_same(args, module, cols, a, b, (k - 1) as nat);
    }
}

proof fn lemma_bindable_all_prefix(args: Vec<crate::parser::Constraint>, k: nat, m: nat, module: Seq<char>, cols: Seq<crate::column::Column>)
    requires
        m <= k <= args@.len(),
        bindable_all(args, k, module, cols),
    ensures
        bindable_all(args, m, module, cols),
    decreases k - m,
{
    if m < k {
        lemma_bindable_all_prefix(args, (k - 1) as nat, m, module, cols);
    }
}

/// Binds a compiled expression to the columns of `module` in `cols`: every column name becomes a
/// reference to its index, every constant a field element.
pub fn bind(c: &crate::parser::Constraint, module: &String, cols: &ColumnSet) -> (r: Result<Expression, CompileError>)
    ensures
        r matches Ok(e) ==> expr_wf(e, cols.cols@.len()),
        r is Ok <==> bindable(*c, module@, cols.cols@),
        r matches Ok(e) ==> binds(*c, module@, cols.cols@, e),
    decreases c,
{
    match c {
        crate::parser::Constraint::Const(v) => Ok(Expression::Const(Felt::from_i32(*v))),
        crate::parser::Constraint::Column(name) => {
            let h = Handle { module: module.clone(), name: name.clone() };
            match cols.position(&h) {
                Some(id) => Ok(Expression::Column { handle: h, id, shift: 0 }),
                None => {
                    assert(!has_column(cols.cols@, module@, name@));
                    Err(CompileError::UnknownSymbol(name.clone()))
                },
            }
        },
        crate::parser::Constraint::Funcall { func, args } => {
            let op = match func {
                Builtin::Add => Op::Add,
                Builtin::Sub => Op::Sub,
                Builtin::Mul => Op::Mul,
                Builtin::Equals => Op::Equals,
                _ => {
                    return Err(CompileError::InvalidDecl);
                },
            };
            let mut out: Vec<Expression> = Vec::new();
            let mut k: usize = 0;
            while k < args.len()
                invariant
                    k <= args@.len(),
                    out@.len() == k,
                    decreases_to!(*c => *args),
                    *c == (crate::parser::Constraint::Funcall { func: *func, args: *args }),
                    forall|j: int| 0 <= j < k ==> expr_wf(#[trigger] out@[j], cols.cols@.len()),
                    bindable_all(*args, k as nat, module@, cols.cols@),
                    binds_all(*args, module@, cols.cols@, out, k as nat),
                decreases args@.len() - k,
            {
                let ghost before = out;
                match bind(&args[k], module, cols) {
                    Ok(e) => {
                        out.push(e);
                        proof {
                            lemma_binds_all_same(*args, module@, cols.cols@, before, out, k as nat);
                        }
                    },
                    Err(err) => {
                        proof {
                            if bindable_all(*args, args@.len(), module@, cols.cols@) {
                                lemma_bindable_all_prefix(*args, args@.len(), (k + 1) as nat, module@, cols.cols@);
                            }
                        }
                        return Err(err);
                    },
                }
                k = k + 1;
            }
            proof {
                lemma_exprs_wf_all(out, cols.cols@.len(), out@.len());
            }
            Ok(Expression::Funcall(op, out))
        },
    }
}

proof fn lemma_exprs_wf_all(es: Vec<Expression>, n: nat, k: nat)
    requires
        k <= es@.len(),
        forall|j: int| 0 <= j < es@.len() ==> expr_wf(#[trigger] es@[j], n),
    ensures
        exprs_wf(es, n, k),
    decreases k,
{
    if k > 0 {
        lemma_exprs_wf_all(es, n, (k - 1) as nat);
    }
}

fn side_ok(es: &Vec<Expression>, n: usize) -> (r: bool)
    ensures
        r == side_wf(es@, n as nat),
{
    let mut k: usize = 0;
    while k < es.len()
        invariant
            k <= es@.len(),
            forall|j: int| 0 <= j < k ==> expr_wf(#[trigger] es@[j], n as nat),
        decreases es@.len() - k,
    {
        if !crate::expr::expr_ok(&es[k], n) {
            return false;
        }
        k = k + 1;
    }
    true
}

/// Whether the expressions of `c` read only columns of a set of `n` columns.
pub fn constraint_ok(c: &Constraint, n: usize) -> (r: bool)
    ensures
        r == constraint_wf(*c, n as nat),
{
    match c {
        Constraint::Vanishes { expr, .. } => crate::expr::expr_ok(expr, n),
        Constraint::Plookup { parents, children, .. } => side_ok(parents, n) && side_ok(children, n),
        Constraint::Permutation { .. } => true,
        Constraint::InRange { expr, .. } => crate::expr::expr_ok(expr, n),
    }
}

impl ConstraintSet {
    /// Whether the set is well formed: distinct, valid columns, and expressions that read only them.
    pub fn well_formed(&self) -> (r: bool)
        ensures
            r == self.wf(),
    {
        if !self.columns.is_wf() {
            return false;
        }
        let n = self.columns.cols.len();
        let mut k: usize = 0;
        while k < self.constraints.len()
            invariant
                k <= self.constraints@.len(),
                n == self.columns.cols@.len(),
                forall|j: int| 0 <= j < k ==> constraint_wf(#[trigger] self.constraints@[j], n as nat),
            decreases self.constraints@.len() - k,
        {
            if !constraint_ok(&self.constraints[k], n) {
                return false;
            }
            k = k + 1;
        }
        true
    }
}

/// Whether a constraint named `name` is checked under `only` and `skip`.
pub fn is_selected(name: &String, only: &Option<Vec<String>>, skip: &Vec<String>) -> (r: bool)
    ensures
        r == selected(name@, only_view(*only), names_view(skip@)),
{
    (match only {
        Some(o) => contains_name(o, name),
        None => true,
    }) && !contains_name(skip, name)
}

/// The decimal digits of `n`, most significant first.
pub open spec fn decimal_digits(n: nat) -> Seq<char>
    decreases n,
{
    let d = (('0' as u32) + (n % 10) as u32) as char;
    if n < 10 {
        seq![d]
    } else {
        decimal_digits(n / 10).push(d)
    }
}

fn push_decimal(out: &mut Vec<char>, n: usize)
    ensures
        final(out)@ == old(out)@ + decimal_digits(n as nat),
    decreases n,
{
    if n >= 10 {
        push_decimal(out, n / 10);
    }
    let d = ((('0' as u32) + (n % 10) as u32) as u8) as char;
    assert(d == (('0' as u32) + (n % 10) as u32) as char);
    out.push(d);
    proof {
        if n >= 10 {
            assert(final(out)@ =~= old(out)@ + decimal_digits((n / 10) as nat).push(d));
        } else {
            assert(final(out)@ =~= old(out)@ + seq![d]);
        }
    }
}

/// The decimal representation of `n`.
pub fn decimal_name(n: usize) -> (r: String)
    ensures
        r@ == decimal_digits(n as nat),
{
    let mut out: Vec<char> = Vec::new();
    push_decimal(&mut out, n);
    assert(out@ =~= decimal_digits(n as nat));
    crate::text::string_of(&out)
}

/// Binds every compiled constraint of `cs` to the columns of `module`, each a vanishing
/// constraint over all rows named by its position.
pub fn assemble(cs: &crate::parser::ConstraintsSet, module: &String, columns: ColumnSet) -> (r: Result<ConstraintSet, CompileError>)
    requires
        columns.wf(),
    ensures
        r is Ok <==> forall|k: int| 0 <= k < cs.constraints@.len() ==> bindable(#[trigger] cs.constraints@[k], module@, columns.cols@),
        r matches Ok(set) ==> {
            &&& set.wf()
            &&& set.columns == columns
            &&& set.constraints@.len() == cs.constraints@.len()
            &&& forall|k: int| 0 <= k < cs.constraints@.len() ==> match #[trigger] set.constraints@[k] {
                Constraint::Vanishes { name, domain, expr } => name@ == decimal_digits(k as nat) && domain is None
                    && binds(cs.constraints@[k], module@, columns.cols@, expr),
                _ => false,
            }
        },
{
    let mut out: Vec<Constraint> = Vec::new();
    let mut k: usize = 0;
    while k < cs.constraints.len()
        invariant
            k <= cs.constraints@.len(),
            out@.len() == k,
            columns.wf(),
            forall|j: int| 0 <= j < k ==> bindable(#[trigger] cs.constraints@[j], module@, columns.cols@),
            forall|j: int| 0 <= j < k ==> constraint_wf(#[trigger] out@[j], columns.cols@.len()),
            forall|j: int| 0 <= j < k ==> match #[trigger] out@[j] {
                Constraint::Vanishes { name, domain, expr } => name@ == decimal_digits(j as nat) && domain is None
                    && binds(cs.constraints@[j], module@, columns.cols@, expr),
                _ => false,
            },
        decreases cs.constraints@.len() - k,
    {
        match bind(&cs.constraints[k], module, &columns) {
            Ok(e) => {
                out.push(Constraint::Vanishes { name: decimal_name(k), domain: None, expr: e });
            },
            Err(err) => {
                return Err(err);
            },
        }
        k = k + 1;
    }
    let set = ConstraintSet { columns, constraints: out };
    assert(set.wf());
    Ok(set)
}

/// `a` comes strictly before `b` in lexicographic order of characters.
pub open spec fn name_lt(a: Seq<char>, b: Seq<char>) -> bool
    decreases a.len(),
{
    if a.len() == 0 {
        b.len() > 0
    } else if b.len() == 0 {
        false
    } else if a[0] != b[0] {
        a[0] < b[0]
    } else {
        name_lt(a.drop_first(), b.drop_first())
    }
}

proof fn lemma_name_lt_trans(a: Seq<char>, b: Seq<char>, c: Seq<char>)
    requires
        name_lt(a, b),
        name_lt(b, c),
    ensures
        name_lt(a, c),
    decreases a.len(),
{
    if a.len() > 0 && b.len() > 0 && c.len() > 0 && a[0] == b[0] && b[0] == c[0] {
        lemma_name_lt_trans(a.drop_first(), b.drop_first(), c.drop_first());
    }
}

proof fn lemma_name_lt_total(a: Seq<char>, b: Seq<char>)
    ensures
        a != b ==> name_lt(a, b) || name_lt(b, a),
        !(name_lt(a, b) && name_lt(b, a)),
    decreases a.len(),
{
    if a.len() > 0 && b.len() > 0 {
        lemma_name_lt_total(a.drop_first(), b.drop_first());
        if a[0] == b[0] {
            assert(name_lt(a, b) == name_lt(a.drop_first(), b.drop_first()));
            assert(name_lt(b, a) == name_lt(b.drop_first(), a.drop_first()));
        }
        if a[0] == b[0] && a != b {
            assert(a =~= seq![a[0]] + a.drop_first());
            assert(b =~= seq![b[0]] + b.drop_first());
        }
    } else if a.len() == 0 && b.len() == 0 {
        assert(a =~= b);
    }
}

fn less_than(a: &String, b: &String) -> (r: bool)
    ensures
        r == name_lt(a@, b@),
{
    let x = crate::text::chars_of(a.as_str());
    let y = crate::text::chars_of(b.as_str());
    let mut k: usize = 0;
    assert(x@.subrange(0, x@.len() as int) =~= x@);
    assert(y@.subrange(0, y@.len() as int) =~= y@);
    assert(x@.subrange(0, 0) =~= y@.subrange(0, 0));
    while k < x.len() && k < y.len() && x[k] == y[k]
        invariant
            k <= x@.len(),
            k <= y@.len(),
            x@.subrange(0, k as int) == y@.subrange(0, k as int),
            name_lt(x@, y@) == name_lt(x@.subrange(k as int, x@.len() as int), y@.subrange(k as int, y@.len() as int)),
        decreases x@.len() - k,
    {
        proof {
            let xs = x@.subrange(k as int, x@.len() as int);
            let ys = y@.subrange(k as int, y@.len() as int);
            assert(xs.drop_first() =~= x@.subrange(k + 1, x@.len() as int));
            assert(ys.drop_first() =~= y@.subrange(k + 1, y@.len() as int));
            assert(x@.subrange(0, k + 1) =~= x@.subrange(0, k as int).push(x@[k as int]));
            assert(y@.subrange(0, k + 1) =~= y@.subrange(0, k as int).push(y@[k as int]));
        }
        k = k + 1;
    }
    proof {
        assert(x@.subrange(0, x@.len() as int) =~= x@);
        assert(y@.subrange(0, y@.len() as int) =~= y@);
    }
    if k == x.len() {
        k < y.len()
    } else if k == y.len() {
        false
    } else {
        x[k] < y[k]
    }
}

/// The names are in strictly increasing order.
pub open spec fn strictly_sorted(v: Seq<Seq<char>>) -> bool {
    forall|i: int, j: int| 0 <= i < j < v.len() ==> name_lt(#[trigger] v[i], #[trigger] v[j])
}

/// Inserts `name` at its place in a strictly sorted list that does not hold it.
fn insert_sorted(v: &mut Vec<String>, name: String)
    requires
        strictly_sorted(names_view(old(v)@)),
        !names_view(old(v)@).contains(name@),
    ensures
        strictly_sorted(names_view(final(v)@)),
        names_view(final(v)@).to_set() == names_view(old(v)@).to_set().insert(name@),
        names_view(final(v)@).len() == names_view(old(v)@).len() + 1,
{
    let ghost old_names = names_view(v@);
    let mut p: usize = 0;
    while p < v.len() && less_than(&v[p], &name)
        invariant
            p <= v@.len(),
            names_view(v@) == old_names,
            forall|i: int| 0 <= i < p ==> name_lt(#[trigger] old_names[i], name@),
        decreases v@.len() - p,
    {
        p = p + 1;
    }
    proof {
        assert forall|i: int| p <= i < old_names.len() implies name_lt(name@, #[trigger] old_names[i]) by {
            lemma_name_lt_total(old_names[p as int], name@);
            assert(old_names[p as int] != name@);
            if i > p {
                lemma_name_lt_trans(name@, old_names[p as int], old_names[i]);
            }
        }
    }
    v.insert(p, name);
    proof {
        let nv = names_view(v@);
        assert(nv =~= old_names.insert(p as int, name@));
        assert forall|i: int, j: int| 0 <= i < j < nv.len() implies name_lt(#[trigger] nv[i], #[trigger] nv[j]) by {
            if j < p {
            } else if j == p {
            } else if i < p {
                lemma_name_lt_trans(nv[i], name@, nv[j]);
            } else if i == p {
            } else {
            }
        }
        assert(nv.to_set() =~= old_names.to_set().insert(name@)) by {
            assert forall|x: Seq<char>| nv.to_set().contains(x) <==> old_names.to_set().insert(name@).contains(x) by {
                if nv.contains(x) {
                    let k = choose|k: int| 0 <= k < nv.len() && nv[k] == x;
                    if k < p {
                        assert(old_names[k] == x);
                    } else if k > p {
                        assert(old_names[k - 1] == x);
                    }
                }
                if old_names.contains(x) {
                    let k = choose|k: int| 0 <= k < old_names.len() && old_names[k] == x;
                    if k < p {
                        assert(nv[k] == x);
                    } else {
                        assert(nv[k + 1] == x);
                    }
                }
                if x == name@ {
                    assert(nv[p as int] == x);
                }
            }
        }
    }
}

} // verus!
