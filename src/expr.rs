//! The lowered polynomial expressions and their evaluation over a trace.
use crate::column::{row_at, values_of, Column, Handle};
use crate::field::{modulus, Felt};
use vstd::prelude::*;

verus! {

/// The built-in operators that survive lowering.
#[derive(Clone, Copy, Debug, PartialEq, Eq, Structural)]
pub enum Op {
    Add,
    Sub,
    Mul,
    Equals,
}

/// A polynomial expression over the columns of a trace.
#[derive(Debug)]
pub enum Expression {
    Const(Felt),
    /// A column, bound to its index in the column set, read at the row shifted by `shift`.
    Column { handle: Handle, id: usize, shift: i64 },
    List(Vec<Expression>),
    Funcall(Op, Vec<Expression>),
    Void,
}

/// Every column index is below `n` and every constant is a field element.
pub open spec fn expr_wf(e: Expression, n: nat) -> bool
    decreases e, 0nat,
{
    match e {
        Expression::Const(c) => c.wf(),
        Expression::Column { id, .. } => id < n,
        Expression::List(es) => exprs_wf(es, n, es@.len()),
        Expression::Funcall(_, es) => exprs_wf(es, n, es@.len()),
        Expression::Void => true,
    }
}

pub open spec fn exprs_wf(es: Vec<Expression>, n: nat, k: nat) -> bool
    decreases es, k,
{
    if k == 0 || k > es@.len() {
        k == 0
    } else {
        exprs_wf(es, n, (k - 1) as nat) && expr_wf(es@[k - 1], n)
    }
}

/// Combines two field values under an operator (`Equals` is a subtraction).
pub open spec fn combine(op: Op, a: int, b: int) -> int {
    match op {
        Op::Add => (a + b) % modulus(),
        Op::Mul => (a * b) % modulus(),
        Op::Sub | Op::Equals => (a - b) % modulus(),
    }
}

/// The value of `e` at row `i`; `None` where a column has no value there.
pub open spec fn eval_spec(e: Expression, i: int, cols: Seq<Column>, wrap: bool) -> Option<int>
    decreases e, 0nat,
{
    match e {
        Expression::Const(c) => Some(c.val()),
        Expression::Column { id, shift, .. } => if id < cols.len() {
            match row_at(values_of(cols[id as int]), i + shift, wrap) {
                Some(f) => Some(f.val()),
                None => None,
            }
        } else {
            None
        },
        Expression::List(es) => eval_list(es, es@.len(), i, cols, wrap),
        Expression::Funcall(op, es) => eval_args(op, es, es@.len(), i, cols, wrap),
        Expression::Void => None,
    }
}

/// Folds `op` over the first `k` arguments, left to right; `None` as soon as one is missing.
pub open spec fn eval_args(
    op: Op,
    es: Vec<Expression>,
    k: nat,
    i: int,
    cols: Seq<Column>,
    wrap: bool,
) -> Option<int>
    decreases es, k,
{
    if k == 0 || k > es@.len() {
        match op {
            Op::Mul => Some(1),
            _ => Some(0),
        }
    } else if k == 1 {
        eval_spec(es@[0], i, cols, wrap)
    } else {
        match (eval_args(op, es, (k - 1) as nat, i, cols, wrap), eval_spec(es@[k - 1], i, cols, wrap)) {
            (Some(a), Some(b)) => Some(combine(op, a, b)),
            _ => None,
        }
    }
}

/// The first of the first `k` members that does not evaluate to zero, or zero.
pub open spec fn eval_list(es: Vec<Expression>, k: nat, i: int, cols: Seq<Column>, wrap: bool) -> Option<int>
    decreases es, k,
{
    if k == 0 || k > es@.len() {
        Some(0)
    } else {
        let prev = eval_list(es, (k - 1) as nat, i, cols, wrap);
        if prev == Some(0int) {
            eval_spec(es@[k - 1], i, cols, wrap)
        } else {
            prev
        }
    }
}

/// Rows that a trace can index, with room for any shift.
pub open spec fn row_in_range(i: int) -> bool {
    -0x1_0000_0000_0000_0000 <= i <= 0x1_0000_0000_0000_0000
}

pub open spec fn opt_val(r: Option<Felt>) -> Option<int> {
    match r {
        Some(f) => Some(f.val()),
        None => None,
    }
}

pub open spec fn felt_ok(r: Option<Felt>) -> bool {
    r matches Some(f) ==> f.wf()
}

/// Every column of the set holds field elements.
pub open spec fn cols_wf(cols: Seq<Column>) -> bool {
    forall|k: int| 0 <= k < cols.len() ==> crate::column::column_wf(#[trigger] cols[k])
}

pub proof fn lemma_exprs_wf(es: Vec<Expression>, n: nat, k: nat, j: int)
    requires
        exprs_wf(es, n, k),
        0 <= j < k,
    ensures
        expr_wf(es@[j], n),
    decreases k,
{
    if j < k - 1 {
        lemma_exprs_wf(es, n, (k - 1) as nat, j);
    }
}

fn combine_exec(op: Op, a: &Felt, b: &Felt) -> (r: Felt)
    requires
        a.wf(),
        b.wf(),
    ensures
        r.wf(),
        r.val() == combine(op, a.val(), b.val()),
{
    match op {
        Op::Add => a.add(b),
        Op::Mul => a.mul(b),
        Op::Sub | Op::Equals => a.sub(b),
    }
}

/// Evaluates `e` at row `i`, reading columns from `cols`.
pub fn eval(e: &Expression, i: i128, cols: &Vec<Column>, wrap: bool) -> (r: Option<Felt>)
    requires
        row_in_range(i as int),
        expr_wf(*e, cols@.len()),
        cols_wf(cols@),
    ensures
        felt_ok(r),
        opt_val(r) == eval_spec(*e, i as int, cols@, wrap),
    decreases e,
{
    match e {
        Expression::Const(c) => Some(*c),
        Expression::Column { id, shift, .. } => {
            let r = cols[*id].get_wide(i + *shift as i128, wrap);
            proof {
                let c = cols@[*id as int];
                if let Some(v) = c.values {
                    if let Some(f) = r {
                        let row = i as int + *shift as int;
                        if 0 <= row < v@.len() {
                            assert(v@[row].wf());
                        } else {
                            vstd::arithmetic::div_mod::lemma_mod_bound(row, v@.len() as int);
                            assert(v@[row % (v@.len() as int)].wf());
                        }
                    }
                }
            }
            r
        },
        Expression::List(es) => {
            let mut k: usize = 0;
            let mut acc: Option<Felt> = Some(Felt::zero());
            while k < es.len()
                invariant
                    k <= es@.len(),
                    row_in_range(i as int),
                    *e == Expression::List(*es),
                    exprs_wf(*es, cols@.len(), es@.len()),
                    cols_wf(cols@),
                    felt_ok(acc),
                    opt_val(acc) == eval_list(*es, k as nat, i as int, cols@, wrap),
                decreases es@.len() - k,
            {
                proof {
                    lemma_exprs_wf(*es, cols@.len(), es@.len(), k as int);
                }
                let is_zero = match &acc {
                    Some(a) => a.is_zero(),
                    None => false,
                };
                if is_zero {
                    proof {
                        assert(decreases_to!(*e => (*e)->List_0));
                    }
                    acc = eval(&es[k], i, cols, wrap);
                }
                k = k + 1;
            }
            acc
        },
        Expression::Funcall(op, es) => {
            if es.len() == 0 {
                return match op {
                    Op::Mul => Some(Felt::from_u64(1)),
                    _ => Some(Felt::zero()),
                };
            }
            proof {
                lemma_exprs_wf(*es, cols@.len(), es@.len(), 0);
                assert(decreases_to!(*e => es[0]));
            }
            let mut acc = eval(&es[0], i, cols, wrap);
            let mut k: usize = 1;
            while k < es.len()
                invariant
                    1 <= k <= es@.len(),
                    row_in_range(i as int),
                    *e == Expression::Funcall(*op, *es),
                    exprs_wf(*es, cols@.len(), es@.len()),
                    cols_wf(cols@),
                    felt_ok(acc),
                    opt_val(acc) == eval_args(*op, *es, k as nat, i as int, cols@, wrap),
                decreases es@.len() - k,
            {
                proof {
                    lemma_exprs_wf(*es, cols@.len(), es@.len(), k as int);
                    assert(decreases_to!(*e => (*e)->Funcall_1));
                }
                acc = match acc {
                    None => None,
                    Some(a) => match eval(&es[k], i, cols, wrap) {
                        Some(b) => Some(combine_exec(*op, &a, &b)),
                        None => None,
                    },
                };
                k = k + 1;
            }
            acc
        },
        Expression::Void => None,
    }
}

/// The column indices that `e` reads, in the order they appear.
pub open spec fn deps(e: Expression) -> Seq<usize>
    decreases e, 0nat,
{
    match e {
        Expression::Column { id, .. } => seq![id],
        Expression::List(es) => deps_list(es, es@.len()),
        Expression::Funcall(_, es) => deps_list(es, es@.len()),
        _ => Seq::empty(),
    }
}

pub open spec fn deps_list(es: Vec<Expression>, k: nat) -> Seq<usize>
    decreases es, k,
{
    if k == 0 || k > es@.len() {
        Seq::empty()
    } else {
        deps_list(es, (k - 1) as nat) + deps(es@[k - 1])
    }
}

/// The column indices that `e` reads, in the order they appear.
pub fn dependencies(e: &Expression) -> (r: Vec<usize>)
    ensures
        r@ == deps(*e),
    decreases e,
{
    match e {
        Expression::Column { id, .. } => {
            let mut r = Vec::new();
            r.push(*id);
            r
        },
        Expression::List(es) | Expression::Funcall(_, es) => {
            let mut r: Vec<usize> = Vec::new();
            let mut k: usize = 0;
            while k < es.len()
                invariant
                    k <= es@.len(),
                    deps(*e) == deps_list(*es, es@.len()),
                    decreases_to!(*e => *es),
                    r@ == deps_list(*es, k as nat),
                decreases es@.len() - k,
            {
                let mut sub = dependencies(&es[k]);
                r.append(&mut sub);
                k = k + 1;
            }
            r
        },
        _ => Vec::new(),
    }
}

/// `(eq a b)` and `(sub a b)` take the same value at every row, so one is zero exactly when the
/// other is.
pub proof fn lemma_equals_is_sub(es: Vec<Expression>, i: int, cols: Seq<Column>, wrap: bool)
    ensures
        eval_spec(Expression::Funcall(Op::Equals, es), i, cols, wrap) == eval_spec(
            Expression::Funcall(Op::Sub, es),
            i,
            cols,
            wrap,
        ),
        eval_spec(Expression::Funcall(Op::Equals, es), i, cols, wrap) == Some(0int) <==> eval_spec(
            Expression::Funcall(Op::Sub, es),
            i,
            cols,
            wrap,
        ) == Some(0int),
{
    lemma_equals_args(es, es@.len(), i, cols, wrap);
}

proof fn lemma_equals_args(es: Vec<Expression>, k: nat, i: int, cols: Seq<Column>, wrap: bool)
    ensures
        eval_args(Op::Equals, es, k, i, cols, wrap) == eval_args(Op::Sub, es, k, i, cols, wrap),
    decreases k,
{
    if k > 1 && k <= es@.len() {
        lemma_equals_args(es, (k - 1) as nat, i, cols, wrap);
    }
}

proof fn lemma_exprs_wf_prefix(es: Vec<Expression>, n: nat, k: nat, m: nat)
    requires
        m <= k <= es@.len(),
        exprs_wf(es, n, k),
    ensures
        exprs_wf(es, n, m),
    decreases k - m,
{
    if m < k {
        lemma_exprs_wf_prefix(es, n, (k - 1) as nat, m);
    }
}

/// Whether every column index of `e` is below `n` and every constant is a field element.
pub fn expr_ok(e: &Expression, n: usize) -> (r: bool)
    ensures
        r == expr_wf(*e, n as nat),
    decreases e,
{
    match e {
        Expression::Const(c) => c.is_valid(),
        Expression::Column { id, .. } => *id < n,
        Expression::List(es) | Expression::Funcall(_, es) => {
            let mut k: usize = 0;
            while k < es.len()
                invariant
                    k <= es@.len(),
                    decreases_to!(*e => *es),
                    expr_wf(*e, n as nat) == exprs_wf(*es, n as nat, es@.len()),
                    exprs_wf(*es, n as nat, k as nat),
                decreases es@.len() - k,
            {
                if !expr_ok(&es[k], n) {
                    proof {
                        if exprs_wf(*es, n as nat, es@.len()) {
                            lemma_exprs_wf_prefix(*es, n as nat, es@.len(), (k + 1) as nat);
                        }
                    }
                    return false;
                }
                k = k + 1;
            }
            true
        },
        Expression::Void => true,
    }
}

} // verus!
