//! Validation of a trace against a constraint set.
use crate::column::{values_of, Column};
use crate::expr::{
    cols_wf, deps, dependencies, eval, eval_spec, expr_wf, exprs_wf, Expression,
};
use crate::field::{modulus, Felt};
use vstd::prelude::*;

verus! {

/// Why a single constraint does not hold.
#[derive(Clone, Debug, PartialEq, Eq, Structural)]
pub enum CheckError {
    /// The columns that the constraint reads hold no rows.
    EmptyTrace,
    /// The expression is not zero (or has no value, where that counts) at this row.
    Vanishing { row: i128 },
    /// A lookup has a different number of parent and child expressions.
    LookupArity,
    /// The expressions on one side of a lookup give columns of different lengths.
    LookupRagged,
    /// A lookup expression reads a column that has no values.
    LookupMissing,
    /// The child row at this index matches no parent row.
    LookupMiss { row: usize },
}

/// Some column that the dependencies name has no values.
pub open spec fn any_absent(ds: Seq<usize>, cols: Seq<Column>) -> bool {
    exists|k: int| 0 <= k < ds.len() && values_of(cols[ds[k] as int]) is None
}

/// The number of rows a scan covers: that of the first column read.
pub open spec fn scan_len(ds: Seq<usize>, cols: Seq<Column>) -> int {
    if ds.len() == 0 {
        0
    } else {
        match values_of(cols[ds[0] as int]) {
            Some(v) => v.len() as int,
            None => 0,
        }
    }
}

/// Row `i` satisfies `e`: it evaluates to zero, or has no value and `strict` is unset.
pub open spec fn row_passes(e: Expression, i: int, cols: Seq<Column>, strict: bool) -> bool {
    match eval_spec(e, i, cols, false) {
        Some(v) => v == 0,
        None => !strict,
    }
}

pub open spec fn domain_view(d: Option<Vec<i64>>) -> Option<Seq<i64>> {
    match d {
        Some(v) => Some(v@),
        None => None,
    }
}

/// Every row of the domain `d` evaluates to zero.
pub open spec fn domain_passes(e: Expression, d: Seq<i64>, cols: Seq<Column>) -> bool {
    forall|k: int| 0 <= k < d.len() ==> row_passes(e, #[trigger] d[k] as int, cols, true)
}

/// Every row of `[0, len)` evaluates to zero or has no value.
pub open spec fn rows_pass(e: Expression, len: int, cols: Seq<Column>) -> bool {
    forall|i: int| 0 <= i < len ==> #[trigger] row_passes(e, i, cols, false)
}

/// What checking `e` over `domain` (every row when absent) returns: nothing is checked when a
/// column it reads has no values; an empty trace is an error; otherwise it fails exactly when
/// some row fails, and reports the first such row.
pub open spec fn vanishing_outcome(
    e: Expression,
    domain: Option<Seq<i64>>,
    cols: Seq<Column>,
    r: Result<(), CheckError>,
) -> bool {
    let ds = deps(e);
    if any_absent(ds, cols) {
        r is Ok
    } else if scan_len(ds, cols) == 0 {
        r == Err::<(), CheckError>(CheckError::EmptyTrace)
    } else {
        match domain {
            Some(d) => {
                &&& r is Ok <==> domain_passes(e, d, cols)
                &&& r matches Err(err) ==> exists|k: int|
                    #[trigger] first_failure_in(e, d, cols, k) && reports_row(err, d[k] as int)
            },
            None => {
                &&& r is Ok <==> rows_pass(e, scan_len(ds, cols), cols)
                &&& r matches Err(err) ==> exists|i: int|
                    #[trigger] first_failure(e, scan_len(ds, cols), cols, i) && reports_row(err, i)
            },
        }
    }
}

/// `err` reports a failure at row `i`.
pub open spec fn reports_row(err: CheckError, i: int) -> bool {
    match err {
        CheckError::Vanishing { row } => row as int == i,
        _ => false,
    }
}

/// Row `d[k]` is the first of the domain `d` that fails `e`.
pub open spec fn first_failure_in(e: Expression, d: Seq<i64>, cols: Seq<Column>, k: int) -> bool {
    &&& 0 <= k < d.len()
    &&& !row_passes(e, d[k] as int, cols, true)
    &&& forall|j: int| 0 <= j < k ==> row_passes(e, #[trigger] d[j] as int, cols, true)
}

/// Row `i` is the first of `[0, len)` that fails `e`.
pub open spec fn first_failure(e: Expression, len: int, cols: Seq<Column>, i: int) -> bool {
    &&& 0 <= i < len
    &&& !row_passes(e, i, cols, false)
    &&& forall|j: int| 0 <= j < i ==> #[trigger] row_passes(e, j, cols, false)
}

fn row_ok(e: &Expression, i: i128, cols: &Vec<Column>, strict: bool) -> (r: bool)
    requires
        expr_wf(*e, cols@.len()),
        cols_wf(cols@),
        crate::expr::row_in_range(i as int),
    ensures
        r == row_passes(*e, i as int, cols@, strict),
{
    match eval(e, i, cols, false) {
        Some(v) => v.is_zero(),
        None => !strict,
    }
}

/// Checks a vanishing expression over its domain, or over every row when there is none.
pub fn check_constraint(e: &Expression, domain: &Option<Vec<i64>>, cols: &Vec<Column>) -> (r: Result<
    (),
    CheckError,
>)
    requires
        expr_wf(*e, cols@.len()),
        cols_wf(cols@),
    ensures
        vanishing_outcome(*e, domain_view(*domain), cols@, r),
{
    let ds = dependencies(e);
    proof {
        lemma_deps_bounded(*e, cols@.len());
    }
    let mut k: usize = 0;
    while k < ds.len()
        invariant
            k <= ds@.len(),
            ds@ == deps(*e),
            forall|j: int| 0 <= j < ds@.len() ==> (#[trigger] ds@[j]) < cols@.len(),
            forall|j: int| 0 <= j < k ==> values_of(cols@[#[trigger] ds@[j] as int]) is Some,
        decreases ds@.len() - k,
    {
        if cols[ds[k]].len().is_none() {
            assert(values_of(cols@[ds@[k as int] as int]) is None);
            return Ok(());
        }
        k = k + 1;
    }
    assert(!any_absent(ds@, cols@));
    if ds.len() == 0 {
        return Err(CheckError::EmptyTrace);
    }
    let first = &cols[ds[0]];
    let lo = first.len();
    assert(values_of(*first) is Some);
    assert(*first == cols@[ds@[0] as int]);
    let l = match lo {
        Some(l) => l,
        None => 0,
    };
    assert(l as int == scan_len(ds@, cols@));
    if l == 0 {
        return Err(CheckError::EmptyTrace);
    }
    match domain {
        Some(d) => {
            let mut k: usize = 0;
            while k < d.len()
                invariant
                    k <= d@.len(),
                    *domain == Some(*d),
                    !any_absent(deps(*e), cols@),
                    scan_len(deps(*e), cols@) > 0,
                    expr_wf(*e, cols@.len()),
                    cols_wf(cols@),
                    forall|j: int| 0 <= j < k ==> row_passes(*e, #[trigger] d@[j] as int, cols@, true),
                decreases d@.len() - k,
            {
                if !row_ok(e, d[k] as i128, cols, true) {
                    assert(first_failure_in(*e, d@, cols@, k as int));
                    let r = Err(CheckError::Vanishing { row: d[k] as i128 });
                    assert(domain_view(*domain) == Some(d@));
                    assert(r matches Err(err) && reports_row(err, d@[k as int] as int));
                    assert(!domain_passes(*e, d@, cols@));
                    return r;
                }
                k = k + 1;
            }
            Ok(())
        },
        None => {
            let mut i: usize = 0;
            while i < l
                invariant
                    i <= l,
                    l as int == scan_len(deps(*e), cols@),
                    domain is None,
                    !any_absent(deps(*e), cols@),
                    expr_wf(*e, cols@.len()),
                    cols_wf(cols@),
                    forall|j: int| 0 <= j < i ==> #[trigger] row_passes(*e, j, cols@, false),
                decreases l - i,
            {
                if !row_ok(e, i as i128, cols, false) {
                    assert(first_failure(*e, l as int, cols@, i as int));
                    assert(reports_row(CheckError::Vanishing { row: i as i128 }, i as int));
                    return Err(CheckError::Vanishing { row: i as i128 });
                }
                i = i + 1;
            }
            Ok(())
        },
    }
}

/// Every column index that `e` reads is in range.
pub proof fn lemma_deps_bounded(e: Expression, n: nat)
    requires
        expr_wf(e, n),
    ensures
        forall|j: int| 0 <= j < deps(e).len() ==> (#[trigger] deps(e)[j]) < n,
    decreases e, 0nat,
{
    match e {
        Expression::List(es) => {
            assert(deps(e) == crate::expr::deps_list(es, es@.len()));
            lemma_deps_list_bounded(es, n, es@.len());
        },
        Expression::Funcall(_, es) => {
            assert(deps(e) == crate::expr::deps_list(es, es@.len()));
            lemma_deps_list_bounded(es, n, es@.len());
        },
        Expression::Column { id, .. } => {
            assert(deps(e)[0] == id);
        },
        _ => {},
    }
}

pub proof fn lemma_deps_list_bounded(es: Vec<Expression>, n: nat, k: nat)
    requires
        exprs_wf(es, n, k),
    ensures
        forall|j: int| 0 <= j < crate::expr::deps_list(es, k).len() ==> (#[trigger] crate::expr::deps_list(es, k)[j]) < n,
    decreases es, k,
{
    if k > 0 && k <= es@.len() {
        lemma_deps_list_bounded(es, n, (k - 1) as nat);
        lemma_deps_bounded(es@[k - 1], n);
        let a = crate::expr::deps_list(es, (k - 1) as nat);
        let b = deps(es@[k - 1]);
        assert forall|j: int| 0 <= j < (a + b).len() implies #[trigger] (a + b)[j] < n by {
            if j < a.len() {
                assert((a + b)[j] == a[j]);
            } else {
                assert((a + b)[j] == b[j - a.len()]);
            }
        }
    }
}

/// The value of `e` at row `i`, zero where it has none.
pub open spec fn value_or_zero(e: Expression, i: int, cols: Seq<Column>) -> int {
    match eval_spec(e, i, cols, false) {
        Some(v) => v,
        None => 0,
    }
}

/// The column that `e` computes: one value for each row of the columns it reads.
pub open spec fn column_values(e: Expression, cols: Seq<Column>) -> Seq<int> {
    Seq::new(scan_len(deps(e), cols) as nat, |i: int| value_or_zero(e, i, cols))
}

pub open spec fn felt_vals(v: Seq<Felt>) -> Seq<int> {
    v.map_values(|f: Felt| f.val())
}

/// Computes the column of `e`; fails when a column it reads has no values.
pub fn compute_column(e: &Expression, cols: &Vec<Column>) -> (r: Result<Vec<Felt>, CheckError>)
    requires
        expr_wf(*e, cols@.len()),
        cols_wf(cols@),
    ensures
        any_absent(deps(*e), cols@) ==> r == Err::<Vec<Felt>, CheckError>(CheckError::LookupMissing),
        !any_absent(deps(*e), cols@) ==> (r matches Ok(v) && felt_vals(v@) == column_values(
            *e,
            cols@,
        ) && forall|k: int| 0 <= k < v@.len() ==> (#[trigger] v@[k]).wf()),
{
    let ds = dependencies(e);
    proof {
        lemma_deps_bounded(*e, cols@.len());
    }
    let mut k: usize = 0;
    while k < ds.len()
        invariant
            k <= ds@.len(),
            ds@ == deps(*e),
            forall|j: int| 0 <= j < ds@.len() ==> (#[trigger] ds@[j]) < cols@.len(),
            forall|j: int| 0 <= j < k ==> values_of(cols@[#[trigger] ds@[j] as int]) is Some,
        decreases ds@.len() - k,
    {
        if cols[ds[k]].len().is_none() {
            assert(values_of(cols@[ds@[k as int] as int]) is None);
            return Err(CheckError::LookupMissing);
        }
        k = k + 1;
    }
    assert(!any_absent(ds@, cols@));
    let l: usize = if ds.len() == 0 {
        0
    } else {
        match cols[ds[0]].len() {
            Some(l) => l,
            None => 0,
        }
    };
    assert(l as int == scan_len(ds@, cols@));
    let mut out: Vec<Felt> = Vec::new();
    let mut i: usize = 0;
    while i < l
        invariant
            i <= l,
            l as int == scan_len(deps(*e), cols@),
            out@.len() == i,
            expr_wf(*e, cols@.len()),
            cols_wf(cols@),
            forall|j: int| 0 <= j < i ==> (#[trigger] out@[j]).wf() && out@[j].val() == value_or_zero(*e, j, cols@),
        decreases l - i,
    {
        let v = match eval(e, i as i128, cols, false) {
            Some(v) => v,
            None => Felt::zero(),
        };
        out.push(v);
        i = i + 1;
    }
    assert(felt_vals(out@) =~= column_values(*e, cols@));
    Ok(out)
}

/// The columns that the expressions of one side of a lookup compute.
pub open spec fn side_columns(es: Seq<Expression>, cols: Seq<Column>) -> Seq<Seq<int>> {
    Seq::new(es.len(), |j: int| column_values(es[j], cols))
}

/// Some expression of the side reads a column that has no values.
pub open spec fn side_absent(es: Seq<Expression>, cols: Seq<Column>) -> bool {
    exists|j: int| 0 <= j < es.len() && #[trigger] any_absent(deps(es[j]), cols)
}

/// The columns of a side do not all have the length of the first.
pub open spec fn ragged(side: Seq<Seq<int>>) -> bool {
    exists|j: int| 0 <= j < side.len() && (#[trigger] side[j]).len() != side[0].len()
}

pub open spec fn side_rows(side: Seq<Seq<int>>) -> int {
    if side.len() == 0 {
        0
    } else {
        side[0].len() as int
    }
}

/// The fingerprint of row `i` over the first `n` columns: the field sum of `(j + 2) * col_j[i]`.
pub open spec fn fingerprint(side: Seq<Seq<int>>, i: int, n: nat) -> int
    decreases n,
{
    if n == 0 {
        0
    } else {
        (fingerprint(side, i, (n - 1) as nat) + ((n + 1) * side[n - 1][i]) % modulus()) % modulus()
    }
}

pub open spec fn row_fingerprint(side: Seq<Seq<int>>, i: int) -> int {
    fingerprint(side, i, side.len())
}

/// Some row of the parents has fingerprint `x`.
pub open spec fn parent_has(parents: Seq<Seq<int>>, x: int) -> bool {
    exists|k: int| 0 <= k < side_rows(parents) && #[trigger] row_fingerprint(parents, k) == x
}

/// Every child row's fingerprint is among the parents' fingerprints.
pub open spec fn lookup_holds(parents: Seq<Seq<int>>, children: Seq<Seq<int>>) -> bool {
    forall|i: int| 0 <= i < side_rows(children) ==> parent_has(parents, #[trigger] row_fingerprint(children, i))
}

/// What checking a lookup returns.
pub open spec fn lookup_outcome(
    parents: Seq<Expression>,
    children: Seq<Expression>,
    cols: Seq<Column>,
    r: Result<(), CheckError>,
) -> bool {
    let p = side_columns(parents, cols);
    let c = side_columns(children, cols);
    if parents.len() != children.len() {
        r == Err::<(), CheckError>(CheckError::LookupArity)
    } else if side_absent(parents, cols) || side_absent(children, cols) {
        r == Err::<(), CheckError>(CheckError::LookupMissing)
    } else if ragged(p) || ragged(c) {
        r == Err::<(), CheckError>(CheckError::LookupRagged)
    } else {
        &&& r is Ok <==> lookup_holds(p, c)
        &&& r matches Err(err) ==> exists|i: int|
            0 <= i < side_rows(c) && !parent_has(p, #[trigger] row_fingerprint(c, i))
                && err == CheckError::LookupMiss { row: i as usize }
    }
}

pub open spec fn side_wf(es: Seq<Expression>, n: nat) -> bool {
    forall|j: int| 0 <= j < es.len() ==> expr_wf(#[trigger] es[j], n)
}

fn compute_side(es: &Vec<Expression>, cols: &Vec<Column>) -> (r: Result<Vec<Vec<Felt>>, CheckError>)
    requires
        side_wf(es@, cols@.len()),
        cols_wf(cols@),
    ensures
        side_absent(es@, cols@) ==> r == Err::<Vec<Vec<Felt>>, CheckError>(CheckError::LookupMissing),
        !side_absent(es@, cols@) ==> (r matches Ok(v) && v@.len() == es@.len() && forall|j: int|
            0 <= j < v@.len() ==> felt_vals((#[trigger] v@[j])@) == column_values(es@[j], cols@)
                && forall|k: int| 0 <= k < v@[j]@.len() ==> (#[trigger] v@[j]@[k]).wf()),
{
    let mut out: Vec<Vec<Felt>> = Vec::new();
    let mut j: usize = 0;
    while j < es.len()
        invariant
            j <= es@.len(),
            out@.len() == j,
            side_wf(es@, cols@.len()),
            cols_wf(cols@),
            forall|q: int| 0 <= q < j ==> !#[trigger] any_absent(deps(es@[q]), cols@),
            forall|q: int|
                0 <= q < j ==> felt_vals((#[trigger] out@[q])@) == column_values(es@[q], cols@)
                    && forall|k: int| 0 <= k < out@[q]@.len() ==> (#[trigger] out@[q]@[k]).wf(),
        decreases es@.len() - j,
    {
        assert(expr_wf(es@[j as int], cols@.len()));
        match compute_column(&es[j], cols) {
            Ok(v) => {
                out.push(v);
            },
            Err(e) => {
                assert(any_absent(deps(es@[j as int]), cols@));
                return Err(e);
            },
        }
        j = j + 1;
    }
    Ok(out)
}

fn side_is_ragged(side: &Vec<Vec<Felt>>) -> (r: bool)
    ensures
        r == ragged(side@.map_values(|v: Vec<Felt>| felt_vals(v@))),
{
    let ghost s = side@.map_values(|v: Vec<Felt>| felt_vals(v@));
    if side.len() == 0 {
        return false;
    }
    let l = side[0].len();
    let mut j: usize = 0;
    while j < side.len()
        invariant
            j <= side@.len(),
            side@.len() > 0,
            s == side@.map_values(|v: Vec<Felt>| felt_vals(v@)),
            l == side@[0]@.len(),
            forall|q: int| 0 <= q < j ==> (#[trigger] s[q]).len() == s[0].len(),
        decreases side@.len() - j,
    {
        if side[j].len() != l {
            assert(s[j as int].len() != s[0].len());
            return true;
        }
        j = j + 1;
    }
    false
}

fn row_fingerprint_exec(side: &Vec<Vec<Felt>>, i: usize) -> (r: Felt)
    requires
        forall|j: int| 0 <= j < side@.len() ==> i < (#[trigger] side@[j])@.len(),
        forall|j: int, k: int| 0 <= j < side@.len() && 0 <= k < side@[j]@.len() ==> (#[trigger] side@[j]@[k]).wf(),
    ensures
        r.wf(),
        r.val() == row_fingerprint(side@.map_values(|v: Vec<Felt>| felt_vals(v@)), i as int),
{
    let ghost s = side@.map_values(|v: Vec<Felt>| felt_vals(v@));
    let mut ax = Felt::zero();
    let mut j: usize = 0;
    while j < side.len()
        invariant
            j <= side@.len(),
            s == side@.map_values(|v: Vec<Felt>| felt_vals(v@)),
            forall|q: int| 0 <= q < side@.len() ==> i < (#[trigger] side@[q])@.len(),
            forall|q: int, k: int| 0 <= q < side@.len() && 0 <= k < side@[q]@.len() ==> (#[trigger] side@[q]@[k]).wf(),
            ax.wf(),
            ax.val() == fingerprint(s, i as int, j as nat),
        decreases side@.len() - j,
    {
        let w = Felt::from_u64(j as u64).add(&Felt::from_u64(2));
        assert(w.val() == j + 2) by {
            vstd::arithmetic::div_mod::lemma_small_mod((j + 2) as nat, modulus() as nat);
        }
        let x = w.mul(&side[j][i]);
        assert(s[j as int][i as int] == side@[j as int]@[i as int].val());
        ax = ax.add(&x);
        j = j + 1;
    }
    ax
}

/// Checks that every child row appears among the parent rows, comparing row fingerprints.
pub fn check_plookup(parents: &Vec<Expression>, children: &Vec<Expression>, cols: &Vec<Column>) -> (r:
    Result<(), CheckError>)
    requires
        side_wf(parents@, cols@.len()),
        side_wf(children@, cols@.len()),
        cols_wf(cols@),
    ensures
        lookup_outcome(parents@, children@, cols@, r),
{
    if children.len() != parents.len() {
        return Err(CheckError::LookupArity);
    }
    let pcols = match compute_side(parents, cols) {
        Ok(v) => v,
        Err(e) => {
            return Err(e);
        },
    };
    let ccols = match compute_side(children, cols) {
        Ok(v) => v,
        Err(e) => {
            return Err(e);
        },
    };
    let ghost p = side_columns(parents@, cols@);
    let ghost c = side_columns(children@, cols@);
    assert(pcols@.map_values(|v: Vec<Felt>| felt_vals(v@)) =~= p);
    assert(ccols@.map_values(|v: Vec<Felt>| felt_vals(v@)) =~= c);
    if side_is_ragged(&pcols) || side_is_ragged(&ccols) {
        return Err(CheckError::LookupRagged);
    }
    let prows: usize = if pcols.len() == 0 {
        0
    } else {
        pcols[0].len()
    };
    let crows: usize = if ccols.len() == 0 {
        0
    } else {
        ccols[0].len()
    };
    assert(prows as int == side_rows(p));
    assert(crows as int == side_rows(c));
    let mut hashes: Vec<Felt> = Vec::new();
    let mut k: usize = 0;
    while k < prows
        invariant
            k <= prows,
            prows as int == side_rows(p),
            !ragged(p),
            p == pcols@.map_values(|v: Vec<Felt>| felt_vals(v@)),
            forall|j: int, q: int| 0 <= j < pcols@.len() && 0 <= q < pcols@[j]@.len() ==> (#[trigger] pcols@[j]@[q]).wf(),
            hashes@.len() == k,
            forall|q: int| 0 <= q < k ==> (#[trigger] hashes@[q]).wf() && hashes@[q].val() == row_fingerprint(p, q),
        decreases prows - k,
    {
        proof {
            assert forall|j: int| 0 <= j < pcols@.len() implies k < (#[trigger] pcols@[j])@.len() by {
                assert(p[j].len() == p[0].len());
            }
        }
        let h = row_fingerprint_exec(&pcols, k);
        hashes.push(h);
        k = k + 1;
    }
    let mut i: usize = 0;
    while i < crows
        invariant
            i <= crows,
            parents@.len() == children@.len(),
            !side_absent(parents@, cols@),
            !side_absent(children@, cols@),
            !ragged(p),
            p == side_columns(parents@, cols@),
            c == side_columns(children@, cols@),
            crows as int == side_rows(c),
            prows as int == side_rows(p),
            !ragged(c),
            c == ccols@.map_values(|v: Vec<Felt>| felt_vals(v@)),
            forall|j: int, q: int| 0 <= j < ccols@.len() && 0 <= q < ccols@[j]@.len() ==> (#[trigger] ccols@[j]@[q]).wf(),
            hashes@.len() == prows,
            forall|q: int| 0 <= q < prows ==> (#[trigger] hashes@[q]).wf() && hashes@[q].val() == row_fingerprint(p, q),
            forall|q: int| 0 <= q < i ==> parent_has(p, #[trigger] row_fingerprint(c, q)),
        decreases crows - i,
    {
        proof {
            assert forall|j: int| 0 <= j < ccols@.len() implies i < (#[trigger] ccols@[j])@.len() by {
                assert(c[j].len() == c[0].len());
            }
        }
        let ax = row_fingerprint_exec(&ccols, i);
        let mut found = false;
        let mut k: usize = 0;
        while k < hashes.len()
            invariant
                k <= hashes@.len(),
                hashes@.len() == prows,
                prows as int == side_rows(p),
                forall|q: int| 0 <= q < prows ==> (#[trigger] hashes@[q]).wf() && hashes@[q].val() == row_fingerprint(p, q),
                found ==> parent_has(p, ax.val()),
                !found ==> forall|q: int| 0 <= q < k ==> #[trigger] row_fingerprint(p, q) != ax.val(),
            decreases hashes@.len() - k,
        {
            if !found && hashes[k].equals(&ax) {
                found = true;
                assert(row_fingerprint(p, k as int) == ax.val());
            }
            k = k + 1;
        }
        if !found {
            assert(!parent_has(p, row_fingerprint(c, i as int)));
            assert(!lookup_holds(p, c));
            return Err(CheckError::LookupMiss { row: i });
        }
        i = i + 1;
    }
    Ok(())
}

/// The neighbourhood of a failing row, for a report: the columns that the expression reads
/// (each once, in order of first appearance) and their values on rows `first_row ..`.
#[derive(Debug)]
pub struct FailureWindow {
    pub first_row: i128,
    pub columns: Vec<usize>,
    /// One entry per row of the window, one value per column; `None` where there is none.
    pub rows: Vec<Vec<Option<Felt>>>,
}

/// The distinct members of `ds`, in order of first appearance.
pub fn distinct(ds: &Vec<usize>) -> (r: Vec<usize>)
    ensures
        forall|k: int| 0 <= k < r@.len() ==> ds@.contains(#[trigger] r@[k]),
        forall|k: int| 0 <= k < ds@.len() ==> r@.contains(#[trigger] ds@[k]),
        r@.no_duplicates(),
{
    let mut out: Vec<usize> = Vec::new();
    let mut k: usize = 0;
    while k < ds.len()
        invariant
            k <= ds@.len(),
            forall|j: int| 0 <= j < out@.len() ==> ds@.contains(#[trigger] out@[j]),
            forall|j: int| 0 <= j < k ==> out@.contains(#[trigger] ds@[j]),
            out@.no_duplicates(),
        decreases ds@.len() - k,
    {
        let x = ds[k];
        let mut found = false;
        let mut j: usize = 0;
        while j < out.len()
            invariant
                j <= out@.len(),
                found ==> out@.contains(x),
                !found ==> forall|q: int| 0 <= q < j ==> out@[q] != x,
            decreases out@.len() - j,
        {
            if out[j] == x {
                found = true;
            }
            j = j + 1;
        }
        let ghost before = out@;
        if !found {
            out.push(x);
            assert(out@.last() == x);
            assert(out@[out@.len() - 1] == ds@[k as int]);
        }
        proof {
            assert forall|q: int| 0 <= q <= k implies out@.contains(#[trigger] ds@[q]) by {
                if q < k {
                    let t = choose|t: int| 0 <= t < before.len() && before[t] == ds@[q];
                    assert(out@[t] == ds@[q]);
                }
            }
            assert forall|q: int| 0 <= q < out@.len() implies ds@.contains(#[trigger] out@[q]) by {
                if q < before.len() {
                    assert(out@[q] == before[q]);
                } else {
                    assert(out@[q] == ds@[k as int]);
                }
            }
        }
        k = k + 1;
    }
    out
}

/// Gathers the rows `[max(0, i - span), i + span]` of the columns that `e` reads.
pub fn failure_window(e: &Expression, i: i128, span: u32, cols: &Vec<Column>) -> (r: FailureWindow)
    requires
        expr_wf(*e, cols@.len()),
        crate::expr::row_in_range(i as int),
    ensures
        r.first_row as int == (if i - span >= 0 { i - span } else { 0int }),
        r.rows@.len() == (if i + span >= r.first_row { i + span - r.first_row + 1 } else { 0int }),
        forall|k: int| 0 <= k < r.columns@.len() ==> deps(*e).contains(#[trigger] r.columns@[k]),
        forall|k: int| 0 <= k < deps(*e).len() ==> r.columns@.contains(#[trigger] deps(*e)[k]),
        forall|q: int| 0 <= q < r.rows@.len() ==> (#[trigger] r.rows@[q])@.len() == r.columns@.len(),
        forall|q: int, c: int|
            0 <= q < r.rows@.len() && 0 <= c < r.columns@.len() ==> #[trigger] r.rows@[q]@[c] == crate::column::row_at(
                values_of(cols@[r.columns@[c] as int]),
                r.first_row + q,
                false,
            ),
{
    let ds = dependencies(e);
    proof {
        lemma_deps_bounded(*e, cols@.len());
    }
    let ids = distinct(&ds);
    proof {
        assert forall|k: int| 0 <= k < ids@.len() implies (#[trigger] ids@[k]) < cols@.len() by {
            assert(ds@.contains(ids@[k]));
            let q = choose|q: int| 0 <= q < ds@.len() && ds@[q] == ids@[k];
        }
    }
    let first: i128 = if i - span as i128 >= 0 { i - span as i128 } else { 0 };
    let last: i128 = i + span as i128;
    let mut rows: Vec<Vec<Option<Felt>>> = Vec::new();
    let mut j: i128 = first;
    while j <= last
        invariant
            first <= j,
            j <= last + 1 || j == first,
            first >= 0,
            last == i + span,
            crate::expr::row_in_range(i as int),
            rows@.len() == j - first,
            forall|k: int| 0 <= k < ids@.len() ==> (#[trigger] ids@[k]) < cols@.len(),
            forall|q: int| 0 <= q < rows@.len() ==> (#[trigger] rows@[q])@.len() == ids@.len(),
            forall|q: int, c: int|
                0 <= q < rows@.len() && 0 <= c < ids@.len() ==> #[trigger] rows@[q]@[c] == crate::column::row_at(
                    values_of(cols@[ids@[c] as int]),
                    first + q,
                    false,
                ),
        decreases last + 1 - j,
    {
        let mut row: Vec<Option<Felt>> = Vec::new();
        let mut c: usize = 0;
        while c < ids.len()
            invariant
                c <= ids@.len(),
                row@.len() == c,
                forall|k: int| 0 <= k < ids@.len() ==> (#[trigger] ids@[k]) < cols@.len(),
                forall|q: int| 0 <= q < c ==> #[trigger] row@[q] == crate::column::row_at(
                    values_of(cols@[ids@[q] as int]),
                    j as int,
                    false,
                ),
            decreases ids@.len() - c,
        {
            row.push(cols[ids[c]].get_wide(j, false));
            c = c + 1;
        }
        let ghost before = rows@;
        rows.push(row);
        proof {
            assert forall|q: int| 0 <= q < rows@.len() implies (#[trigger] rows@[q])@.len() == ids@.len() by {
                if q < before.len() {
                    assert(rows@[q] == before[q]);
                } else {
                    assert(rows@[q] == row);
                }
            }
            assert forall|q: int, c: int|
                0 <= q < rows@.len() && 0 <= c < ids@.len() implies #[trigger] rows@[q]@[c] == crate::column::row_at(
                    values_of(cols@[ids@[c] as int]),
                    first + q,
                    false,
                ) by {
                if q < before.len() {
                    assert(rows@[q] == before[q]);
                } else {
                    assert(rows@[q] == row);
                }
            }
        }
        j = j + 1;
    }
    FailureWindow { first_row: first, columns: ids, rows }
}

/// The values of the columns that `es` compute at `row`, for a report of a failed lookup.
pub fn lookup_row_values(es: &Vec<Expression>, row: usize, cols: &Vec<Column>) -> (r: Result<Vec<Felt>, CheckError>)
    requires
        side_wf(es@, cols@.len()),
        cols_wf(cols@),
    ensures
        side_absent(es@, cols@) ==> r == Err::<Vec<Felt>, CheckError>(CheckError::LookupMissing),
        !side_absent(es@, cols@) && ragged(side_columns(es@, cols@)) ==> r == Err::<Vec<Felt>, CheckError>(
            CheckError::LookupRagged,
        ),
        !side_absent(es@, cols@) && !ragged(side_columns(es@, cols@)) && row < side_rows(side_columns(es@, cols@))
            ==> r is Ok,
        r matches Ok(v) ==> v@.len() == es@.len() && row < side_rows(side_columns(es@, cols@)) && forall|j: int|
            0 <= j < es@.len() ==> (#[trigger] v@[j]).val() == side_columns(es@, cols@)[j][row as int],
{
    let side = match compute_side(es, cols) {
        Ok(v) => v,
        Err(e) => {
            return Err(e);
        },
    };
    let ghost p = side_columns(es@, cols@);
    assert(side@.map_values(|v: Vec<Felt>| felt_vals(v@)) =~= p);
    if side_is_ragged(&side) {
        return Err(CheckError::LookupRagged);
    }
    if side.len() == 0 || row >= side[0].len() {
        return Err(CheckError::LookupMiss { row });
    }
    let mut out: Vec<Felt> = Vec::new();
    let mut j: usize = 0;
    while j < side.len()
        invariant
            j <= side@.len(),
            out@.len() == j,
            side@.len() > 0,
            row < side@[0]@.len(),
            !ragged(p),
            p == side@.map_values(|v: Vec<Felt>| felt_vals(v@)),
            forall|q: int| 0 <= q < j ==> (#[trigger] out@[q]).val() == p[q][row as int],
        decreases side@.len() - j,
    {
        assert(p[j as int].len() == p[0].len());
        out.push(side[j][row]);
        j = j + 1;
    }
    Ok(out)
}

/// The indices of the columns of `module`, in the order of the set.
pub fn module_columns(cols: &Vec<Column>, module: &String) -> (r: Vec<usize>)
    ensures
        forall|k: int| 0 <= k < r@.len() ==> (#[trigger] r@[k]) < cols@.len() && cols@[r@[k] as int].handle.module@ == module@,
        forall|j: int| 0 <= j < cols@.len() && cols@[j].handle.module@ == module@ ==> r@.contains(j as usize),
        r@.no_duplicates(),
{
    let mut out: Vec<usize> = Vec::new();
    let mut j: usize = 0;
    while j < cols.len()
        invariant
            j <= cols@.len(),
            forall|k: int| 0 <= k < out@.len() ==> (#[trigger] out@[k]) < j && cols@[out@[k] as int].handle.module@ == module@,
            forall|q: int| 0 <= q < j && cols@[q].handle.module@ == module@ ==> out@.contains(q as usize),
            out@.no_duplicates(),
        decreases cols@.len() - j,
    {
        let ghost before = out@;
        if cols[j].handle.module == *module {
            out.push(j);
            assert(out@[out@.len() - 1] == j);
        }
        proof {
            assert forall|q: int| 0 <= q <= j && cols@[q].handle.module@ == module@ implies out@.contains(q as usize) by {
                if q < j {
                    let t = choose|t: int| 0 <= t < before.len() && before[t] == q as usize;
                    assert(out@[t] == q as usize);
                }
            }
        }
        j = j + 1;
    }
    out
}

/// The rows `[max(0, i - span), i + span]` of the columns `ids`, for a report of the whole module.
pub fn rows_window(ids: Vec<usize>, i: i128, span: u32, cols: &Vec<Column>) -> (r: FailureWindow)
    requires
        forall|k: int| 0 <= k < ids@.len() ==> (#[trigger] ids@[k]) < cols@.len(),
        crate::expr::row_in_range(i as int),
    ensures
        r.first_row as int == (if i - span >= 0 { i - span } else { 0int }),
        r.rows@.len() == (if i + span >= r.first_row { i + span - r.first_row + 1 } else { 0int }),
        r.columns@ == ids@,
        forall|q: int| 0 <= q < r.rows@.len() ==> (#[trigger] r.rows@[q])@.len() == r.columns@.len(),
        forall|q: int, c: int|
            0 <= q < r.rows@.len() && 0 <= c < r.columns@.len() ==> #[trigger] r.rows@[q]@[c] == crate::column::row_at(
                values_of(cols@[r.columns@[c] as int]),
                r.first_row + q,
                false,
            ),
{
    let first: i128 = if i - span as i128 >= 0 { i - span as i128 } else { 0 };
    let last: i128 = i + span as i128;
    let mut rows: Vec<Vec<Option<Felt>>> = Vec::new();
    let mut j: i128 = first;
    while j <= last
        invariant
            first <= j,
            j <= last + 1 || j == first,
            first >= 0,
            last == i + span,
            crate::expr::row_in_range(i as int),
            rows@.len() == j - first,
            forall|k: int| 0 <= k < ids@.len() ==> (#[trigger] ids@[k]) < cols@.len(),
            forall|q: int| 0 <= q < rows@.len() ==> (#[trigger] rows@[q])@.len() == ids@.len(),
            forall|q: int, c: int|
                0 <= q < rows@.len() && 0 <= c < ids@.len() ==> #[trigger] rows@[q]@[c] == crate::column::row_at(
                    values_of(cols@[ids@[c] as int]),
                    first + q,
                    false,
                ),
        decreases last + 1 - j,
    {
        let mut row: Vec<Option<Felt>> = Vec::new();
        let mut c: usize = 0;
        while c < ids.len()
            invariant
                c <= ids@.len(),
                row@.len() == c,
                forall|k: int| 0 <= k < ids@.len() ==> (#[trigger] ids@[k]) < cols@.len(),
                forall|q: int| 0 <= q < c ==> #[trigger] row@[q] == crate::column::row_at(
                    values_of(cols@[ids@[q] as int]),
                    j as int,
                    false,
                ),
            decreases ids@.len() - c,
        {
            row.push(cols[ids[c]].get_wide(j, false));
            c = c + 1;
        }
        let ghost before = rows@;
        rows.push(row);
        proof {
            assert forall|q: int| 0 <= q < rows@.len() implies (#[trigger] rows@[q])@.len() == ids@.len() by {
                if q < before.len() {
                    assert(rows@[q] == before[q]);
                }
            }
            assert forall|q: int, c: int|
                0 <= q < rows@.len() && 0 <= c < ids@.len() implies #[trigger] rows@[q]@[c] == crate::column::row_at(
                    values_of(cols@[ids@[c] as int]),
                    first + q,
                    false,
                ) by {
                if q < before.len() {
                    assert(rows@[q] == before[q]);
                }
            }
        }
        j = j + 1;
    }
    FailureWindow { first_row: first, columns: ids, rows }
}

} // verus!
