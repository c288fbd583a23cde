//! Column storage: named sequences of field values with row access.
use crate::field::Felt;
use vstd::prelude::*;

verus! {

/// Identifies a column by its module and its name.
#[derive(Clone, Debug)]
pub struct Handle {
    pub module: String,
    pub name: String,
}

impl Handle {
    pub fn new(module: &str, name: &str) -> (r: Handle)
        ensures
            r.module@ == module@,
            r.name@ == name@,
    {
        Handle { module: module.to_owned(), name: name.to_owned() }
    }

    pub fn same(&self, o: &Handle) -> (r: bool)
        ensures
            r == (self.module@ == o.module@ && self.name@ == o.name@),
    {
        self.module == o.module && self.name == o.name
    }
}

/// A column: its handle, an explicit padding value if any, and its values once filled.
#[derive(Clone, Debug)]
pub struct Column {
    pub handle: Handle,
    pub padding_value: Option<Felt>,
    pub values: Option<Vec<Felt>>,
}

/// The values of a column, if it has been filled.
pub open spec fn values_of(c: Column) -> Option<Seq<Felt>> {
    match c.values {
        Some(v) => Some(v@),
        None => None,
    }
}

/// Row `i` of `vals`: read directly, or at `i` modulo the length when wrapping.
pub open spec fn row_at(vals: Option<Seq<Felt>>, i: int, wrap: bool) -> Option<Felt> {
    match vals {
        None => None,
        Some(v) => if 0 <= i < v.len() {
            Some(v[i])
        } else if wrap && v.len() > 0 {
            Some(v[i % (v.len() as int)])
        } else {
            None
        },
    }
}

/// Every value of the column is a field element.
pub open spec fn column_wf(c: Column) -> bool {
    (c.padding_value matches Some(p) ==> p.wf()) && match c.values {
        Some(v) => forall|k: int| 0 <= k < v@.len() ==> (#[trigger] v@[k]).wf(),
        None => true,
    }
}

/// Reading past the end without wrapping yields nothing; wrapping reads at `i mod len`.
pub proof fn lemma_out_of_range_reads(c: Column, i: int)
    ensures
        match values_of(c) {
            Some(v) => {
                &&& (i < 0 || i >= v.len()) ==> row_at(values_of(c), i, false) is None
                &&& v.len() > 0 ==> row_at(values_of(c), i, true) == row_at(
                    values_of(c),
                    i % (v.len() as int),
                    false,
                )
            },
            None => row_at(values_of(c), i, false) is None && row_at(values_of(c), i, true) is None,
        },
{
    if let Some(v) = values_of(c) {
        if v.len() > 0 {
            let l = v.len() as int;
            if 0 <= i < l {
                vstd::arithmetic::div_mod::lemma_small_mod(i as nat, l as nat);
            }
            vstd::arithmetic::div_mod::lemma_mod_bound(i, l);
        }
    }
}

impl Column {
    pub fn new(handle: Handle) -> (r: Column)
        ensures
            r.handle == handle,
            r.padding_value is None,
            r.values is None,
    {
        Column { handle, padding_value: None, values: None }
    }

    /// The number of rows, or `None` when the column has no values yet.
    pub fn len(&self) -> (r: Option<usize>)
        ensures
            match values_of(*self) {
                Some(v) => r matches Some(n) && n as int == v.len(),
                None => r is None,
            },
    {
        match &self.values {
            Some(v) => Some(v.len()),
            None => None,
        }
    }

    /// Row `i`, read directly or, when `wrap` is set, modulo the length.
    pub fn get(&self, i: isize, wrap: bool) -> (r: Option<Felt>)
        ensures
            r == row_at(values_of(*self), i as int, wrap),
    {
        self.get_wide(i as i128, wrap)
    }

    pub fn get_wide(&self, i: i128, wrap: bool) -> (r: Option<Felt>)
        ensures
            r == row_at(values_of(*self), i as int, wrap),
    {
        match &self.values {
            None => None,
            Some(v) => {
                let l = v.len();
                if 0 <= i && i < l as i128 {
                    Some(v[i as usize])
                } else if wrap && l > 0 {
                    let k = wrap_index(i, l);
                    Some(v[k])
                } else {
                    None
                }
            },
        }
    }
}

/// `i` modulo `l`, in `[0, l)`.
fn wrap_index(i: i128, l: usize) -> (r: usize)
    requires
        l > 0,
    ensures
        r as int == i as int % (l as int),
        r < l,
{
    let li = l as i128;
    if i >= 0 {
        let m = i % li;
        proof {
            vstd::arithmetic::div_mod::lemma_mod_bound(i as int, l as int);
        }
        m as usize
    } else {
        let k = -(i + 1);
        let m = k % li;
        proof {
            let ii = i as int;
            let ll = l as int;
            let kk = k as int;
            vstd::arithmetic::div_mod::lemma_fundamental_div_mod(kk, ll);
            vstd::arithmetic::div_mod::lemma_mod_bound(kk, ll);
            let q = kk / ll;
            // i = -(k + 1) = -(q * l + m + 1) = (-q - 1) * l + (l - 1 - m)
            assert(ii == (-q - 1) * ll + (ll - 1 - m)) by (nonlinear_arith)
                requires
                    ii == -(kk + 1),
                    kk == ll * q + m,
            ;
            vstd::arithmetic::div_mod::lemma_fundamental_div_mod_converse(
                ii,
                ll,
                -q - 1,
                ll - 1 - m,
            );
        }
        (li - 1 - m) as usize
    }
}

/// The columns of a trace, with distinct handles.
#[derive(Clone, Debug)]
pub struct ColumnSet {
    pub cols: Vec<Column>,
}

impl ColumnSet {
    /// No two columns share a handle, and every column holds field elements.
    pub open spec fn wf(&self) -> bool {
        &&& forall|a: int, b: int|
            0 <= a < b < self.cols@.len() ==> !(#[trigger] self.cols@[a].handle.module@
                == #[trigger] self.cols@[b].handle.module@ && self.cols@[a].handle.name@
                == self.cols@[b].handle.name@)
        &&& forall|k: int| 0 <= k < self.cols@.len() ==> column_wf(#[trigger] self.cols@[k])
    }

    pub fn new() -> (r: ColumnSet)
        ensures
            r.wf(),
            r.cols@.len() == 0,
    {
        ColumnSet { cols: Vec::new() }
    }

    pub fn is_empty(&self) -> (r: bool)
        ensures
            r == (self.cols@.len() == 0),
    {
        self.cols.len() == 0
    }

    /// The index of the column with handle `h`, if there is one.
    pub fn position(&self, h: &Handle) -> (r: Option<usize>)
        ensures
            match r {
                Some(k) => k < self.cols@.len() && self.cols@[k as int].handle.module@ == h.module@
                    && self.cols@[k as int].handle.name@ == h.name@,
                None => forall|k: int|
                    0 <= k < self.cols@.len() ==> !(self.cols@[k].handle.module@ == h.module@
                        && #[trigger] self.cols@[k].handle.name@ == h.name@),
            },
    {
        let mut k: usize = 0;
        while k < self.cols.len()
            invariant
                k <= self.cols@.len(),
                forall|j: int|
                    0 <= j < k ==> !(self.cols@[j].handle.module@ == h.module@
                        && #[trigger] self.cols@[j].handle.name@ == h.name@),
            decreases self.cols@.len() - k,
        {
            if self.cols[k].handle.same(h) {
                return Some(k);
            }
            k = k + 1;
        }
        None
    }

    /// Adds a column, unless one with the same handle is already there.
    pub fn insert(&mut self, c: Column) -> (r: Option<usize>)
        requires
            old(self).wf(),
            column_wf(c),
        ensures
            final(self).wf(),
            match r {
                Some(k) => k == old(self).cols@.len() && final(self).cols@ == old(self).cols@.push(c),
                None => final(self).cols@ == old(self).cols@ && exists|j: int|
                    0 <= j < old(self).cols@.len() && old(self).cols@[j].handle.module@
                        == c.handle.module@ && #[trigger] old(self).cols@[j].handle.name@
                        == c.handle.name@,
            },
    {
        match self.position(&c.handle) {
            Some(j) => {
                assert(self.cols@[j as int].handle.name@ == c.handle.name@);
                None
            },
            None => {
                let k = self.cols.len();
                self.cols.push(c);
                Some(k)
            },
        }
    }
}

/// Whether every value of the column is a field element.
pub fn column_ok(c: &Column) -> (r: bool)
    ensures
        r == column_wf(*c),
{
    if let Some(p) = &c.padding_value {
        if !p.is_valid() {
            return false;
        }
    }
    match &c.values {
        None => true,
        Some(v) => {
            let mut k: usize = 0;
            while k < v.len()
                invariant
                    k <= v@.len(),
                    c.values == Some(*v),
                    c.padding_value matches Some(p) ==> p.wf(),
                    forall|j: int| 0 <= j < k ==> (#[trigger] v@[j]).wf(),
                decreases v@.len() - k,
            {
                if !v[k].is_valid() {
                    assert(c.values->Some_0@[k as int] == v@[k as int]);
                    return false;
                }
                k = k + 1;
            }
            true
        },
    }
}

impl ColumnSet {
    /// Whether the handles are distinct and every column holds field elements.
    pub fn is_wf(&self) -> (r: bool)
        ensures
            r == self.wf(),
    {
        let mut a: usize = 0;
        while a < self.cols.len()
            invariant
                a <= self.cols@.len(),
                forall|x: int, y: int|
                    0 <= x < a && x < y < self.cols@.len() ==> !(#[trigger] self.cols@[x].handle.module@
                        == #[trigger] self.cols@[y].handle.module@ && self.cols@[x].handle.name@
                        == self.cols@[y].handle.name@),
                forall|k: int| 0 <= k < a ==> column_wf(#[trigger] self.cols@[k]),
            decreases self.cols@.len() - a,
        {
            if !column_ok(&self.cols[a]) {
                return false;
            }
            let mut b: usize = a + 1;
            while b < self.cols.len()
                invariant
                    a < b <= self.cols@.len(),
                    forall|y: int|
                        a < y < b ==> !(self.cols@[a as int].handle.module@
                            == #[trigger] self.cols@[y].handle.module@ && self.cols@[a as int].handle.name@
                            == self.cols@[y].handle.name@),
                decreases self.cols@.len() - b,
            {
                if self.cols[a].handle.same(&self.cols[b].handle) {
                    return false;
                }
                b = b + 1;
            }
            a = a + 1;
        }
        true
    }
}

} // verus!
