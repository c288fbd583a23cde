//! A computed trace, flattened for hand-over: each column as canonical limbs under its
//! mangled name.
use crate::column::{values_of, Column, ColumnSet, Handle};
use crate::field::Felt;
use crate::names::position_of;
use crate::text::{chars_of, string_of};
use vstd::prelude::*;

verus! {

/// One column: its padding value and its values, as canonical limbs.
#[derive(Clone, Debug)]
pub struct ColumnData {
    pub padding_value: [u64; 4],
    pub values: Vec<[u64; 4]>,
}

/// The columns of a trace with their mangled names, in the same order.
#[derive(Debug)]
pub struct Trace {
    pub columns: Vec<ColumnData>,
    pub ids: Vec<String>,
}

/// The stable identifier of a handle: module and name joined by a double underscore.
pub open spec fn mangled(module: Seq<char>, name: Seq<char>) -> Seq<char> {
    module + seq!['_', '_'] + name
}

/// The padding of a column: its explicit value, else its first value, else zero.
pub open spec fn padding_of(c: Column) -> [u64; 4] {
    match c.padding_value {
        Some(p) => p.limbs,
        None => match values_of(c) {
            Some(v) => if v.len() > 0 {
                v[0].limbs
            } else {
                [0u64, 0u64, 0u64, 0u64]
            },
            None => [0u64, 0u64, 0u64, 0u64],
        },
    }
}

/// The limbs of the values of a column; none when it is unfilled.
pub open spec fn limbs_of(c: Column) -> Seq<[u64; 4]> {
    match values_of(c) {
        Some(v) => v.map_values(|f: Felt| f.limbs),
        None => Seq::empty(),
    }
}

impl Handle {
    /// The stable identifier of this handle.
    pub fn mangle(&self) -> (r: String)
        ensures
            r@ == mangled(self.module@, self.name@),
    {
        let mut out = chars_of(self.module.as_str());
        out.push('_');
        out.push('_');
        let name = chars_of(self.name.as_str());
        let mut k: usize = 0;
        let ghost start = out@;
        while k < name.len()
            invariant
                k <= name@.len(),
                out@ == start + name@.subrange(0, k as int),
            decreases name@.len() - k,
        {
            out.push(name[k]);
            k = k + 1;
            assert(name@.subrange(0, k as int) =~= name@.subrange(0, k - 1) + seq![name@[k - 1]]);
        }
        assert(name@.subrange(0, name@.len() as int) =~= name@);
        assert(start =~= self.module@ + seq!['_', '_']);
        string_of(&out)
    }
}

impl Trace {
    /// Flattens the columns of `cols`, in order.
    pub fn from_columns(cols: &ColumnSet) -> (r: Trace)
        ensures
            r.columns@.len() == cols.cols@.len(),
            r.ids@.len() == cols.cols@.len(),
            forall|k: int|
                0 <= k < cols.cols@.len() ==> {
                    &&& (#[trigger] r.ids@[k])@ == mangled(
                        cols.cols@[k].handle.module@,
                        cols.cols@[k].handle.name@,
                    )
                    &&& r.columns@[k].padding_value == padding_of(cols.cols@[k])
                    &&& r.columns@[k].values@ == limbs_of(cols.cols@[k])
                },
    {
        let mut columns: Vec<ColumnData> = Vec::new();
        let mut ids: Vec<String> = Vec::new();
        let mut k: usize = 0;
        while k < cols.cols.len()
            invariant
                k <= cols.cols@.len(),
                columns@.len() == k,
                ids@.len() == k,
                forall|j: int|
                    0 <= j < k ==> {
                        &&& (#[trigger] ids@[j])@ == mangled(
                            cols.cols@[j].handle.module@,
                            cols.cols@[j].handle.name@,
                        )
                        &&& columns@[j].padding_value == padding_of(cols.cols@[j])
                        &&& columns@[j].values@ == limbs_of(cols.cols@[j])
                    },
            decreases cols.cols@.len() - k,
        {
            let c = &cols.cols[k];
            let mut values: Vec<[u64; 4]> = Vec::new();
            let padding = match &c.values {
                Some(v) => {
                    let mut i: usize = 0;
                    while i < v.len()
                        invariant
                            i <= v@.len(),
                            values@ == v@.subrange(0, i as int).map_values(|f: Felt| f.limbs),
                        decreases v@.len() - i,
                    {
                        values.push(v[i].limbs);
                        i = i + 1;
                        assert(values@ =~= v@.subrange(0, i as int).map_values(|f: Felt| f.limbs));
                    }
                    assert(v@.subrange(0, v@.len() as int) =~= v@);
                    assert(values@ =~= limbs_of(*c));
                    match &c.padding_value {
                        Some(p) => p.limbs,
                        None => if v.len() > 0 {
                            v[0].limbs
                        } else {
                            [0u64, 0u64, 0u64, 0u64]
                        },
                    }
                },
                None => {
                    assert(values@ =~= limbs_of(*c));
                    match &c.padding_value {
                        Some(p) => p.limbs,
                        None => [0u64, 0u64, 0u64, 0u64],
                    }
                },
            };
            columns.push(ColumnData { padding_value: padding, values });
            ids.push(c.handle.mangle());
            k = k + 1;
        }
        Trace { columns, ids }
    }

    /// The number of columns.
    pub fn column_count(&self) -> (r: usize)
        ensures
            r == self.ids@.len(),
    {
        self.ids.len()
    }

    /// The column at index `i`, if there is one.
    pub fn column_by_id(&self, i: usize) -> (r: Option<&ColumnData>)
        ensures
            i < self.columns@.len() ==> r == Some(&self.columns@[i as int]),
            i >= self.columns@.len() ==> r is None,
    {
        if i < self.columns.len() {
            Some(&self.columns[i])
        } else {
            None
        }
    }

    /// The column whose mangled name is `name`, if there is one.
    pub fn column_by_name(&self, name: &String) -> (r: Option<&ColumnData>)
        ensures
            r is Some ==> exists|k: int|
                0 <= k < self.ids@.len() && k < self.columns@.len() && (#[trigger] self.ids@[k])@ == name@ && r == Some(&self.columns@[k]),
            r is None ==> forall|k: int|
                0 <= k < self.ids@.len() && k < self.columns@.len() ==> (#[trigger] self.ids@[k])@ != name@,
    {
        match position_of(&self.ids, name) {
            Some(k) => {
                if k < self.columns.len() {
                    Some(&self.columns[k])
                } else {
                    None
                }
            },
            None => None,
        }
    }
}

} // verus!
