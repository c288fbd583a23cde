//! A table of names, each either final or an alias of another name, with alias resolution.
use vstd::prelude::*;
use vstd::set_lib::{lemma_int_range, lemma_len_subset, set_int_range};

verus! {

/// Why a program does not compile.
#[derive(Clone, Debug, PartialEq, Eq)]
pub enum CompileError {
    /// The source is not a well-formed sequence of s-expressions.
    Parse,
    /// A column, function or alias is defined twice.
    Redefinition(String),
    /// A symbol names no column, parameter or function.
    UnknownSymbol(String),
    /// An alias chain comes back to this name.
    CircularDefinition(String),
    /// A function is called with a wrong number of arguments.
    Arity(String),
    /// A declaration does not have the expected shape.
    InvalidDecl,
}

/// Names, each bound either finally (`None`) or as an alias of another name.
#[derive(Debug)]
pub struct Names {
    pub keys: Vec<String>,
    pub targets: Vec<Option<String>>,
}

/// The name after `k` steps along the alias chain from `name`.
pub open spec fn chain(t: Names, name: Seq<char>, k: nat) -> Seq<char>
    decreases k,
{
    if k == 0 {
        name
    } else {
        let prev = chain(t, name, (k - 1) as nat);
        match t.entry(prev) {
            Some(Some(target)) => target,
            _ => prev,
        }
    }
}

/// The first `k` names of the chain from `name` are aliases.
pub open spec fn aliases_upto(t: Names, name: Seq<char>, k: nat) -> bool {
    forall|j: nat| j < k ==> (#[trigger] t.entry(chain(t, name, j))) matches Some(Some(_))
}

/// The first `k` names of the chain from `name` are pairwise distinct, so `k` is the first
/// step that can revisit one.
pub open spec fn distinct_upto(t: Names, name: Seq<char>, k: nat) -> bool {
    forall|a: nat, b: nat| a < b < k ==> #[trigger] chain(t, name, a) != #[trigger] chain(t, name, b)
}

/// How resolving `name` ends.
pub open spec fn resolves_to(t: Names, name: Seq<char>, r: Result<usize, CompileError>) -> bool {
    match r {
        Ok(j) => j < t.keys@.len() && exists|k: nat|
            aliases_upto(t, name, k) && #[trigger] chain(t, name, k) == t.keys@[j as int]@
                && t.targets@[j as int] is None,
        Err(CompileError::CircularDefinition(s)) => exists|i: nat, k: nat|
            i < k && aliases_upto(t, name, k) && #[trigger] chain(t, name, i) == #[trigger] chain(
                t,
                name,
                k,
            ) && s@ == chain(t, name, k) && distinct_upto(t, name, k),
        Err(CompileError::UnknownSymbol(s)) => exists|k: nat|
            aliases_upto(t, name, k) && (#[trigger] t.entry(chain(t, name, k))) is None && s@ == chain(t, name, k),
        _ => false,
    }
}

/// Resolution as a walk: from `name`, fail on a name already visited or unbound, stop at a
/// final binding, and otherwise follow the alias with `fuel` steps left.
pub open spec fn resolve_from(t: Names, name: Seq<char>, visited: Seq<Seq<char>>, fuel: nat) -> Option<int>
    decreases fuel,
{
    if fuel == 0 || visited.contains(name) || !t.has(name) {
        None
    } else {
        let j = t.index_of(name);
        match t.targets@[j] {
            None => Some(j),
            Some(to) => resolve_from(t, to@, visited.push(name), (fuel - 1) as nat),
        }
    }
}

/// The index of the final binding that `name` resolves to, if any.
pub open spec fn resolved(t: Names, name: Seq<char>) -> Option<int> {
    resolve_from(t, name, Seq::empty(), (t.keys@.len() + 1) as nat)
}

pub open spec fn views(v: Seq<String>) -> Seq<Seq<char>> {
    v.map_values(|s: String| s@)
}

impl Names {
    pub open spec fn wf(&self) -> bool {
        &&& self.keys@.len() == self.targets@.len()
        &&& forall|a: int, b: int|
            0 <= a < b < self.keys@.len() ==> (#[trigger] self.keys@[a])@ != (#[trigger] self.keys@[b])@
    }

    pub open spec fn has(&self, name: Seq<char>) -> bool {
        exists|j: int| 0 <= j < self.keys@.len() && (#[trigger] self.keys@[j])@ == name
    }

    /// The binding of `name`: `Some(None)` when final, `Some(Some(t))` when an alias of `t`.
    pub open spec fn entry(&self, name: Seq<char>) -> Option<Option<Seq<char>>> {
        if self.has(name) {
            let j = choose|j: int| 0 <= j < self.keys@.len() && (#[trigger] self.keys@[j])@ == name;
            match self.targets@[j] {
                Some(t) => Some(Some(t@)),
                None => Some(None),
            }
        } else {
            None
        }
    }

    /// The names bound in the table.
    pub open spec fn key_set(&self) -> Set<Seq<char>> {
        Set::new(|n: Seq<char>| self.has(n))
    }

    /// The index at which `name` is bound.
    pub open spec fn index_of(&self, name: Seq<char>) -> int {
        choose|j: int| 0 <= j < self.keys@.len() && (#[trigger] self.keys@[j])@ == name
    }

    pub proof fn lemma_index_of(&self, j: int)
        requires
            self.wf(),
            0 <= j < self.keys@.len(),
        ensures
            self.has(self.keys@[j]@),
            self.index_of(self.keys@[j]@) == j,
    {
        let name = self.keys@[j]@;
        assert(self.has(name));
        let c = self.index_of(name);
        if c != j {
            if c < j {
                assert(self.keys@[c]@ != self.keys@[j]@);
            } else {
                assert(self.keys@[j]@ != self.keys@[c]@);
            }
        }
    }

    pub fn new() -> (r: Names)
        ensures
            r.wf(),
            r.keys@.len() == 0,
    {
        Names { keys: Vec::new(), targets: Vec::new() }
    }

    /// The index at which `name` is bound.
    pub fn find(&self, name: &String) -> (r: Option<usize>)
        requires
            self.wf(),
        ensures
            match r {
                Some(j) => j < self.keys@.len() && self.keys@[j as int]@ == name@,
                None => !self.has(name@),
            },
            r matches Some(j) ==> self.entry(name@) == match self.targets@[j as int] {
                Some(t) => Some(Some(t@)),
                None => Some(None::<Seq<char>>),
            },
            r is None ==> self.entry(name@) is None,
    {
        let mut k: usize = 0;
        while k < self.keys.len()
            invariant
                self.wf(),
                k <= self.keys@.len(),
                forall|j: int| 0 <= j < k ==> (#[trigger] self.keys@[j])@ != name@,
            decreases self.keys@.len() - k,
        {
            if self.keys[k] == *name {
                proof {
                    assert(self.keys@[k as int]@ == name@);
                    assert(self.has(name@));
                    let c = choose|j: int| 0 <= j < self.keys@.len() && (#[trigger] self.keys@[j])@ == name@;
                    if c != k as int {
                        if c < k {
                            assert(self.keys@[c]@ != self.keys@[k as int]@);
                        } else {
                            assert(self.keys@[k as int]@ != self.keys@[c]@);
                        }
                    }
                }
                return Some(k);
            }
            k = k + 1;
        }
        None
    }

    /// Binds `name` finally (`target` is `None`) or as an alias; fails if it is already bound.
    pub fn insert(&mut self, name: &String, target: Option<String>) -> (r: Result<(), CompileError>)
        requires
            old(self).wf(),
        ensures
            final(self).wf(),
            old(self).has(name@) ==> r == Err::<(), CompileError>(CompileError::Redefinition(*name))
                && *final(self) == *old(self),
            !old(self).has(name@) ==> r is Ok && final(self).keys@ == old(self).keys@.push(*name)
                && final(self).targets@ == old(self).targets@.push(target),
            final(self).has(name@),
            forall|n: Seq<char>| old(self).has(n) ==> #[trigger] final(self).has(n),
            forall|n: Seq<char>| n != name@ ==> #[trigger] final(self).entry(n) == old(self).entry(n),
            r is Ok ==> final(self).entry(name@) == match target {
                Some(s) => Some(Some(s@)),
                None => Some(None::<Seq<char>>),
            },
    {
        if let Some(j) = self.find(name) {
            assert(self.keys@[j as int]@ == name@);
            return Err(CompileError::Redefinition(name.clone()));
        }
        self.keys.push(name.clone());
        self.targets.push(target);
        proof {
            assert(self.keys@[self.keys@.len() - 1]@ == name@);
            assert forall|n: Seq<char>| old(self).has(n) implies #[trigger] self.has(n) by {
                let j = choose|j: int| 0 <= j < old(self).keys@.len() && (#[trigger] old(self).keys@[j])@ == n;
                assert(self.keys@[j] == old(self).keys@[j]);
            }
            assert forall|n: Seq<char>| n != name@ implies #[trigger] self.entry(n) == old(self).entry(n) by {
                if old(self).has(n) {
                    let j = old(self).index_of(n);
                    old(self).lemma_index_of(j);
                    assert(self.keys@[j] == old(self).keys@[j]);
                    self.lemma_index_of(j);
                } else {
                    if self.has(n) {
                        let j = self.index_of(n);
                        if j < old(self).keys@.len() {
                            assert(old(self).keys@[j] == self.keys@[j]);
                        }
                    }
                }
            }
            let last = self.keys@.len() - 1;
            self.lemma_index_of(last);
        }
        Ok(())
    }

    /// Follows the alias chain from `name` to the index of its final binding.
    pub fn resolve(&self, name: &String) -> (r: Result<usize, CompileError>)
        requires
            self.wf(),
        ensures
            resolves_to(*self, name@, r),
            r matches Ok(j) ==> resolved(*self, name@) == Some(j as int),
            r is Err ==> resolved(*self, name@) is None,
    {
        let mut visited: Vec<String> = Vec::new();
        let ghost mut idx: Seq<int> = Seq::empty();
        let mut cur: String = name.clone();
        assert(views(visited@) =~= Seq::<Seq<char>>::empty());
        loop
            invariant
                self.wf(),
                visited@.len() == idx.len(),
                cur@ == chain(*self, name@, visited@.len() as nat),
                aliases_upto(*self, name@, visited@.len() as nat),
                forall|t: int| 0 <= t < visited@.len() ==> (#[trigger] visited@[t])@ == chain(*self, name@, t as nat),
                forall|t: int| 0 <= t < idx.len() ==> 0 <= #[trigger] idx[t] < self.keys@.len()
                    && self.keys@[idx[t]]@ == visited@[t]@,
                forall|a: int, b: int| 0 <= a < b < visited@.len() ==> (#[trigger] visited@[a])@ != (#[trigger] visited@[b])@,
                visited@.len() <= self.keys@.len(),
                resolved(*self, name@) == resolve_from(*self, cur@, views(visited@), (self.keys@.len() + 1 - visited@.len()) as nat),
            decreases self.keys@.len() - visited@.len(),
        {
            proof {
                assert forall|a: nat, b: nat| a < b < visited@.len() implies #[trigger] chain(*self, name@, a) != #[trigger] chain(*self, name@, b) by {
                    assert(visited@[a as int]@ != visited@[b as int]@);
                }
            }
            if let Some(t) = position_of(&visited, &cur) {
                assert(chain(*self, name@, t as nat) == chain(*self, name@, visited@.len() as nat));
                assert(views(visited@)[t as int] == cur@);
                return Err(CompileError::CircularDefinition(cur));
            }
            let ghost n = visited@.len() as nat;
            assert(!views(visited@).contains(cur@));
            match self.find(&cur) {
                None => {
                    assert(self.entry(chain(*self, name@, n)) is None);
                    return Err(CompileError::UnknownSymbol(cur));
                },
                Some(j) => {
                    match &self.targets[j] {
                        None => {
                            assert(chain(*self, name@, n) == self.keys@[j as int]@);
                            proof {
                                self.lemma_index_of(j as int);
                            }
                            return Ok(j);
                        },
                        Some(target) => {
                            let next = target.clone();
                            proof {
                                self.lemma_index_of(j as int);
                                assert(views(visited@).push(cur@) =~= views(visited@.push(cur)));
                                idx = idx.push(j as int);
                                assert forall|q: nat| q < n + 1 implies (#[trigger] self.entry(chain(*self, name@, q))) matches Some(Some(_)) by {
                                    if q < n {
                                        assert(aliases_upto(*self, name@, n));
                                    }
                                }
                            }
                            visited.push(cur);
                            cur = next;
                            proof {
                                assert(idx.no_duplicates()) by {
                                    assert forall|a: int, b: int| 0 <= a < idx.len() && 0 <= b < idx.len() && a != b implies idx[a] != idx[b] by {
                                        if a < b {
                                            assert(visited@[a]@ != visited@[b]@);
                                        } else {
                                            assert(visited@[b]@ != visited@[a]@);
                                        }
                                    }
                                }
                                idx.unique_seq_to_set();
                                lemma_int_range(0, self.keys@.len() as int);
                                assert forall|x: int| idx.to_set().contains(x) implies set_int_range(0, self.keys@.len() as int).contains(x) by {
                                    let q = choose|q: int| 0 <= q < idx.len() && idx[q] == x;
                                    assert(0 <= idx[q] < self.keys@.len());
                                }
                                lemma_len_subset(idx.to_set(), set_int_range(0, self.keys@.len() as int));
                            }

                        },
                    }
                },
            }
        }
    }
}

/// The first index at which `v` holds `s`.
pub fn position_of(v: &Vec<String>, s: &String) -> (r: Option<usize>)
    ensures
        match r {
            Some(t) => t < v@.len() && v@[t as int]@ == s@ && forall|q: int| 0 <= q < t ==> (#[trigger] v@[q])@ != s@,
            None => forall|q: int| 0 <= q < v@.len() ==> (#[trigger] v@[q])@ != s@,
        },
{
    let mut t: usize = 0;
    while t < v.len()
        invariant
            t <= v@.len(),
            forall|q: int| 0 <= q < t ==> (#[trigger] v@[q])@ != s@,
        decreases v@.len() - t,
    {
        if v[t] == *s {
            return Some(t);
        }
        t = t + 1;
    }
    None
}

/// Resolution ends at a final binding: the index it returns is bound to nothing further.
pub proof fn lemma_resolved_is_final(t: Names, name: Seq<char>, visited: Seq<Seq<char>>, fuel: nat)
    requires
        t.wf(),
        resolve_from(t, name, visited, fuel) is Some,
    ensures
        ({
            let j = resolve_from(t, name, visited, fuel)->Some_0;
            &&& 0 <= j < t.keys@.len()
            &&& t.targets@[j] is None
            &&& t.entry(t.keys@[j]@) == Some(None::<Seq<char>>)
        }),
    decreases fuel,
{
    let j0 = t.index_of(name);
    match t.targets@[j0] {
        None => {
            t.lemma_index_of(j0);
        },
        Some(to) => {
            lemma_resolved_is_final(t, to@, visited.push(name), (fuel - 1) as nat);
            let j = resolve_from(t, name, visited, fuel)->Some_0;
            t.lemma_index_of(j);
        },
    }
}

} // verus!
