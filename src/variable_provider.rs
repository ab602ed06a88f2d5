use crate::ac3::{DomainType, IdentifierType};
use rand::rngs::SmallRng;
use rand::seq::SliceRandom;
use vstd::prelude::*;

verus! {

#[verifier::external_type_specification]
#[verifier::external_body]
pub struct ExSmallRng(rand::rngs::SmallRng);

/// Relies on rand's `SliceRandom::choose`: it gives `None` for an empty
/// slice and otherwise one of the slice's items, drawn from `rng`.
#[verifier::external_body]
pub(crate) fn pick<T: Copy>(items: &Vec<T>, rng: &mut SmallRng) -> (r: Option<T>)
    ensures
        r is None <==> items@.len() == 0,
        r is Some ==> items@.contains(r->0),
{
    items.choose(rng).copied()
}

/// Stable numeric identity of a variable: its position in the store.
#[derive(Clone, Copy, PartialEq, Eq, Hash, Debug, Structural)]
pub struct VariableID(pub usize);

impl VariableID {
    /// The position this identity stands for.
    pub open spec fn id(self) -> int {
        self.0 as int
    }
}

/// A node of the constraint graph with its remaining candidate values. In a
/// tile map it might be a single tile, for example.
#[derive(Debug)]
pub struct Variable<D, K> {
    /// The possible values available to this variable.
    domain: Vec<D>,
    /// How external users refer to this variable.
    pub identifier: K,
    /// Internal tracker for the variable.
    pub index: VariableID,
}

/// Why a variable could not be added.
#[derive(PartialEq, Eq, Debug)]
pub enum VariableError<K> {
    /// The caller-facing key is already in use.
    DuplicateKey(K),
}

impl<D: DomainType, K: IdentifierType> Variable<D, K> {
    /// The candidate values, in order.
    pub closed spec fn values(&self) -> Seq<D> {
        self.domain@
    }

    /// The caller-facing key.
    pub closed spec fn key(&self) -> K {
        self.identifier
    }

    /// The identity in the store.
    pub closed spec fn ident(&self) -> VariableID {
        self.index
    }

    /// A variable with key `id`, identity `index` and the given values.
    pub fn new(id: K, index: usize, values: Vec<D>) -> (r: Self)
        ensures
            r.key() == id,
            r.ident() == VariableID(index),
            r.values() == values@,
    {
        Variable { domain: values, identifier: id, index: VariableID(index) }
    }

    /// The identity in the store.
    pub fn get_index(&self) -> (r: VariableID)
        ensures
            r == self.ident(),
    {
        self.index
    }

    /// The caller-facing key.
    pub fn get_identifier(&self) -> (r: K)
        ensures
            r == self.key(),
    {
        self.identifier
    }

    /// Whether the variable has any possible value remaining.
    pub fn is_consistent(&self) -> (r: bool)
        ensures
            r == (self.values().len() > 0),
    {
        self.domain.len() > 0
    }

    pub fn possible_values(&self) -> (r: &Vec<D>)
        ensures
            r@ == self.values(),
    {
        &self.domain
    }

    pub fn possible_values_mut(&mut self) -> (r: &mut Vec<D>)
        ensures
            r@ == old(self).values(),
            final(self).values() == final(r)@,
            final(self).key() == old(self).key(),
            final(self).ident() == old(self).ident(),
    {
        &mut self.domain
    }

    /// Keeps the values for which `f` answers `true`, in their order.
    pub fn retain<F: Fn(&D) -> bool>(&mut self, f: F)
        requires
            forall|v: D| #[trigger] f.requires((&v,)),
        ensures
            final(self).key() == old(self).key(),
            final(self).ident() == old(self).ident(),
            final(self).values().len() <= old(self).values().len(),
            forall|i: int|
                0 <= i < final(self).values().len() ==> old(self).values().contains(
                    #[trigger] final(self).values()[i],
                ) && f.ensures((&final(self).values()[i],), true),
            forall|i: int|
                0 <= i < old(self).values().len() && f.ensures(
                    (&#[trigger] old(self).values()[i],),
                    true,
                ) && !f.ensures((&old(self).values()[i],), false)
                    ==> final(self).values().contains(old(self).values()[i]),
    {
        let mut kept: Vec<D> = Vec::new();
        let n = self.domain.len();
        let mut i: usize = 0;
        while i < n
            invariant
                n == self.domain.len(),
                i <= n,
                kept.len() <= i,
                forall|v: D| #[trigger] f.requires((&v,)),
                forall|j: int|
                    0 <= j < kept.len() ==> self.domain@.contains(#[trigger] kept@[j]) && f.ensures(
                        (&kept@[j],),
                        true,
                    ),
                forall|j: int|
                    0 <= j < i && f.ensures((&#[trigger] self.domain@[j],), true) && !f.ensures(
                        (&self.domain@[j],),
                        false,
                    ) ==> kept@.contains(self.domain@[j]),
            decreases n - i,
        {
            let v = self.domain[i];
            let keep = f(&v);
            let ghost prev = kept@;
            if keep {
                kept.push(v);
                assert(kept@[kept.len() - 1] == v);
                assert(forall|x: D| prev.contains(x) ==> kept@.contains(x)) by {
                    assert forall|x: D| prev.contains(x) implies kept@.contains(x) by {
                        let k = choose|k: int| 0 <= k < prev.len() && prev[k] == x;
                        assert(kept@[k] == x);
                    }
                }
            }
            proof {
                assert forall|j: int|
                    0 <= j < i + 1 && f.ensures((&#[trigger] self.domain@[j],), true) && !f.ensures(
                        (&self.domain@[j],),
                        false,
                    ) implies kept@.contains(self.domain@[j]) by {
                    if j == i {
                        if !keep {
                            assert(f.ensures((&v,), false));
                        }
                    } else {
                        assert(prev.contains(self.domain@[j]));
                    }
                }
            }
            i = i + 1;
        }
        self.domain = kept;
    }

    /// Selects one of the possible values at random, `None` when none is left.
    pub fn random_value(&self, rng: &mut SmallRng) -> (r: Option<D>)
        ensures
            r is None <==> self.values().len() == 0,
            r is Some ==> self.values().contains(r->0),
    {
        pick(&self.domain, rng)
    }

    pub fn replace_possible_values(&mut self, values: Vec<D>)
        ensures
            final(self).values() == values@,
            final(self).key() == old(self).key(),
            final(self).ident() == old(self).ident(),
    {
        self.domain = values;
    }
}

/// Maps caller-facing keys (`K`) to [`Variable`]s, each with its possible
/// values (a subset of the full domain, `D`). A variable's [`VariableID`] is
/// its position, assigned in insertion order.
#[derive(Debug)]
pub struct VariableProvider<D, K> {
    identifiers: Vec<Variable<D, K>>,
}

/// Copies a sequence of values into a new vector.
pub(crate) fn copy_values<D: Copy>(values: &Vec<D>) -> (r: Vec<D>)
    ensures
        r@ == values@,
{
    let mut out: Vec<D> = Vec::new();
    let mut i: usize = 0;
    while i < values.len()
        invariant
            i <= values.len(),
            out@ == values@.subrange(0, i as int),
        decreases values.len() - i,
    {
        out.push(values[i]);
        i = i + 1;
    }
    assert(out@ =~= values@);
    out
}

impl<D: DomainType, K: IdentifierType> VariableProvider<D, K> {
    /// The candidate values of every variable, by identity.
    pub closed spec fn domains(&self) -> Seq<Seq<D>> {
        Seq::new(self.identifiers@.len(), |i: int| self.identifiers@[i].values())
    }

    /// The caller-facing key of every variable, by identity.
    pub closed spec fn keys(&self) -> Seq<K> {
        Seq::new(self.identifiers@.len(), |i: int| self.identifiers@[i].identifier)
    }

    /// Each variable's identity is its position.
    pub closed spec fn indexed(&self) -> bool {
        forall|i: int|
            0 <= i < self.identifiers@.len() ==> (#[trigger] self.identifiers@[i]).index
                == VariableID(i as usize)
    }

    /// The store's invariant: identities are positions and keys are unique.
    pub open spec fn wf(&self) -> bool {
        &&& self.keys().len() == self.domains().len()
        &&& self.indexed()
        &&& forall|i: int, j: int|
            0 <= i < j < self.keys().len() ==> self.keys()[i] != self.keys()[j]
    }

    /// The number of variables.
    pub open spec fn size(&self) -> nat {
        self.domains().len()
    }

    /// Whether `id` names a variable of this store.
    pub open spec fn contains_id(&self, id: VariableID) -> bool {
        id.0 < self.size()
    }

    /// Whether no variable's domain is empty.
    pub open spec fn all_consistent(&self) -> bool {
        forall|i: int| 0 <= i < self.size() ==> #[trigger] self.domains()[i].len() > 0
    }

    /// Whether the variable at `i` comes before the one at `j` when ordered
    /// by domain size, then by key.
    pub open spec fn more_constrained(&self, i: int, j: int) -> bool {
        let (li, lj) = (self.domains()[i].len(), self.domains()[j].len());
        li < lj || (li == lj && self.keys()[i].rank() < self.keys()[j].rank())
    }

    pub fn new() -> (r: Self)
        ensures
            r.wf(),
            r.size() == 0,
    {
        let r = VariableProvider { identifiers: Vec::new() };
        assert(r.keys().len() == 0);
        r
    }

    /// A store holding one variable per entry, in order.
    ///
    /// # Errors
    ///
    /// Fails with the first key that repeats an earlier one.
    pub fn from_entries(entries: Vec<(K, Vec<D>)>) -> (r: Result<Self, VariableError<K>>)
        requires
            entries@.len() < usize::MAX,
        ensures
            r is Ok <==> forall|i: int, j: int|
                0 <= i < j < entries@.len() ==> (#[trigger] entries@[i]).0 != (#[trigger] entries@[j]).0,
            r matches Ok(p) ==> p.wf() && p.keys() == entries@.map_values(|e: (K, Vec<D>)| e.0)
                && p.domains() == entries@.map_values(|e: (K, Vec<D>)| e.1@),
            r matches Err(VariableError::DuplicateKey(k)) ==> exists|i: int, j: int|
                0 <= i < j < entries@.len() && (#[trigger] entries@[i]).0 == k && (#[trigger] entries@[j]).0 == k,
    {
        let ghost all = entries@;
        let mut rest = entries;
        let mut store = Self::new();
        let mut k: usize = 0;
        while rest.len() > 0
            invariant
                store.wf(),
                all == entries@,
                all.len() < usize::MAX,
                k + rest@.len() == all.len(),
                rest@ == all.subrange(k as int, all.len() as int),
                store.size() == k,
                store.keys() == all.take(k as int).map_values(|e: (K, Vec<D>)| e.0),
                store.domains() == all.take(k as int).map_values(|e: (K, Vec<D>)| e.1@),
            decreases rest.len(),
        {
            let (key, values) = rest.remove(0);
            assert(all[k as int] == (key, values));
            let ghost before = store.keys();
            match store.add_var(key, values) {
                Ok(_) => {},
                Err(e) => {
                    proof {
                        assert(before.contains(key));
                        assert(e == VariableError::DuplicateKey(key));
                        let i = choose|i: int| 0 <= i < before.len() && before[i] == key;
                        assert(all.take(k as int)[i] == all[i]);
                        assert(all[i].0 == key);
                        assert(all[k as int].0 == key);
                        assert(i < k);
                    }
                    return Err(e);
                },
            }
            assert(all.take(k + 1).map_values(|e: (K, Vec<D>)| e.0) =~= all.take(k as int).map_values(
                |e: (K, Vec<D>)| e.0,
            ).push(key));
            assert(all.take(k + 1).map_values(|e: (K, Vec<D>)| e.1@) =~= all.take(k as int).map_values(
                |e: (K, Vec<D>)| e.1@,
            ).push(values@));
            k = k + 1;
            assert(rest@ =~= all.subrange(k as int, all.len() as int));
        }
        assert(all.take(k as int) =~= all);
        assert forall|i: int, j: int| 0 <= i < j < all.len() implies (#[trigger] all[i]).0 != (#[trigger] all[j]).0 by {
            assert(store.keys()[i] == all[i].0);
            assert(store.keys()[j] == all[j].0);
        }
        Ok(store)
    }

    /// The number of variables.
    pub fn len(&self) -> (r: usize)
        ensures
            r == self.size(),
    {
        self.identifiers.len()
    }

    /// Adds a variable with the given key and initial values.
    ///
    /// # Errors
    ///
    /// Fails if the key is already in use; the store is then unchanged.
    pub fn add_var(&mut self, id: K, values: Vec<D>) -> (r: Result<VariableID, VariableError<K>>)
        requires
            old(self).wf(),
            old(self).size() < usize::MAX,
        ensures
            final(self).wf(),
            old(self).keys().contains(id) ==> r == Err::<VariableID, VariableError<K>>(
                VariableError::DuplicateKey(id),
            ) && *final(self) == *old(self),
            !old(self).keys().contains(id) ==> r == Ok::<VariableID, VariableError<K>>(
                VariableID(old(self).size() as usize),
            ) && final(self).keys() == old(self).keys().push(id) && final(self).domains()
                == old(self).domains().push(values@),
    {
        let n = self.identifiers.len();
        let mut i: usize = 0;
        while i < n
            invariant
                n == self.identifiers.len(),
                self.wf(),
                *self == *old(self),
                i <= n,
                forall|j: int| 0 <= j < i ==> self.keys()[j] != id,
            decreases n - i,
        {
            if self.identifiers[i].identifier.same(&id) {
                assert(self.keys()[i as int] == id);
                return Err(VariableError::DuplicateKey(id));
            }
            i = i + 1;
        }
        let ghost before = *self;
        let var = Variable::new(id, n, values);
        let var_id = var.index;
        self.identifiers.push(var);
        assert(self.keys() =~= before.keys().push(id));
        assert(self.domains() =~= before.domains().push(values@));
        assert(self.indexed()) by {
            assert forall|k: int| 0 <= k < self.identifiers@.len() implies (
            #[trigger] self.identifiers@[k]).index == VariableID(k as usize) by {
                if k < n {
                    assert(self.identifiers@[k] == before.identifiers@[k]);
                }
            }
        }
        assert(!before.keys().contains(id)) by {
            if before.keys().contains(id) {
                let j = choose|j: int| 0 <= j < before.keys().len() && before.keys()[j] == id;
                assert(self.keys()[j] != id);
            }
        }
        Ok(var_id)
    }

    /// Replaces the possible values of the given variable; an unknown
    /// identity leaves the store unchanged.
    pub fn update_var(&mut self, id: VariableID, values: Vec<D>)
        requires
            old(self).wf(),
        ensures
            final(self).wf(),
            final(self).keys() == old(self).keys(),
            old(self).contains_id(id) ==> final(self).domains() == old(self).domains().update(
                id.0 as int,
                values@,
            ),
            !old(self).contains_id(id) ==> final(self).domains() == old(self).domains(),
    {
        if id.0 < self.identifiers.len() {
            let ghost before = *self;
            self.identifiers[id.0].replace_possible_values(values);
            assert(self.keys() =~= before.keys());
            assert(self.domains() =~= before.domains().update(id.0 as int, values@));
            assert(self.indexed()) by {
                assert forall|k: int| 0 <= k < self.identifiers@.len() implies (
                #[trigger] self.identifiers@[k]).index == VariableID(k as usize) by {
                    if k != id.0 {
                        assert(self.identifiers@[k] == before.identifiers@[k]);
                    }
                }
            }
        }
    }

    #[must_use]
    pub fn get_var(&self, index: VariableID) -> (r: Option<&Variable<D, K>>)
        requires
            self.wf(),
        ensures
            r is Some <==> self.contains_id(index),
            r is Some ==> r->0.ident() == index && r->0.key() == self.keys()[index.0 as int]
                && r->0.values() == self.domains()[index.0 as int],
    {
        if index.0 < self.identifiers.len() {
            Some(&self.identifiers[index.0])
        } else {
            None
        }
    }

    /// The position of the variable with key `var`, if there is one.
    fn position(&self, var: K) -> (r: Option<usize>)
        requires
            self.wf(),
        ensures
            r is None <==> !self.keys().contains(var),
            r is Some ==> r->0 < self.size() && self.keys()[r->0 as int] == var,
    {
        let n = self.identifiers.len();
        let mut i: usize = 0;
        while i < n
            invariant
                n == self.identifiers.len(),
                n == self.size(),
                i <= n,
                forall|j: int| 0 <= j < i ==> self.keys()[j] != var,
            decreases n - i,
        {
            if self.identifiers[i].identifier.same(&var) {
                assert(self.keys()[i as int] == var);
                return Some(i);
            }
            i = i + 1;
        }
        assert(!self.keys().contains(var)) by {
            if self.keys().contains(var) {
                let j = choose|j: int| 0 <= j < self.keys().len() && self.keys()[j] == var;
                assert(self.keys()[j] != var);
            }
        }
        None
    }

    #[must_use]
    pub fn find_var(&self, var: K) -> (r: Option<&Variable<D, K>>)
        requires
            self.wf(),
        ensures
            r is None <==> !self.keys().contains(var),
            r is Some ==> r->0.key() == var && self.contains_id(r->0.ident())
                && self.keys()[r->0.ident().0 as int] == var && r->0.values()
                == self.domains()[r->0.ident().0 as int],
    {
        match self.position(var) {
            Some(i) => Some(&self.identifiers[i]),
            None => None,
        }
    }

    #[must_use]
    pub fn find_id(&self, var: K) -> (r: Option<VariableID>)
        requires
            self.wf(),
        ensures
            r is None <==> !self.keys().contains(var),
            r is Some ==> self.contains_id(r->0) && self.keys()[r->0.id()] == var,
    {
        match self.position(var) {
            Some(i) => Some(VariableID(i)),
            None => None,
        }
    }

    /// The unresolved variable (more than one value) with the fewest values,
    /// ties broken by key order; `None` when every domain has at most one value.
    pub fn next_reducable_variable(&self) -> (r: Option<VariableID>)
        requires
            self.wf(),
        ensures
            r is None <==> forall|i: int| 0 <= i < self.size() ==> #[trigger] self.domains()[i].len()
                <= 1,
            r is Some ==> self.contains_id(r->0) && self.domains()[r->0.id()].len() > 1
                && forall|j: int|
                0 <= j < self.size() && #[trigger] self.domains()[j].len() > 1 ==> !self.more_constrained(
                    j,
                    r->0.id(),
                ),
    {
        let n = self.identifiers.len();
        let mut best: Option<usize> = None;
        let mut i: usize = 0;
        while i < n
            invariant
                n == self.identifiers.len(),
                n == self.size(),
                self.wf(),
                i <= n,
                best is None ==> forall|j: int| 0 <= j < i ==> #[trigger] self.domains()[j].len() <= 1,
                best is Some ==> best->0 < i && self.domains()[best->0 as int].len() > 1 && forall|
                    j: int,
                |
                    0 <= j < i && #[trigger] self.domains()[j].len() > 1 ==> !self.more_constrained(
                        j,
                        best->0 as int,
                    ),
            decreases n - i,
        {
            let len = self.identifiers[i].domain.len();
            assert(len == self.domains()[i as int].len());
            if len > 1 {
                match best {
                    None => {
                        best = Some(i);
                    },
                    Some(b) => {
                        let blen = self.identifiers[b].domain.len();
                        assert(blen == self.domains()[b as int].len());
                        if len < blen || (len == blen && self.identifiers[i].identifier.precedes(
                            &self.identifiers[b].identifier,
                        )) {
                            best = Some(i);
                        }
                    },
                }
            }
            i = i + 1;
        }
        match best {
            Some(b) => Some(VariableID(b)),
            None => None,
        }
    }

    /// True iff no variable's domain is empty.
    pub fn is_consistent(&self) -> (r: bool)
        requires
            self.wf(),
        ensures
            r == self.all_consistent(),
    {
        let n = self.identifiers.len();
        let mut i: usize = 0;
        while i < n
            invariant
                n == self.identifiers.len(),
                n == self.size(),
                i <= n,
                forall|j: int| 0 <= j < i ==> #[trigger] self.domains()[j].len() > 0,
            decreases n - i,
        {
            if !self.identifiers[i].is_consistent() {
                assert(self.domains()[i as int].len() == 0);
                return false;
            }
            i = i + 1;
        }
        true
    }

    /// A deep copy of every variable's domain, by identity.
    pub fn snapshot(&self) -> (r: Vec<Vec<D>>)
        requires
            self.wf(),
        ensures
            r@.len() == self.size(),
            forall|i: int| 0 <= i < r@.len() ==> (#[trigger] r@[i])@ == self.domains()[i],
    {
        let n = self.identifiers.len();
        let mut out: Vec<Vec<D>> = Vec::new();
        let mut i: usize = 0;
        while i < n
            invariant
                n == self.identifiers.len(),
                n == self.size(),
                i <= n,
                out@.len() == i,
                forall|j: int| 0 <= j < i ==> (#[trigger] out@[j])@ == self.domains()[j],
            decreases n - i,
        {
            out.push(copy_values(&self.identifiers[i].domain));
            i = i + 1;
        }
        out
    }

    /// Reinstates every variable's domain from a snapshot of this store.
    pub fn restore(&mut self, snapshot: &Vec<Vec<D>>)
        requires
            old(self).wf(),
            snapshot@.len() == old(self).size(),
        ensures
            final(self).wf(),
            final(self).keys() == old(self).keys(),
            final(self).size() == old(self).size(),
            forall|i: int| 0 <= i < final(self).size() ==> #[trigger] final(self).domains()[i]
                == snapshot@[i]@,
    {
        let n = self.identifiers.len();
        let mut i: usize = 0;
        while i < n
            invariant
                n == self.identifiers.len(),
                n == snapshot@.len(),
                self.wf(),
                self.keys() == old(self).keys(),
                i <= n,
                forall|j: int| 0 <= j < i ==> #[trigger] self.domains()[j] == snapshot@[j]@,
            decreases n - i,
        {
            let values = copy_values(&snapshot[i]);
            self.update_var(VariableID(i), values);
            i = i + 1;
        }
    }
}

impl<D: DomainType, K: IdentifierType> Default for VariableProvider<D, K> {
    fn default() -> (r: Self)
        ensures
            r.wf(),
            r.size() == 0,
    {
        Self::new()
    }
}

} // verus!
