use crate::variable_provider::{Variable, VariableID, VariableProvider};
use std::collections::VecDeque;
use vstd::prelude::*;

verus! {

/// Values that a variable's domain may hold.
pub trait DomainType: Copy {
    /// Whether two values are the same.
    fn same_value(&self, other: &Self) -> (r: bool)
        ensures
            r == (*self == *other),
    ;
}

/// Caller-facing names of variables. Names are ordered by `rank`, which the
/// search uses to break ties between equally constrained variables.
pub trait IdentifierType: Copy {
    /// The position of this name in the total order over names.
    spec fn rank(&self) -> int;

    /// Different names have different ranks, so the order is total.
    proof fn lemma_rank_injective(&self, other: &Self)
        ensures
            self.rank() == other.rank() ==> *self == *other,
    ;

    /// Whether two names are the same.
    fn same(&self, other: &Self) -> (r: bool)
        ensures
            r == (*self == *other),
    ;

    /// Whether this name comes strictly before `other`.
    fn precedes(&self, other: &Self) -> (r: bool)
        ensures
            r == (self.rank() < other.rank()),
    ;
}

/// Allows users to provide a mechanism to validate binary constraints between
/// two variables and their value.
pub trait ConstraintProvider<D: DomainType, K: IdentifierType> {
    /// Whether the provider is fit for use: its answers depend on its inputs alone.
    spec fn valid(&self) -> bool;

    /// Whether value `a_value` of variable `a` is compatible with value
    /// `b_value` of variable `b`; variables are given by identity and key.
    spec fn allows(
        &self,
        a: VariableID,
        a_key: K,
        a_value: D,
        b: VariableID,
        b_key: K,
        b_value: D,
    ) -> bool;

    /// Determine if variable a has a valid relationship with b based on their
    /// identity and value.
    fn check(&self, a: &Variable<D, K>, a_value: &D, b: &Variable<D, K>, b_value: &D) -> (r: bool)
        requires
            self.valid(),
        ensures
            r == self.allows(a.ident(), a.key(), *a_value, b.ident(), b.key(), *b_value),
    ;
}

/// A directed arc: every value of the first variable needs a partner in the second.
pub type Arc = (VariableID, VariableID);

/// Whether value `v` of the variable at `x` is compatible with value `w` of the variable at `y`.
pub open spec fn compatible<D: DomainType, K: IdentifierType, CP: ConstraintProvider<D, K>>(
    cp: &CP,
    keys: Seq<K>,
    x: int,
    v: D,
    y: int,
    w: D,
) -> bool {
    cp.allows(VariableID(x as usize), keys[x], v, VariableID(y as usize), keys[y], w)
}

/// Whether value `v` of the variable at `x` has a compatible partner among `dy`,
/// the values of the variable at `y`.
pub open spec fn has_support<D: DomainType, K: IdentifierType, CP: ConstraintProvider<D, K>>(
    cp: &CP,
    keys: Seq<K>,
    x: int,
    v: D,
    y: int,
    dy: Seq<D>,
) -> bool {
    exists|j: int| 0 <= j < dy.len() && compatible(cp, keys, x, v, y, #[trigger] dy[j])
}

/// The test that a value of `x` passes when it keeps a partner in `dy`.
pub open spec fn support_test<D: DomainType, K: IdentifierType, CP: ConstraintProvider<D, K>>(
    cp: &CP,
    keys: Seq<K>,
    x: int,
    y: int,
    dy: Seq<D>,
) -> spec_fn(D) -> bool {
    |v: D| has_support(cp, keys, x, v, y, dy)
}

/// The values of `dx` (the domain of `x`) that keep a partner in `dy`, in order.
pub open spec fn revised_values<D: DomainType, K: IdentifierType, CP: ConstraintProvider<D, K>>(
    cp: &CP,
    keys: Seq<K>,
    x: int,
    dx: Seq<D>,
    y: int,
    dy: Seq<D>,
) -> Seq<D> {
    dx.filter(support_test(cp, keys, x, y, dy))
}

/// Whether both ends of the arc name variables among `n`.
pub open spec fn arc_in_range(n: nat, arc: Arc) -> bool {
    arc.0.id() < n && arc.1.id() < n
}

/// Whether every value of the arc's source has a partner in its target.
pub open spec fn arc_supported<D: DomainType, K: IdentifierType, CP: ConstraintProvider<D, K>>(
    cp: &CP,
    keys: Seq<K>,
    doms: Seq<Seq<D>>,
    arc: Arc,
) -> bool {
    arc_in_range(doms.len(), arc) ==> forall|i: int|
        0 <= i < doms[arc.0.id()].len() ==> has_support(
            cp,
            keys,
            arc.0.id(),
            #[trigger] doms[arc.0.id()][i],
            arc.1.id(),
            doms[arc.1.id()],
        )
}

/// Whether every arc of the list is supported.
pub open spec fn arc_consistent<D: DomainType, K: IdentifierType, CP: ConstraintProvider<D, K>>(
    cp: &CP,
    keys: Seq<K>,
    doms: Seq<Seq<D>>,
    arcs: Seq<Arc>,
) -> bool {
    forall|k: int| 0 <= k < arcs.len() ==> arc_supported(cp, keys, doms, #[trigger] arcs[k])
}

/// Whether each domain of `after` keeps only values of the same domain of `before`.
pub open spec fn shrunk<D>(before: Seq<Seq<D>>, after: Seq<Seq<D>>) -> bool {
    &&& after.len() == before.len()
    &&& forall|i: int| 0 <= i < after.len() ==> is_subsequence(#[trigger] after[i], before[i])
    &&& forall|i: int| 0 <= i < after.len() ==> #[trigger] after[i].len() <= before[i].len()
    &&& forall|i: int, v: D| 0 <= i < after.len() && #[trigger] after[i].contains(v) ==> before[i].contains(v)
}

/// Whether `m` maps each position of `a` to a position of `b` holding the
/// same value, in strictly increasing order.
pub open spec fn embeds<A>(a: Seq<A>, b: Seq<A>, m: Seq<int>) -> bool {
    &&& m.len() == a.len()
    &&& forall|i: int| 0 <= i < a.len() ==> 0 <= #[trigger] m[i] < b.len() && a[i] == b[m[i]]
    &&& forall|i: int, j: int| 0 <= i < j < a.len() ==> #[trigger] m[i] < #[trigger] m[j]
}

/// Whether `a` is `b` with some values left out, the rest in their order.
pub open spec fn is_subsequence<A>(a: Seq<A>, b: Seq<A>) -> bool {
    exists|m: Seq<int>| embeds(a, b, m)
}

pub proof fn lemma_subsequence_refl<A>(a: Seq<A>)
    ensures
        is_subsequence(a, a),
{
    let m = Seq::new(a.len(), |i: int| i);
    assert(embeds(a, a, m));
}

pub proof fn lemma_subsequence_trans<A>(a: Seq<A>, b: Seq<A>, c: Seq<A>)
    requires
        is_subsequence(a, b),
        is_subsequence(b, c),
    ensures
        is_subsequence(a, c),
{
    let m1 = choose|m: Seq<int>| embeds(a, b, m);
    let m2 = choose|m: Seq<int>| embeds(b, c, m);
    let m = Seq::new(a.len(), |i: int| m2[m1[i]]);
    assert forall|i: int, j: int| 0 <= i < j < a.len() implies #[trigger] m[i] < #[trigger] m[j] by {
        assert(m1[i] < m1[j]);
    }
    assert(embeds(a, c, m));
}

pub proof fn lemma_filter_subsequence<A>(s: Seq<A>, pred: spec_fn(A) -> bool)
    ensures
        is_subsequence(s.filter(pred), s),
    decreases s.len(),
{
    reveal(Seq::filter);
    if s.len() == 0 {
        lemma_subsequence_refl(s);
    } else {
        let rest = s.drop_last();
        lemma_filter_subsequence(rest, pred);
        let sub = rest.filter(pred);
        let m0 = choose|m: Seq<int>| embeds(sub, rest, m);
        if pred(s.last()) {
            let m = m0.push(s.len() - 1);
            let f = sub.push(s.last());
            assert forall|i: int| 0 <= i < f.len() implies 0 <= #[trigger] m[i] < s.len() && f[i] == s[m[i]] by {
                if i < sub.len() {
                    assert(m[i] == m0[i]);
                }
            }
            assert forall|i: int, j: int| 0 <= i < j < f.len() implies #[trigger] m[i] < #[trigger] m[j] by {
                if j < sub.len() {
                    assert(m0[i] < m0[j]);
                } else {
                    assert(m[i] == m0[i]);
                }
            }
            assert(embeds(f, s, m));
        } else {
            assert(embeds(sub, s, m0));
        }
    }
}

pub proof fn lemma_subsequence_contains<A>(a: Seq<A>, b: Seq<A>, v: A)
    requires
        is_subsequence(a, b),
        a.contains(v),
    ensures
        b.contains(v),
{
    let m = choose|m: Seq<int>| embeds(a, b, m);
    let i = choose|i: int| 0 <= i < a.len() && a[i] == v;
    assert(b[m[i]] == v);
}

/// Whether `a` picks one value from each domain so that every arc in range is satisfied.
pub open spec fn is_solution<D: DomainType, K: IdentifierType, CP: ConstraintProvider<D, K>>(
    cp: &CP,
    keys: Seq<K>,
    doms: Seq<Seq<D>>,
    arcs: Seq<Arc>,
    a: Seq<D>,
) -> bool {
    &&& a.len() == doms.len()
    &&& forall|i: int| 0 <= i < a.len() ==> #[trigger] doms[i].contains(a[i])
    &&& forall|k: int|
        0 <= k < arcs.len() && arc_in_range(doms.len(), #[trigger] arcs[k]) ==> compatible(
            cp,
            keys,
            arcs[k].0.id(),
            a[arcs[k].0.id()],
            arcs[k].1.id(),
            a[arcs[k].1.id()],
        )
}

/// What one pass of AC-3 makes of the domains `before`: `after` keeps only
/// values of `before`, every arc is supported, no solution is lost, and
/// domains that were already arc-consistent stay as they were.
pub open spec fn ac3_outcome<D: DomainType, K: IdentifierType, CP: ConstraintProvider<D, K>>(
    cp: &CP,
    keys: Seq<K>,
    arcs: Seq<Arc>,
    before: Seq<Seq<D>>,
    after: Seq<Seq<D>>,
) -> bool {
    &&& shrunk(before, after)
    &&& arc_consistent(cp, keys, after, arcs)
    &&& forall|a: Seq<D>| #[trigger]
        is_solution(cp, keys, before, arcs, a) ==> is_solution(cp, keys, after, arcs, a)
    &&& arc_consistent(cp, keys, before, arcs) ==> after == before
}

/// The total number of candidate values over all domains.
pub open spec fn total_size<D>(doms: Seq<Seq<D>>) -> nat
    decreases doms.len(),
{
    if doms.len() == 0 {
        0
    } else {
        total_size(doms.drop_last()) + doms.last().len()
    }
}

pub proof fn lemma_total_size_update<D>(doms: Seq<Seq<D>>, i: int, s: Seq<D>)
    requires
        0 <= i < doms.len(),
    ensures
        total_size(doms.update(i, s)) + doms[i].len() == total_size(doms) + s.len(),
    decreases doms.len(),
{
    let u = doms.update(i, s);
    if i == doms.len() - 1 {
        assert(u.drop_last() =~= doms.drop_last());
    } else {
        assert(u.drop_last() =~= doms.drop_last().update(i, s));
        lemma_total_size_update(doms.drop_last(), i, s);
    }
}

pub proof fn lemma_total_size_le<D>(a: Seq<Seq<D>>, b: Seq<Seq<D>>)
    requires
        a.len() == b.len(),
        forall|i: int| 0 <= i < a.len() ==> #[trigger] a[i].len() <= b[i].len(),
    ensures
        total_size(a) <= total_size(b),
    decreases a.len(),
{
    if a.len() > 0 {
        lemma_total_size_le(a.drop_last(), b.drop_last());
    }
}

proof fn lemma_filter_keeps_all<A>(s: Seq<A>, pred: spec_fn(A) -> bool)
    requires
        forall|i: int| 0 <= i < s.len() ==> pred(#[trigger] s[i]),
    ensures
        s.filter(pred) == s,
    decreases s.len(),
{
    reveal(Seq::filter);
    if s.len() > 0 {
        lemma_filter_keeps_all(s.drop_last(), pred);
        assert(s.drop_last().push(s.last()) =~= s);
    }
}

proof fn lemma_filter_drops<A>(s: Seq<A>, pred: spec_fn(A) -> bool, i: int)
    requires
        0 <= i < s.len(),
        !pred(s[i]),
    ensures
        s.filter(pred).len() < s.len(),
    decreases s.len(),
{
    reveal(Seq::filter);
    s.drop_last().lemma_filter_len(pred);
    if i < s.len() - 1 {
        lemma_filter_drops(s.drop_last(), pred, i);
    }
}

/// Whether value `v` of `x` has a compatible partner among the values of `y`.
fn supported<D: DomainType, K: IdentifierType, CP: ConstraintProvider<D, K>>(
    x: &Variable<D, K>,
    v: &D,
    y: &Variable<D, K>,
    constraints: &CP,
) -> (r: bool)
    requires
        constraints.valid(),
    ensures
        r == exists|j: int|
            0 <= j < y.values().len() && constraints.allows(
                x.ident(),
                x.key(),
                *v,
                y.ident(),
                y.key(),
                #[trigger] y.values()[j],
            ),
{
    let ys = y.possible_values();
    let mut j: usize = 0;
    while j < ys.len()
        invariant
            ys@ == y.values(),
            j <= ys.len(),
            constraints.valid(),
            forall|k: int|
                0 <= k < j ==> !constraints.allows(
                    x.ident(),
                    x.key(),
                    *v,
                    y.ident(),
                    y.key(),
                    #[trigger] y.values()[k],
                ),
        decreases ys.len() - j,
    {
        if constraints.check(x, v, y, &ys[j]) {
            return true;
        }
        j = j + 1;
    }
    false
}

/// Removes invalid domain values from a given variable `x`, by verifying
/// constraints in relation to `y`. Returns whether any value was removed;
/// identities outside the store leave it unchanged.
pub fn revise<D: DomainType, K: IdentifierType, CP: ConstraintProvider<D, K>>(
    variables: &mut VariableProvider<D, K>,
    constraints: &CP,
    x: VariableID,
    y: VariableID,
) -> (revised: bool)
    requires
        old(variables).wf(),
        constraints.valid(),
    ensures
        final(variables).wf(),
        final(variables).keys() == old(variables).keys(),
        arc_in_range(old(variables).size(), (x, y)) ==> final(variables).domains() == old(
            variables,
        ).domains().update(
            x.id(),
            revised_values(
                constraints,
                old(variables).keys(),
                x.id(),
                old(variables).domains()[x.id()],
                y.id(),
                old(variables).domains()[y.id()],
            ),
        ),
        !arc_in_range(old(variables).size(), (x, y)) ==> final(variables).domains() == old(
            variables,
        ).domains(),
        !revised ==> final(variables).domains() == old(variables).domains(),
        revised == (arc_in_range(old(variables).size(), (x, y)) && exists|i: int|
            0 <= i < old(variables).domains()[x.id()].len() && !has_support(
                constraints,
                old(variables).keys(),
                x.id(),
                #[trigger] old(variables).domains()[x.id()][i],
                y.id(),
                old(variables).domains()[y.id()],
            )),
{
    let n = variables.len();
    if x.0 >= n || y.0 >= n {
        return false;
    }
    let ghost keys = variables.keys();
    let ghost doms = variables.domains();
    let ghost dx = doms[x.id()];
    let ghost dy = doms[y.id()];
    let mut kept: Vec<D> = Vec::new();
    let mut revised = false;
    match (variables.get_var(x), variables.get_var(y)) {
        (Some(xv), Some(yv)) => {
            let xs = xv.possible_values();
            let mut i: usize = 0;
            while i < xs.len()
                invariant
                    xs@ == dx,
                    yv.values() == dy,
                    xv.ident() == x,
                    yv.ident() == y,
                    xv.key() == keys[x.id()],
                    yv.key() == keys[y.id()],
                    0 <= x.id() < keys.len(),
                    0 <= y.id() < keys.len(),
                    constraints.valid(),
                    i <= xs.len(),
                    kept@ == dx.take(i as int).filter(support_test(constraints, keys, x.id(), y.id(), dy)),
                    revised == exists|k: int| 0 <= k < i && !support_test(constraints, keys, x.id(), y.id(), dy)(#[trigger] dx[k]),
                decreases xs.len() - i,
            {
                let v = xs[i];
                let keep = supported(xv, &v, yv, constraints);
                assert(keep == support_test(constraints, keys, x.id(), y.id(), dy)(v)) by {
                    assert(VariableID(x.id() as usize) == x);
                    assert(VariableID(y.id() as usize) == y);
                    assert(support_test(constraints, keys, x.id(), y.id(), dy)(v) == has_support(constraints, keys, x.id(), v, y.id(), dy));
                    if keep {
                        let j = choose|j: int|
                            0 <= j < dy.len() && constraints.allows(
                                x,
                                keys[x.id()],
                                v,
                                y,
                                keys[y.id()],
                                #[trigger] dy[j],
                            );
                        assert(compatible(constraints, keys, x.id(), v, y.id(), dy[j]));
                    }
                    if has_support(constraints, keys, x.id(), v, y.id(), dy) {
                        let j = choose|j: int|
                            0 <= j < dy.len() && compatible(
                                constraints,
                                keys,
                                x.id(),
                                v,
                                y.id(),
                                #[trigger] dy[j],
                            );
                        assert(constraints.allows(x, keys[x.id()], v, y, keys[y.id()], dy[j]));
                    }
                }
                proof {
                    reveal(Seq::filter);
                    assert(dx.take(i + 1).drop_last() =~= dx.take(i as int));
                    assert(dx.take(i + 1).last() == v);
                }
                if keep {
                    kept.push(v);
                } else {
                    revised = true;
                }
                i = i + 1;
            }
            assert(dx.take(dx.len() as int) =~= dx);
        },
        _ => {},
    }
    proof {
        if !revised {
            lemma_filter_keeps_all(dx, support_test(constraints, keys, x.id(), y.id(), dy));
        }
    }
    if revised {
        variables.update_var(x, kept);
    } else {
        assert(doms.update(x.id(), dx) =~= doms);
    }
    revised
}

/// After `x` is revised against `y`, an arc that does not point into `x` and
/// was supported before (or is the revised arc itself) is still supported.
proof fn lemma_revise_keeps_support<D: DomainType, K: IdentifierType, CP: ConstraintProvider<D, K>>(
    cp: &CP,
    keys: Seq<K>,
    before: Seq<Seq<D>>,
    x: VariableID,
    y: VariableID,
    arc: Arc,
)
    requires
        arc_in_range(before.len(), (x, y)),
        arc.1 != x,
        arc_supported(cp, keys, before, arc) || arc == (x, y),
    ensures
        arc_supported(
            cp,
            keys,
            before.update(
                x.id(),
                revised_values(cp, keys, x.id(), before[x.id()], y.id(), before[y.id()]),
            ),
            arc,
        ),
{
    let dx = before[x.id()];
    let dy = before[y.id()];
    let pred = support_test(cp, keys, x.id(), y.id(), dy);
    let f = dx.filter(pred);
    let after = before.update(x.id(), f);
    if arc_in_range(before.len(), arc) {
        let (a, b) = (arc.0.id(), arc.1.id());
        assert(after[b] == before[b]);
        assert forall|i: int| 0 <= i < after[a].len() implies has_support(
            cp,
            keys,
            a,
            #[trigger] after[a][i],
            b,
            after[b],
        ) by {
            if a == x.id() {
                dx.lemma_filter_pred(pred, i);
                if arc != (x, y) {
                    assert(f.contains(f[i]));
                    dx.lemma_filter_contains_rev(pred, f[i]);
                    let i2 = choose|i2: int| 0 <= i2 < dx.len() && dx[i2] == f[i];
                    assert(has_support(cp, keys, a, before[a][i2], b, before[b]));
                } else {
                    assert(arc.1 == y);
                }
            } else {
                assert(after[a] == before[a]);
            }
        }
    }
}

/// Entrypoint for a basic version of [AC-3](https://en.wikipedia.org/wiki/AC-3_algorithm).
///
/// Callers provide the [`VariableProvider`], whose domains are reduced in
/// place; a [`ConstraintProvider`] with the rules between variables; and the
/// directed arcs that say which variables are related. Arcs are worked off
/// first in, first out; when an arc removes values from its source `x`, every
/// arc of the list that points into `x` is queued again. An emptied domain
/// is left for the caller to detect.
pub fn ac3<D: DomainType, K: IdentifierType, CP: ConstraintProvider<D, K>>(
    variables: &mut VariableProvider<D, K>,
    arcs: &[Arc],
    constraints: &CP,
)
    requires
        old(variables).wf(),
        constraints.valid(),
    ensures
        final(variables).wf(),
        final(variables).keys() == old(variables).keys(),
        ac3_outcome(
            constraints,
            old(variables).keys(),
            arcs@,
            old(variables).domains(),
            final(variables).domains(),
        ),
{
    let ghost keys = variables.keys();
    let ghost doms0 = variables.domains();
    assert forall|i: int| 0 <= i < doms0.len() implies is_subsequence(#[trigger] doms0[i], doms0[i]) by {
        lemma_subsequence_refl(doms0[i]);
    }
    let mut queue: VecDeque<Arc> = VecDeque::new();
    let mut k: usize = 0;
    while k < arcs.len()
        invariant
            k <= arcs@.len(),
            queue@ == arcs@.take(k as int),
        decreases arcs.len() - k,
    {
        queue.push_back(arcs[k]);
        assert(arcs@.take(k + 1) =~= arcs@.take(k as int).push(arcs@[k as int]));
        k = k + 1;
    }
    assert(arcs@.take(arcs@.len() as int) =~= arcs@);
    while queue.len() > 0
        invariant
            variables.wf(),
            variables.keys() == keys,
            constraints.valid(),
            shrunk(doms0, variables.domains()),
            forall|a: Seq<D>| #[trigger]
                is_solution(constraints, keys, doms0, arcs@, a) ==> is_solution(
                    constraints,
                    keys,
                    variables.domains(),
                    arcs@,
                    a,
                ),
            arc_consistent(constraints, keys, doms0, arcs@) ==> variables.domains() == doms0,
            forall|q: int| 0 <= q < queue@.len() ==> arcs@.contains(#[trigger] queue@[q]),
            forall|k: int|
                0 <= k < arcs@.len() ==> queue@.contains(#[trigger] arcs@[k]) || arc_supported(
                    constraints,
                    keys,
                    variables.domains(),
                    arcs@[k],
                ),
        decreases total_size(variables.domains()), queue@.len(),
    {
        let ghost old_queue = queue@;
        let arc = queue.pop_front().unwrap();
        let x = arc.0;
        let y = arc.1;
        let ghost rest = queue@;
        let ghost before = variables.domains();
        assert(old_queue[0] == arc);
        assert(arcs@.contains(arc));
        let revised = revise(variables, constraints, x, y);
        let ghost after = variables.domains();
        if revised {
            let mut j: usize = 0;
            while j < arcs.len()
                invariant
                    j <= arcs@.len(),
                    queue@.len() >= rest.len(),
                    forall|q: int| 0 <= q < rest.len() ==> queue@[q] == rest[q],
                    forall|q: int| 0 <= q < queue@.len() ==> arcs@.contains(#[trigger] queue@[q]),
                    forall|i: int|
                        0 <= i < j && (#[trigger] arcs@[i]).1 == x ==> queue@.contains(arcs@[i]),
                decreases arcs.len() - j,
            {
                let ghost prev = queue@;
                if arcs[j].1 == x {
                    queue.push_back(arcs[j]);
                    assert(queue@[queue@.len() - 1] == arcs@[j as int]);
                    assert forall|i: int|
                        0 <= i < j && (#[trigger] arcs@[i]).1 == x implies queue@.contains(
                        arcs@[i]) by {
                        let q = choose|q: int| 0 <= q < prev.len() && prev[q] == arcs@[i];
                        assert(queue@[q] == arcs@[i]);
                    }
                }
                j = j + 1;
            }
        }
        proof {
            let dx = before[x.id()];
            let dy = before[y.id()];
            let pred = support_test(constraints, keys, x.id(), y.id(), dy);
            if revised {
                let i = choose|i: int|
                    0 <= i < dx.len() && !has_support(
                        constraints,
                        keys,
                        x.id(),
                        #[trigger] dx[i],
                        y.id(),
                        dy,
                    );
                lemma_filter_drops(dx, pred, i);
                lemma_total_size_update(before, x.id(), dx.filter(pred));
                assert forall|i: int, v: D|
                    0 <= i < after.len() && #[trigger] after[i].contains(v) implies doms0[i].contains(
                    v) by {
                    if i == x.id() {
                        dx.lemma_filter_contains_rev(pred, v);
                    }
                }
                assert forall|i: int| 0 <= i < after.len() implies #[trigger] after[i].len()
                    <= doms0[i].len() by {
                    if i == x.id() {
                        dx.lemma_filter_len(pred);
                    }
                }
                assert forall|i: int| 0 <= i < after.len() implies is_subsequence(#[trigger] after[i], doms0[i]) by {
                    assert(is_subsequence(before[i], doms0[i]));
                    if i == x.id() {
                        lemma_filter_subsequence(dx, pred);
                        lemma_subsequence_trans(after[i], dx, doms0[i]);
                    }
                }
            }
            assert forall|a: Seq<D>| #[trigger]
                is_solution(constraints, keys, doms0, arcs@, a) implies is_solution(
                constraints,
                keys,
                after,
                arcs@,
                a,
            ) by {
                if revised {
                    assert(is_solution(constraints, keys, before, arcs@, a));
                    let ka = choose|ka: int| 0 <= ka < arcs@.len() && arcs@[ka] == arc;
                    assert(arc_in_range(before.len(), arcs@[ka]));
                    assert(before[y.id()].contains(a[y.id()]));
                    let jy = choose|jy: int| 0 <= jy < dy.len() && dy[jy] == a[y.id()];
                    assert(compatible(constraints, keys, x.id(), a[x.id()], y.id(), dy[jy]));
                    assert(before[x.id()].contains(a[x.id()]));
                    let ix = choose|ix: int| 0 <= ix < dx.len() && dx[ix] == a[x.id()];
                    dx.lemma_filter_contains(pred, ix);
                    assert forall|i: int| 0 <= i < a.len() implies #[trigger] after[i].contains(
                        a[i]) by {
                        if i != x.id() {
                            assert(before[i].contains(a[i]));
                        }
                    }
                }
            }
            if arc_consistent(constraints, keys, doms0, arcs@) {
                let ka = choose|ka: int| 0 <= ka < arcs@.len() && arcs@[ka] == arc;
                assert(arc_supported(constraints, keys, before, arcs@[ka]));
            }
            assert forall|k: int| 0 <= k < arcs@.len() implies queue@.contains(
                #[trigger] arcs@[k],
            ) || arc_supported(constraints, keys, after, arcs@[k]) by {
                let a = arcs@[k];
                if old_queue.contains(a) && a != arc {
                    let q = choose|q: int| 0 <= q < old_queue.len() && old_queue[q] == a;
                    assert(q > 0);
                    assert(rest[q - 1] == a);
                    assert(queue@[q - 1] == a);
                } else if !revised {
                    if a == arc && arc_in_range(before.len(), arc) {
                        assert forall|i: int| 0 <= i < after[x.id()].len() implies has_support(
                            constraints,
                            keys,
                            x.id(),
                            #[trigger] after[x.id()][i],
                            y.id(),
                            after[y.id()],
                        ) by {}
                    }
                } else if a.1 != x {
                    lemma_revise_keeps_support(constraints, keys, before, x, y, a);
                }
            }
        }
    }
}

/// Running AC-3 twice in succession, with no change to the domains in
/// between, leaves them unchanged the second time.
pub proof fn lemma_ac3_idempotent<D: DomainType, K: IdentifierType, CP: ConstraintProvider<D, K>>(
    cp: &CP,
    keys: Seq<K>,
    arcs: Seq<Arc>,
    first_before: Seq<Seq<D>>,
    first_after: Seq<Seq<D>>,
    second_after: Seq<Seq<D>>,
)
    requires
        ac3_outcome(cp, keys, arcs, first_before, first_after),
        ac3_outcome(cp, keys, arcs, first_after, second_after),
    ensures
        second_after == first_after,
{
}

/// Whether `f` answers for every pair of values, and always the same way.
pub open spec fn pure_rule<D, F: Fn(&D, &D) -> bool>(f: F) -> bool {
    &&& forall|a: D, b: D| #[trigger] f.requires((&a, &b))
    &&& forall|a: D, b: D, r1: bool, r2: bool|
        #[trigger] f.ensures((&a, &b), r1) && #[trigger] f.ensures((&a, &b), r2) ==> r1 == r2
}

/// A binary predicate on the values of an ordered pair of variables.
pub struct Constraint<F> {
    /// The pair of variables (source, target) the rule applies to.
    pub scope: Arc,
    /// Whether a value of the source is compatible with a value of the target.
    pub rule: F,
}

/// Utility function for making [`Constraint`]s.
pub fn new_constraint<F>(from: VariableID, to: VariableID, rule: F) -> (r: Constraint<F>)
    ensures
        r.scope == (from, to),
        r.rule == rule,
{
    Constraint { scope: (from, to), rule }
}

/// An explicit table of rules keyed by ordered pairs of variables. A pair
/// without an entry is unconstrained: every pair of values is compatible.
///
/// The entries are kept in a vector and looked up from the newest, so a later
/// rule for a pair replaces an earlier one as an insert into a map would. A
/// `HashMap` keyed by the pair is not used because vstd models hashed keys
/// only for primitive types, not for pairs of identities.
pub struct ConstraintTable<F> {
    constraints: Vec<Constraint<F>>,
}

/// The rule for `scope` among `entries`; the latest entry wins.
pub open spec fn rule_in<F>(entries: Seq<Constraint<F>>, scope: Arc) -> Option<F>
    decreases entries.len(),
{
    if entries.len() == 0 {
        None
    } else if entries.last().scope == scope {
        Some(entries.last().rule)
    } else {
        rule_in(entries.drop_last(), scope)
    }
}

impl<F> ConstraintTable<F> {
    /// The rule registered for the pair (`a`, `b`), if any.
    pub closed spec fn rule_for(&self, a: VariableID, b: VariableID) -> Option<F> {
        rule_in(self.constraints@, (a, b))
    }

    pub fn new() -> (r: Self)
        ensures
            forall|a: VariableID, b: VariableID| #[trigger] r.rule_for(a, b) is None,
    {
        ConstraintTable { constraints: Vec::new() }
    }

    /// Registers `constraint`, replacing any rule for the same pair.
    pub fn insert(&mut self, constraint: Constraint<F>)
        ensures
            final(self).rule_for(constraint.scope.0, constraint.scope.1) == Some(constraint.rule),
            forall|a: VariableID, b: VariableID|
                (a, b) != constraint.scope ==> #[trigger] final(self).rule_for(a, b) == old(
                    self,
                ).rule_for(a, b),
    {
        self.constraints.push(constraint);
        assert(self.constraints@.drop_last() =~= old(self).constraints@);
    }
}

impl<D: DomainType, K: IdentifierType, F: Fn(&D, &D) -> bool> ConstraintProvider<
    D,
    K,
> for ConstraintTable<F> {
    open spec fn valid(&self) -> bool {
        forall|a: VariableID, b: VariableID|
            match #[trigger] self.rule_for(a, b) {
                Some(f) => pure_rule::<D, F>(f),
                None => true,
            }
    }

    open spec fn allows(
        &self,
        a: VariableID,
        a_key: K,
        a_value: D,
        b: VariableID,
        b_key: K,
        b_value: D,
    ) -> bool {
        match self.rule_for(a, b) {
            None => true,
            Some(f) => f.ensures((&a_value, &b_value), true),
        }
    }

    fn check(&self, a: &Variable<D, K>, a_value: &D, b: &Variable<D, K>, b_value: &D) -> (r:
        bool) {
        let scope = (a.get_index(), b.get_index());
        let mut i = self.constraints.len();
        assert(self.constraints@.take(i as int) =~= self.constraints@);
        while i > 0
            invariant
                i <= self.constraints@.len(),
                rule_in(self.constraints@, scope) == rule_in(self.constraints@.take(i as int), scope),
                forall|a: VariableID, b: VariableID|
                    match #[trigger] self.rule_for(a, b) {
                        Some(f) => pure_rule::<D, F>(f),
                        None => true,
                    },
                scope == (a.ident(), b.ident()),
            decreases i,
        {
            let ghost prefix = self.constraints@.take(i as int);
            assert(prefix.drop_last() =~= self.constraints@.take(i - 1));
            i = i - 1;
            let c = &self.constraints[i];
            if c.scope.0 == scope.0 && c.scope.1 == scope.1 {
                assert(prefix.last() == *c);
                assert(rule_in(prefix, scope) == Some(c.rule));
                assert(self.rule_for(scope.0, scope.1) == Some(c.rule));
                assert(pure_rule::<D, F>(c.rule));
                let r = (c.rule)(a_value, b_value);
                assert(r == c.rule.ensures((a_value, b_value), true));
                return r;
            }
        }
        true
    }
}

/// A table without a rule for the pair (x, y) never removes a value of `x`
/// when revising against `y`, as long as `y` has a value left.
pub proof fn lemma_unconstrained_arc_keeps_domain<D: DomainType, K: IdentifierType, F: Fn(&D, &D) -> bool>(
    table: &ConstraintTable<F>,
    keys: Seq<K>,
    x: VariableID,
    dx: Seq<D>,
    y: VariableID,
    dy: Seq<D>,
)
    requires
        table.rule_for(x, y) is None,
        dy.len() > 0,
    ensures
        revised_values(table, keys, x.id(), dx, y.id(), dy) == dx,
{
    let pred = support_test(table, keys, x.id(), y.id(), dy);
    assert(VariableID(x.id() as usize) == x);
    assert(VariableID(y.id() as usize) == y);
    assert forall|i: int| 0 <= i < dx.len() implies pred(#[trigger] dx[i]) by {
        assert(compatible(table, keys, x.id(), dx[i], y.id(), dy[0]));
    }
    lemma_filter_keeps_all(dx, pred);
}

} // verus!
