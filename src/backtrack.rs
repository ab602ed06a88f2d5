use crate::ac3::{
    ac3_outcome,
    ac3, arc_consistent, arc_in_range, compatible, has_support, is_solution, lemma_total_size_le,
    lemma_total_size_update, shrunk, total_size, Arc, ConstraintProvider, DomainType,
    IdentifierType,
};
use crate::variable_provider::{copy_values, pick, VariableID, VariableProvider};
use rand::rngs::SmallRng;
use vstd::prelude::*;

verus! {

/// The two terminal verdicts of a search.
#[derive(Clone, Copy, Debug, PartialEq, Eq, Structural)]
pub enum Solution {
    /// Every variable holds exactly one value and every arc is satisfied.
    Consistent,
    /// No assignment from the initial domains satisfies every arc.
    NoSolution,
}

/// Whether some choice of one value per domain satisfies every arc.
pub open spec fn solvable<D: DomainType, K: IdentifierType, CP: ConstraintProvider<D, K>>(
    cp: &CP,
    keys: Seq<K>,
    doms: Seq<Seq<D>>,
    arcs: Seq<Arc>,
) -> bool {
    exists|a: Seq<D>| is_solution(cp, keys, doms, arcs, a)
}

/// Whether every domain holds exactly one value.
pub open spec fn all_resolved<D>(doms: Seq<Seq<D>>) -> bool {
    forall|i: int| 0 <= i < doms.len() ==> #[trigger] doms[i].len() == 1
}

/// The first value of every domain.
pub open spec fn assignment<D>(doms: Seq<Seq<D>>) -> Seq<D> {
    Seq::new(doms.len(), |i: int| doms[i][0])
}

/// A solution within smaller domains is a solution within larger ones.
pub proof fn lemma_solution_widens<D: DomainType, K: IdentifierType, CP: ConstraintProvider<D, K>>(
    cp: &CP,
    keys: Seq<K>,
    small: Seq<Seq<D>>,
    large: Seq<Seq<D>>,
    arcs: Seq<Arc>,
    a: Seq<D>,
)
    requires
        small.len() == large.len(),
        forall|i: int, v: D| 0 <= i < small.len() && #[trigger] small[i].contains(v) ==> large[i].contains(v),
        is_solution(cp, keys, small, arcs, a),
    ensures
        is_solution(cp, keys, large, arcs, a),
{
    assert forall|i: int| 0 <= i < a.len() implies #[trigger] large[i].contains(a[i]) by {
        assert(small[i].contains(a[i]));
    }
    assert forall|k: int| 0 <= k < arcs.len() && arc_in_range(large.len(), #[trigger] arcs[k]) implies compatible(
        cp,
        keys,
        arcs[k].0.id(),
        a[arcs[k].0.id()],
        arcs[k].1.id(),
        a[arcs[k].1.id()],
    ) by {
        assert(arc_in_range(small.len(), arcs[k]));
    }
}

/// The positions of `items` without every occurrence of `p`, in order.
fn without(items: &Vec<usize>, p: usize) -> (r: Vec<usize>)
    ensures
        forall|x: usize| r@.contains(x) <==> (items@.contains(x) && x != p),
        r@.len() <= items@.len(),
        items@.contains(p) ==> r@.len() < items@.len(),
{
    let mut out: Vec<usize> = Vec::new();
    let mut i: usize = 0;
    let mut found = false;
    while i < items.len()
        invariant
            i <= items@.len(),
            out@.len() + (if found { 1int } else { 0int }) <= i,
            found == exists|k: int| 0 <= k < i && items@[k] == p,
            forall|q: int| 0 <= q < out@.len() ==> #[trigger] out@[q] != p && items@.contains(out@[q]),
            forall|k: int| 0 <= k < i && #[trigger] items@[k] != p ==> out@.contains(items@[k]),
        decreases items.len() - i,
    {
        let x = items[i];
        let ghost prev = out@;
        if x != p {
            out.push(x);
            assert forall|k: int| 0 <= k < i + 1 && #[trigger] items@[k] != p implies out@.contains(items@[k]) by {
                if k < i {
                    let q = choose|q: int| 0 <= q < prev.len() && prev[q] == items@[k];
                    assert(out@[q] == items@[k]);
                } else {
                    assert(out@[out@.len() - 1] == items@[k]);
                }
            }
        } else {
            found = true;
        }
        i = i + 1;
    }
    proof {
        assert forall|x: usize| out@.contains(x) <==> (items@.contains(x) && x != p) by {
            if out@.contains(x) {
                let q = choose|q: int| 0 <= q < out@.len() && out@[q] == x;
            }
            if items@.contains(x) && x != p {
                let k = choose|k: int| 0 <= k < items@.len() && items@[k] == x;
            }
        }
        if items@.contains(p) {
            let k = choose|k: int| 0 <= k < items@.len() && items@[k] == p;
        }
    }
    out
}

/// Solves the problem by alternating AC-3 propagation with tentative choices,
/// undoing a choice when it leads to an empty domain.
///
/// After propagation the most constrained unresolved variable is chosen; a
/// snapshot of every domain is taken, and the variable's values are tried one
/// at a time in an order drawn from `rng`, each from the snapshot and with
/// the variable restricted to that single value. A choice whose search fails
/// moves on to the next untested value; once no value is left the snapshot is
/// restored and the failure passes to the choice before it. The result is
/// `Consistent` exactly when some assignment from the initial domains
/// satisfies every arc; the domains then hold one such assignment.
#[must_use]
pub fn reduce<D: DomainType, K: IdentifierType, CP: ConstraintProvider<D, K>>(
    variables: &mut VariableProvider<D, K>,
    arcs: &[Arc],
    constraints: &CP,
    rng: &mut SmallRng,
) -> (r: Solution)
    requires
        old(variables).wf(),
        constraints.valid(),
    ensures
        final(variables).wf(),
        final(variables).keys() == old(variables).keys(),
        (r == Solution::Consistent) == solvable(
            constraints,
            old(variables).keys(),
            old(variables).domains(),
            arcs@,
        ),
        r == Solution::Consistent ==> all_resolved(final(variables).domains()) && is_solution(
            constraints,
            old(variables).keys(),
            old(variables).domains(),
            arcs@,
            assignment(final(variables).domains()),
        ),
        (forall|d: Seq<Seq<D>>|
            #[trigger] ac3_outcome(constraints, old(variables).keys(), arcs@, old(variables).domains(), d)
                ==> forall|i: int| 0 <= i < d.len() ==> #[trigger] d[i].len() <= 1) ==> *final(rng)
            == *old(rng),
    decreases total_size(old(variables).domains()),
{
    let ghost keys = variables.keys();
    let ghost doms0 = variables.domains();
    ac3(variables, arcs, constraints);
    let ghost doms1 = variables.domains();
    proof {
        lemma_total_size_le(doms1, doms0);
    }
    match variables.next_reducable_variable() {
        None => {
            if variables.is_consistent() {
                proof {
                    let a = assignment(doms1);
                    assert forall|i: int| 0 <= i < a.len() implies #[trigger] doms1[i].contains(a[i]) by {
                        assert(doms1[i].len() > 0);
                        assert(doms1[i][0] == a[i]);
                    }
                    assert forall|k: int| 0 <= k < arcs@.len() && arc_in_range(doms1.len(), #[trigger] arcs@[k]) implies compatible(
                        constraints,
                        keys,
                        arcs@[k].0.id(),
                        a[arcs@[k].0.id()],
                        arcs@[k].1.id(),
                        a[arcs@[k].1.id()],
                    ) by {
                        let (x, y) = (arcs@[k].0.id(), arcs@[k].1.id());
                        assert(doms1[x].len() > 0);
                        assert(doms1[y].len() > 0);
                        assert(has_support(constraints, keys, x, doms1[x][0], y, doms1[y]));
                        let j = choose|j: int| 0 <= j < doms1[y].len() && compatible(constraints, keys, x, doms1[x][0], y, #[trigger] doms1[y][j]);
                        assert(j == 0);
                    }
                    assert(is_solution(constraints, keys, doms1, arcs@, a));
                    lemma_solution_widens(constraints, keys, doms1, doms0, arcs@, a);
                }
                Solution::Consistent
            } else {
                proof {
                    if solvable(constraints, keys, doms0, arcs@) {
                        let a = choose|a: Seq<D>| is_solution(constraints, keys, doms0, arcs@, a);
                        assert(is_solution(constraints, keys, doms1, arcs@, a));
                        let i = choose|i: int| 0 <= i < doms1.len() && !(#[trigger] doms1[i].len() > 0);
                        assert(doms1[i].contains(a[i]));
                    }
                }
                Solution::NoSolution
            }
        },
        Some(v) => {
            let snapshot = variables.snapshot();
            let values = copy_values(variables.get_var(v).unwrap().possible_values());
            let n = values.len();
            let mut untested: Vec<usize> = Vec::new();
            let mut i: usize = 0;
            while i < n
                invariant
                    i <= n,
                    untested@.len() == i,
                    forall|q: int| 0 <= q < i ==> untested@[q] == q,
                decreases n - i,
            {
                untested.push(i);
                i = i + 1;
            }
            assert forall|p: usize| p < n implies #[trigger] untested@.contains(p) by {
                assert(untested@[p as int] == p);
            }
            while untested.len() > 0
                invariant
                    keys == old(variables).keys(),
                    doms0 == old(variables).domains(),
                    variables.wf(),
                    variables.keys() == keys,
                    variables.size() == doms1.len(),
                    constraints.valid(),
                    snapshot@.len() == doms1.len(),
                    forall|k: int| 0 <= k < snapshot@.len() ==> (#[trigger] snapshot@[k])@ == doms1[k],
                    0 <= v.id() < doms1.len(),
                    values@ == doms1[v.id()],
                    n == values@.len(),
                    n > 1,
                    shrunk(doms0, doms1),
                    total_size(doms1) <= total_size(doms0),
                    ac3_outcome(constraints, keys, arcs@, doms0, doms1),
                    doms1[v.id()].len() > 1,
                    forall|a: Seq<D>| #[trigger]
                        is_solution(constraints, keys, doms0, arcs@, a) ==> is_solution(
                            constraints,
                            keys,
                            doms1,
                            arcs@,
                            a,
                        ),
                    forall|q: int| 0 <= q < untested@.len() ==> #[trigger] untested@[q] < n,
                    forall|p: usize|
                        p < n && !untested@.contains(p) ==> !solvable(
                            constraints,
                            keys,
                            #[trigger] doms1.update(v.id(), seq![values@[p as int]]),
                            arcs@,
                        ),
                decreases untested@.len(),
            {
                let p = pick(&untested, rng).unwrap();
                let ghost before_untested = untested@;
                untested = without(&untested, p);
                assert forall|q: int| 0 <= q < untested@.len() implies #[trigger] untested@[q] < n by {
                    assert(untested@.contains(untested@[q]));
                    let k = choose|k: int| 0 <= k < before_untested.len() && before_untested[k] == untested@[q];
                }
                variables.restore(&snapshot);
                let ghost restored = variables.domains();
                assert(restored =~= doms1);
                let value = values[p];
                let single = vec![value];
                assert(single@ =~= seq![value]);
                variables.update_var(v, single);
                let ghost tried = doms1.update(v.id(), seq![value]);
                assert(variables.domains() =~= tried);
                proof {
                    lemma_total_size_update(doms1, v.id(), seq![value]);
                }
                let r = reduce(variables, arcs, constraints, rng);
                if r == Solution::Consistent {
                    proof {
                        let a = assignment(variables.domains());
                        assert forall|k: int, x: D| 0 <= k < tried.len() && #[trigger] tried[k].contains(x) implies doms0[k].contains(x) by {
                            if k == v.id() {
                                assert(tried[k][0] == x);
                                assert(doms1[k][p as int] == x);
                                assert(doms1[k].contains(x));
                            }
                        }
                        lemma_solution_widens(constraints, keys, tried, doms0, arcs@, a);
                    }
                    return Solution::Consistent;
                }
                proof {
                    assert forall|q: usize|
                        q < n && !untested@.contains(q) implies !solvable(
                            constraints,
                            keys,
                            #[trigger] doms1.update(v.id(), seq![values@[q as int]]),
                            arcs@,
                        ) by {
                        if q != p {
                            assert(!before_untested.contains(q));
                        }
                    }
                }
            }
            variables.restore(&snapshot);
            proof {
                if solvable(constraints, keys, doms0, arcs@) {
                    let a = choose|a: Seq<D>| is_solution(constraints, keys, doms0, arcs@, a);
                    assert(is_solution(constraints, keys, doms1, arcs@, a));
                    assert(doms1[v.id()].contains(a[v.id()]));
                    let p = choose|p: int| 0 <= p < n && values@[p] == a[v.id()];
                    assert(!untested@.contains(p as usize));
                    let tried = doms1.update(v.id(), seq![values@[p]]);
                    assert forall|i: int| 0 <= i < a.len() implies #[trigger] tried[i].contains(a[i]) by {
                        if i == v.id() {
                            assert(tried[i][0] == a[i]);
                        } else {
                            assert(doms1[i].contains(a[i]));
                        }
                    }
                    assert(is_solution(constraints, keys, tried, arcs@, a));
                }
            }
            Solution::NoSolution
        },
    }
}

} // verus!
