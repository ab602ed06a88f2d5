use crate::ac3::{
    is_subsequence, lemma_filter_subsequence, lemma_subsequence_contains, lemma_subsequence_refl,
    lemma_subsequence_trans, lemma_total_size_update, shrunk, total_size, DomainType, IdentifierType,
};
use crate::variable_provider::copy_values;
use std::collections::VecDeque;
use vstd::prelude::*;

verus! {

/// Whether `f` answers for every pair of values, and always the same way.
pub open spec fn pure_binary<D, F: Fn(D, D) -> bool>(f: F) -> bool {
    &&& forall|a: D, b: D| #[trigger] f.requires((a, b))
    &&& forall|a: D, b: D, r1: bool, r2: bool|
        #[trigger] f.ensures((a, b), r1) && #[trigger] f.ensures((a, b), r2) ==> r1 == r2
}

/// A function that can determine if two variables are valid compared to each other.
pub enum Constraint<F> {
    /// A rule over the values of the variables at positions (from, to).
    Binary { scope: (usize, usize), rule: F },
}

impl<F> Constraint<F> {
    pub open spec fn scope_of(self) -> (usize, usize) {
        match self {
            Constraint::Binary { scope, .. } => scope,
        }
    }

    pub open spec fn rule_of(self) -> F {
        match self {
            Constraint::Binary { rule, .. } => rule,
        }
    }
}

/// Why a constraint could not be added.
#[derive(Debug, PartialEq, Eq)]
pub enum SolverError<V> {
    /// The source variable is not known.
    FromNotFound(V),
    /// The target variable is not known.
    ToNotFound(V),
}

/// Whether value `v` of the variable at `from` keeps a partner in `dto`: a
/// pair without any rule is unconstrained, so any value of `dto` will do;
/// otherwise some rule on (`from`, `to`) must allow `v` with a value of `dto`.
pub open spec fn rule_support<D, F: Fn(D, D) -> bool>(
    constraints: Seq<Constraint<F>>,
    from: int,
    to: int,
    v: D,
    dto: Seq<D>,
) -> bool {
    ||| (unconstrained(constraints, from, to) && dto.len() > 0)
    ||| exists|c: int, j: int|
        0 <= c < constraints.len() && 0 <= j < dto.len() && (#[trigger] constraints[c]).scope_of()
            == (from as usize, to as usize) && constraints[c].rule_of().ensures((v, #[trigger] dto[j]), true)
}

/// Whether no rule applies to the pair (`from`, `to`).
pub open spec fn unconstrained<F>(constraints: Seq<Constraint<F>>, from: int, to: int) -> bool {
    forall|c: int| 0 <= c < constraints.len() ==> (#[trigger] constraints[c]).scope_of() != (from as usize, to as usize)
}

/// The test that a value of `from` passes when some rule lets it pair with a value of `dto`.
pub open spec fn rule_test<D, F: Fn(D, D) -> bool>(
    constraints: Seq<Constraint<F>>,
    from: int,
    to: int,
    dto: Seq<D>,
) -> spec_fn(D) -> bool {
    |v: D| rule_support(constraints, from, to, v, dto)
}

/// The domain of `from` after revising it against `to`.
pub open spec fn narrowed<D, F: Fn(D, D) -> bool>(
    constraints: Seq<Constraint<F>>,
    doms: Seq<Seq<D>>,
    from: int,
    to: int,
) -> Seq<D> {
    doms[from].filter(rule_test(constraints, from, to, doms[to]))
}

/// Whether every value of the arc's source keeps a partner in its target.
pub open spec fn arc_ok<D, F: Fn(D, D) -> bool>(
    constraints: Seq<Constraint<F>>,
    doms: Seq<Seq<D>>,
    arc: (usize, usize),
) -> bool {
    arc.0 < doms.len() && arc.1 < doms.len() ==> forall|i: int|
        0 <= i < doms[arc.0 as int].len() ==> rule_support(
            constraints,
            arc.0 as int,
            arc.1 as int,
            #[trigger] doms[arc.0 as int][i],
            doms[arc.1 as int],
        )
}

proof fn lemma_filter_same_len<A>(s: Seq<A>, pred: spec_fn(A) -> bool)
    requires
        s.filter(pred).len() == s.len(),
    ensures
        s.filter(pred) == s,
    decreases s.len(),
{
    reveal(Seq::filter);
    if s.len() > 0 {
        s.drop_last().lemma_filter_len(pred);
        lemma_filter_same_len(s.drop_last(), pred);
        assert(s.drop_last().push(s.last()) =~= s);
    }
}

/// After `x` is revised against `y`, an arc that does not point into `x` and
/// was supported before (or is the revised arc itself) is still supported.
proof fn lemma_narrow_keeps_support<D, F: Fn(D, D) -> bool>(
    constraints: Seq<Constraint<F>>,
    before: Seq<Seq<D>>,
    x: usize,
    y: usize,
    arc: (usize, usize),
)
    requires
        x < before.len(),
        y < before.len(),
        arc.1 != x,
        arc_ok(constraints, before, arc) || arc == (x, y),
    ensures
        arc_ok(constraints, before.update(x as int, narrowed(constraints, before, x as int, y as int)), arc),
{
    let dx = before[x as int];
    let pred = rule_test(constraints, x as int, y as int, before[y as int]);
    let f = dx.filter(pred);
    let after = before.update(x as int, f);
    if arc.0 < before.len() && arc.1 < before.len() {
        let (a, b) = (arc.0 as int, arc.1 as int);
        assert(after[b] == before[b]);
        assert forall|i: int| 0 <= i < after[a].len() implies rule_support(
            constraints,
            a,
            b,
            #[trigger] after[a][i],
            after[b],
        ) by {
            if a == x {
                dx.lemma_filter_pred(pred, i);
                if arc != (x, y) {
                    assert(f.contains(f[i]));
                    dx.lemma_filter_contains_rev(pred, f[i]);
                    let i2 = choose|i2: int| 0 <= i2 < dx.len() && dx[i2] == f[i];
                    assert(rule_support(constraints, a, b, before[a][i2], before[b]));
                }
            } else {
                assert(after[a] == before[a]);
            }
        }
    }
}

/// Constraint solver over the domain of type `D`, using arc consistency as
/// described by Artificial Intelligence: A Modern Approach (ch. 6).
///
/// Solving makes the domains arc-consistent. This leaves the solver in either
/// a partially or a completely assigned state; further refinements can be
/// made from there and the solver started again. A pair of variables without
/// any rule is unconstrained.
pub struct Solver<V, D, F> {
    variables: Vec<V>,
    domains: Vec<Vec<D>>,
    domain_values: Vec<D>,
    constraints: Vec<Constraint<F>>,
}

impl<V: IdentifierType, D: DomainType, F: Fn(D, D) -> bool> Solver<V, D, F> {
    /// The variables, by position.
    pub closed spec fn vars(&self) -> Seq<V> {
        self.variables@
    }

    /// The domain of every variable, by position.
    pub closed spec fn doms(&self) -> Seq<Seq<D>> {
        Seq::new(self.domains@.len(), |i: int| self.domains@[i]@)
    }

    /// The values each new variable starts with.
    pub closed spec fn initial_values(&self) -> Seq<D> {
        self.domain_values@
    }

    /// The rules, in the order they were added.
    pub closed spec fn rules(&self) -> Seq<Constraint<F>> {
        self.constraints@
    }

    /// One domain per variable, and every rule is pure.
    pub open spec fn wf(&self) -> bool {
        &&& self.doms().len() == self.vars().len()
        &&& forall|c: int| 0 <= c < self.rules().len() ==> pure_binary(#[trigger] self.rules()[c].rule_of())
    }

    pub fn new(values: Vec<D>) -> (r: Self)
        ensures
            r.wf(),
            r.vars().len() == 0,
            r.rules().len() == 0,
            r.initial_values() == values@,
    {
        let r = Self { variables: Vec::new(), constraints: Vec::new(), domain_values: values, domains: Vec::new() };
        assert(r.doms().len() == 0);
        r
    }

    /// Adds a variable whose domain is every value; returns its position.
    pub fn add_variable(&mut self, v: V) -> (r: usize)
        requires
            old(self).wf(),
            old(self).vars().len() < usize::MAX,
        ensures
            final(self).wf(),
            r == old(self).vars().len(),
            final(self).vars() == old(self).vars().push(v),
            final(self).doms() == old(self).doms().push(old(self).initial_values()),
            final(self).initial_values() == old(self).initial_values(),
            final(self).rules() == old(self).rules(),
    {
        let ghost before = self.doms();
        self.variables.push(v);
        let values = copy_values(&self.domain_values);
        self.domains.push(values);
        assert(self.doms() =~= before.push(self.domain_values@));
        assert(self.vars() == old(self).vars().push(v));
        assert(self.rules() == old(self).rules());
        self.variables.len() - 1
    }

    /// The position of `v`, if it is a variable of the solver.
    fn position(&self, v: V) -> (r: Option<usize>)
        ensures
            r is None <==> !self.vars().contains(v),
            r is Some ==> r->0 < self.vars().len() && self.vars()[r->0 as int] == v && forall|j: int|
                0 <= j < r->0 ==> self.vars()[j] != v,
    {
        let mut i: usize = 0;
        while i < self.variables.len()
            invariant
                i <= self.vars().len(),
                forall|j: int| 0 <= j < i ==> self.vars()[j] != v,
            decreases self.variables.len() - i,
        {
            if self.variables[i].same(&v) {
                return Some(i);
            }
            i = i + 1;
        }
        assert(!self.vars().contains(v)) by {
            if self.vars().contains(v) {
                let j = choose|j: int| 0 <= j < self.vars().len() && self.vars()[j] == v;
                assert(self.vars()[j] != v);
            }
        }
        None
    }

    /// Adds each rule for the ordered pair (`from`, `to`).
    ///
    /// # Errors
    ///
    /// Fails, adding nothing, when `from` or `to` is not a variable.
    pub fn add_binary_constraint(&mut self, from: V, to: V, rules: Vec<F>) -> (r: Result<(), SolverError<V>>)
        requires
            old(self).wf(),
            forall|k: int| 0 <= k < rules@.len() ==> pure_binary(#[trigger] rules@[k]),
        ensures
            final(self).wf(),
            final(self).vars() == old(self).vars(),
            final(self).doms() == old(self).doms(),
            final(self).initial_values() == old(self).initial_values(),
            !old(self).vars().contains(from) ==> r == Err::<(), SolverError<V>>(SolverError::FromNotFound(from))
                && final(self).rules() == old(self).rules(),
            old(self).vars().contains(from) && !old(self).vars().contains(to) ==> r == Err::<(), SolverError<V>>(
                SolverError::ToNotFound(to),
            ) && final(self).rules() == old(self).rules(),
            old(self).vars().contains(from) && old(self).vars().contains(to) ==> r is Ok,
            match (position_of(old(self).vars(), from), position_of(old(self).vars(), to)) {
                (Some(f), Some(t)) => final(self).rules() == old(self).rules() + rules@.map_values(
                    |rule: F| Constraint::Binary { scope: (f as usize, t as usize), rule },
                ),
                _ => true,
            },
    {
        let f = match self.position(from) {
            Some(f) => f,
            None => {
                proof {
                    lemma_position_of_none(self.vars(), from);
                }
                return Err(SolverError::FromNotFound(from));
            },
        };
        let t = match self.position(to) {
            Some(t) => t,
            None => {
                proof {
                    lemma_position_of_none(self.vars(), to);
                }
                return Err(SolverError::ToNotFound(to));
            },
        };
        proof {
            lemma_position_of(self.vars(), from, f as int);
            lemma_position_of(self.vars(), to, t as int);
        }
        let total = rules.len();
        let ghost start = self.rules();
        let ghost all = rules@;
        let mut rules = rules;
        let mut k: usize = 0;
        while rules.len() > 0
            invariant
                self.wf(),
                self.vars() == old(self).vars(),
                self.doms() == old(self).doms(),
                self.initial_values() == old(self).initial_values(),
                k + rules@.len() == all.len(),
                all.len() == total,
                rules@ == all.subrange(k as int, all.len() as int),
                forall|q: int| 0 <= q < all.len() ==> pure_binary(#[trigger] all[q]),
                self.rules() == start + all.subrange(0, k as int).map_values(
                    |rule: F| Constraint::Binary { scope: (f, t), rule },
                ),
            decreases rules.len(),
        {
            let rule = rules.remove(0);
            assert(rule == all[k as int]);
            self.constraints.push(Constraint::Binary { scope: (f, t), rule });
            assert(all.subrange(0, k + 1).map_values(|rule: F| Constraint::Binary { scope: (f, t), rule })
                =~= all.subrange(0, k as int).map_values(|rule: F| Constraint::Binary { scope: (f, t), rule }).push(
                Constraint::Binary { scope: (f, t), rule }));
            k = k + 1;
            assert(rules@ =~= all.subrange(k as int, all.len() as int));
        }
        assert(all.subrange(0, k as int) =~= all);
        Ok(())
    }

    /// Whether some rule on (`from`, `to`) lets value `v` pair with a value of `to`.
    fn supported(&self, from: usize, to: usize, v: D) -> (r: bool)
        requires
            self.wf(),
            to < self.doms().len(),
        ensures
            r == rule_support(self.rules(), from as int, to as int, v, self.doms()[to as int]),
    {
        let dto = &self.domains[to];
        assert(dto@ == self.doms()[to as int]);
        let mut constrained = false;
        let mut c: usize = 0;
        while c < self.constraints.len()
            invariant
                self.wf(),
                dto@ == self.doms()[to as int],
                c <= self.rules().len(),
                constrained == exists|c2: int| 0 <= c2 < c && (#[trigger] self.rules()[c2]).scope_of() == (from, to),
                forall|c2: int, j: int|
                    0 <= c2 < c && 0 <= j < dto@.len() && (#[trigger] self.rules()[c2]).scope_of() == (from, to)
                        ==> !self.rules()[c2].rule_of().ensures((v, #[trigger] dto@[j]), true),
            decreases self.constraints.len() - c,
        {
            let Constraint::Binary { scope, rule } = &self.constraints[c];
            assert(*scope == self.rules()[c as int].scope_of());
            assert(*rule == self.rules()[c as int].rule_of());
            if scope.0 == from && scope.1 == to {
                constrained = true;
                assert(pure_binary(self.rules()[c as int].rule_of()));
                let mut j: usize = 0;
                while j < dto.len()
                    invariant
                        j <= dto@.len(),
                        c < self.rules().len(),
                        dto@ == self.doms()[to as int],
                        self.rules()[c as int].scope_of() == (from, to),
                        *rule == self.rules()[c as int].rule_of(),
                        pure_binary(*rule),
                        forall|j2: int| 0 <= j2 < j ==> !rule.ensures((v, #[trigger] dto@[j2]), true),
                    decreases dto.len() - j,
                {
                    if rule(v, dto[j]) {
                        assert(self.rules()[c as int].scope_of() == (from, to));
                        assert(self.rules()[c as int].rule_of().ensures((v, dto@[j as int]), true));
                        return true;
                    }
                    j = j + 1;
                }
            }
            c = c + 1;
        }
        !constrained && dto.len() > 0
    }

    /// Removes from `from` every value that no rule on (`from`, `to`) pairs
    /// with a value of `to`; returns whether any value was removed.
    fn revise(&mut self, arc: (usize, usize)) -> (revised: bool)
        requires
            old(self).wf(),
            arc.0 < old(self).doms().len(),
            arc.1 < old(self).doms().len(),
        ensures
            final(self).wf(),
            final(self).vars() == old(self).vars(),
            final(self).rules() == old(self).rules(),
            final(self).initial_values() == old(self).initial_values(),
            final(self).doms() == old(self).doms().update(
                arc.0 as int,
                narrowed(old(self).rules(), old(self).doms(), arc.0 as int, arc.1 as int),
            ),
            revised == (narrowed(old(self).rules(), old(self).doms(), arc.0 as int, arc.1 as int).len()
                < old(self).doms()[arc.0 as int].len()),
    {
        let (from, to) = arc;
        let ghost doms = self.doms();
        let ghost pred = rule_test(self.rules(), from as int, to as int, doms[to as int]);
        let mut new_domain: Vec<D> = Vec::new();
        let n = self.domains[from].len();
        let mut i: usize = 0;
        while i < n
            invariant
                self.wf(),
                self.doms() == doms,
                pred == rule_test(self.rules(), from as int, to as int, doms[to as int]),
                from < doms.len(),
                to < doms.len(),
                n == doms[from as int].len(),
                i <= n,
                new_domain@ == doms[from as int].take(i as int).filter(pred),
            decreases n - i,
        {
            let v = self.domains[from][i];
            assert(v == doms[from as int][i as int]);
            let keep = self.supported(from, to, v);
            proof {
                reveal(Seq::filter);
                assert(doms[from as int].take(i + 1).drop_last() =~= doms[from as int].take(i as int));
            }
            if keep {
                new_domain.push(v);
            }
            i = i + 1;
        }
        assert(doms[from as int].take(n as int) =~= doms[from as int]);
        let revised = new_domain.len() < n;
        self.domains.set(from, new_domain);
        assert(self.doms() =~= doms.update(from as int, doms[from as int].filter(pred)));
        revised
    }

    /// Makes the domains arc-consistent: arcs are worked off first in, first
    /// out, and when a revision removes values from `x` every arc of the list
    /// that points into `x` is queued again. Returns `false` as soon as a
    /// revision empties a domain; otherwise whether every variable still has a
    /// value. Domains only lose values, keeping the rest in order.
    pub fn solve(&mut self, arcs: &VecDeque<(usize, usize)>) -> (r: bool)
        requires
            old(self).wf(),
            forall|k: int|
                0 <= k < arcs@.len() ==> (#[trigger] arcs@[k]).0 < old(self).doms().len() && arcs@[k].1
                    < old(self).doms().len(),
        ensures
            final(self).wf(),
            final(self).vars() == old(self).vars(),
            final(self).rules() == old(self).rules(),
            final(self).initial_values() == old(self).initial_values(),
            shrunk(old(self).doms(), final(self).doms()),
            r == forall|i: int| 0 <= i < final(self).doms().len() ==> #[trigger] final(self).doms()[i].len() > 0,
            r ==> forall|k: int| 0 <= k < arcs@.len() ==> arc_ok(final(self).rules(), final(self).doms(), #[trigger] arcs@[k]),
    {
        let ghost doms0 = self.doms();
        let ghost rules = self.rules();
        assert forall|i: int| 0 <= i < doms0.len() implies is_subsequence(#[trigger] doms0[i], doms0[i]) by {
            lemma_subsequence_refl(doms0[i]);
        }
        let mut queue: VecDeque<(usize, usize)> = VecDeque::new();
        let n = arcs.len();
        let mut k: usize = 0;
        while k < n
            invariant
                n == arcs@.len(),
                k <= n,
                queue@ == arcs@.take(k as int),
            decreases n - k,
        {
            queue.push_back(arcs[k]);
            assert(arcs@.take(k + 1) =~= arcs@.take(k as int).push(arcs@[k as int]));
            k = k + 1;
        }
        assert(arcs@.take(n as int) =~= arcs@);
        while queue.len() > 0
            invariant
                self.wf(),
                self.vars() == old(self).vars(),
                self.rules() == rules,
                rules == old(self).rules(),
                self.initial_values() == old(self).initial_values(),
                doms0 == old(self).doms(),
                shrunk(doms0, self.doms()),
                n == arcs@.len(),
                forall|k: int|
                    0 <= k < arcs@.len() ==> (#[trigger] arcs@[k]).0 < doms0.len() && arcs@[k].1 < doms0.len(),
                forall|q: int| 0 <= q < queue@.len() ==> arcs@.contains(#[trigger] queue@[q]),
                forall|k: int|
                    0 <= k < arcs@.len() ==> queue@.contains(#[trigger] arcs@[k]) || arc_ok(
                        rules,
                        self.doms(),
                        arcs@[k],
                    ),
            decreases total_size(self.doms()), queue@.len(),
        {
            let ghost old_queue = queue@;
            let arc = queue.pop_front().unwrap();
            let x = arc.0;
            let ghost rest = queue@;
            let ghost before = self.doms();
            assert(old_queue[0] == arc);
            assert(arcs@.contains(arc));
            proof {
                let ka = choose|ka: int| 0 <= ka < arcs@.len() && arcs@[ka] == arc;
                assert(arcs@[ka].0 < doms0.len() && arcs@[ka].1 < doms0.len());
            }
            let revised = self.revise(arc);
            let ghost after = self.doms();
            proof {
                let pred = rule_test(rules, x as int, arc.1 as int, before[arc.1 as int]);
                let dx = before[x as int];
                dx.lemma_filter_len(pred);
                lemma_total_size_update(before, x as int, dx.filter(pred));
                assert forall|i: int| 0 <= i < after.len() implies is_subsequence(#[trigger] after[i], doms0[i]) by {
                    assert(is_subsequence(before[i], doms0[i]));
                    if i == x {
                        lemma_filter_subsequence(dx, pred);
                        lemma_subsequence_trans(after[i], dx, doms0[i]);
                    }
                }
                assert forall|i: int, v: D|
                    0 <= i < after.len() && #[trigger] after[i].contains(v) implies doms0[i].contains(v) by {
                    lemma_subsequence_contains(after[i], doms0[i], v);
                }
                assert forall|i: int| 0 <= i < after.len() implies #[trigger] after[i].len() <= doms0[i].len() by {
                    assert(before[i].len() <= doms0[i].len());
                }
            }
            if revised {
                assert(self.domains@[x as int]@ == after[x as int]);
                if self.domains[x].len() == 0 {
                    assert(after[x as int].len() == 0);
                    return false;
                }
                let mut j: usize = 0;
                while j < n
                    invariant
                        n == arcs@.len(),
                        j <= n,
                        queue@.len() >= rest.len(),
                        forall|q: int| 0 <= q < rest.len() ==> queue@[q] == rest[q],
                        forall|q: int| 0 <= q < queue@.len() ==> arcs@.contains(#[trigger] queue@[q]),
                        forall|i: int| 0 <= i < j && (#[trigger] arcs@[i]).1 == x ==> queue@.contains(arcs@[i]),
                    decreases n - j,
                {
                    let ghost prev = queue@;
                    if arcs[j].1 == x {
                        queue.push_back(arcs[j]);
                        assert(queue@[queue@.len() - 1] == arcs@[j as int]);
                        assert forall|i: int| 0 <= i < j && (#[trigger] arcs@[i]).1 == x implies queue@.contains(
                            arcs@[i],
                        ) by {
                            let q = choose|q: int| 0 <= q < prev.len() && prev[q] == arcs@[i];
                            assert(queue@[q] == arcs@[i]);
                        }
                    }
                    j = j + 1;
                }
            }
            proof {
                assert forall|k: int| 0 <= k < arcs@.len() implies queue@.contains(#[trigger] arcs@[k])
                    || arc_ok(rules, after, arcs@[k]) by {
                    let a = arcs@[k];
                    if old_queue.contains(a) && a != arc {
                        let q = choose|q: int| 0 <= q < old_queue.len() && old_queue[q] == a;
                        assert(q > 0);
                        assert(rest[q - 1] == a);
                        assert(queue@[q - 1] == a);
                    } else if !revised {
                        let pred = rule_test(rules, x as int, arc.1 as int, before[arc.1 as int]);
                        lemma_filter_same_len(before[x as int], pred);
                        assert(after =~= before);
                        if a == arc {
                            assert forall|i: int| 0 <= i < before[x as int].len() implies rule_support(
                                rules,
                                x as int,
                                arc.1 as int,
                                #[trigger] before[x as int][i],
                                before[arc.1 as int],
                            ) by {
                                before[x as int].lemma_filter_pred(pred, i);
                            }
                        }
                    } else if a.1 != x {
                        lemma_narrow_keeps_support(rules, before, x, arc.1, a);
                    }
                }
            }
        }
        assert forall|k: int| 0 <= k < arcs@.len() implies arc_ok(rules, self.doms(), #[trigger] arcs@[k]) by {
            assert(!queue@.contains(arcs@[k]));
        }
        let mut i: usize = 0;
        while i < self.domains.len()
            invariant
                self.wf(),
                self.vars() == old(self).vars(),
                self.rules() == old(self).rules(),
                self.initial_values() == old(self).initial_values(),
                shrunk(old(self).doms(), self.doms()),
                forall|k: int| 0 <= k < arcs@.len() ==> arc_ok(self.rules(), self.doms(), #[trigger] arcs@[k]),
                i <= self.doms().len(),
                forall|k: int| 0 <= k < i ==> #[trigger] self.doms()[k].len() > 0,
            decreases self.domains.len() - i,
        {
            assert(self.domains@[i as int]@ == self.doms()[i as int]);
            if self.domains[i].len() == 0 {
                return false;
            }
            i = i + 1;
        }
        true
    }

    /// Fixes variable `v` to `d` when `d` is one of its values; otherwise
    /// nothing changes.
    pub fn set_domain(&mut self, v: V, d: D)
        requires
            old(self).wf(),
        ensures
            final(self).wf(),
            final(self).vars() == old(self).vars(),
            final(self).rules() == old(self).rules(),
            match position_of(old(self).vars(), v) {
                Some(i) => if old(self).doms()[i].contains(d) {
                    final(self).doms() == old(self).doms().update(i, seq![d])
                } else {
                    final(self).doms() == old(self).doms()
                },
                None => final(self).doms() == old(self).doms(),
            },
    {
        match self.position(v) {
            Some(index) => {
                assert(position_of(self.vars(), v) == Some(index as int)) by {
                    lemma_position_of(self.vars(), v, index as int);
                }
                let ghost doms = self.doms();
                let found = contains_value(&self.domains[index], d);
                assert(doms[index as int] == self.domains@[index as int]@);
                if found {
                    let single = vec![d];
                    assert(single@ =~= seq![d]);
                    self.domains.set(index, single);
                    assert(self.doms() =~= doms.update(index as int, seq![d]));
                    assert(self.rules() == old(self).rules());
                    assert(self.vars() == old(self).vars());
                }
            },
            None => {
                assert(position_of(self.vars(), v) is None) by {
                    lemma_position_of_none(self.vars(), v);
                }
            },
        }
    }

    /// The variables with more than one value left, with their values.
    pub fn unresolved_variables(&self) -> (r: Vec<(V, Vec<D>)>)
        requires
            self.wf(),
        ensures
            r@.map_values(|p: (V, Vec<D>)| (p.0, p.1@)) == Seq::new(
                self.vars().len(),
                |i: int| (self.vars()[i], self.doms()[i]),
            ).filter(|p: (V, Seq<D>)| p.1.len() > 1),
    {
        let ghost pairs = Seq::new(self.vars().len(), |i: int| (self.vars()[i], self.doms()[i]));
        let ghost pred = |p: (V, Seq<D>)| p.1.len() > 1;
        let mut out: Vec<(V, Vec<D>)> = Vec::new();
        let mut i: usize = 0;
        while i < self.variables.len()
            invariant
                self.wf(),
                i <= self.vars().len(),
                pairs == Seq::new(self.vars().len(), |i: int| (self.vars()[i], self.doms()[i])),
                pred == (|p: (V, Seq<D>)| p.1.len() > 1),
                out@.map_values(|p: (V, Vec<D>)| (p.0, p.1@)) == pairs.take(i as int).filter(pred),
            decreases self.variables.len() - i,
        {
            let ghost prev = out@;
            proof {
                reveal(Seq::filter);
                assert(pairs.take(i + 1).drop_last() =~= pairs.take(i as int));
                assert(pairs[i as int] == (self.vars()[i as int], self.doms()[i as int]));
            }
            if self.domains[i].len() > 1 {
                let values = copy_values(&self.domains[i]);
                out.push((self.variables[i], values));
                assert(out@.map_values(|p: (V, Vec<D>)| (p.0, p.1@)) =~= prev.map_values(
                    |p: (V, Vec<D>)| (p.0, p.1@),
                ).push(pairs[i as int]));
            }
            i = i + 1;
        }
        assert(pairs.take(self.vars().len() as int) =~= pairs);
        out
    }
}

/// The first position of `v` in `vars`, if any.
pub open spec fn position_of<V>(vars: Seq<V>, v: V) -> Option<int>
    decreases vars.len(),
{
    if vars.len() == 0 {
        None
    } else if vars[0] == v {
        Some(0)
    } else {
        match position_of(vars.drop_first(), v) {
            Some(i) => Some(i + 1),
            None => None,
        }
    }
}

proof fn lemma_position_of<V>(vars: Seq<V>, v: V, i: int)
    requires
        0 <= i < vars.len(),
        vars[i] == v,
        forall|j: int| 0 <= j < i ==> vars[j] != v,
    ensures
        position_of(vars, v) == Some(i),
    decreases i,
{
    if i > 0 {
        lemma_position_of(vars.drop_first(), v, i - 1);
    }
}

proof fn lemma_position_of_none<V>(vars: Seq<V>, v: V)
    requires
        !vars.contains(v),
    ensures
        position_of(vars, v) is None,
    decreases vars.len(),
{
    if vars.len() > 0 {
        assert(vars[0] != v);
        assert(!vars.drop_first().contains(v)) by {
            if vars.drop_first().contains(v) {
                let j = choose|j: int| 0 <= j < vars.drop_first().len() && vars.drop_first()[j] == v;
                assert(vars[j + 1] == v);
            }
        }
        lemma_position_of_none(vars.drop_first(), v);
    }
}

/// Whether `d` is one of `values`.
fn contains_value<D: DomainType>(values: &Vec<D>, d: D) -> (r: bool)
    ensures
        r == values@.contains(d),
{
    let mut j: usize = 0;
    while j < values.len()
        invariant
            j <= values@.len(),
            forall|k: int| 0 <= k < j ==> values@[k] != d,
        decreases values.len() - j,
    {
        if values[j].same_value(&d) {
            assert(values@[j as int] == d);
            return true;
        }
        j = j + 1;
    }
    assert(!values@.contains(d)) by {
        if values@.contains(d) {
            let k = choose|k: int| 0 <= k < values@.len() && values@[k] == d;
            assert(values@[k] != d);
        }
    }
    false
}

} // verus!
