//! The integer linear program that states a maximum-coverage problem.
//!
//! All variables are binary.  A model built from an instance with `n` ground
//! elements and `s` subsets numbers its variables `0..n + s`: variable `p < n`
//! says that the element at place `p` of the ground set, taken in ascending
//! order, is covered; variable `n + i` says that the subset at index `i` is
//! selected.  The objective, to
//! be maximised, is the number of covered elements.

use std::collections::{BTreeMap, BTreeSet};
use vstd::prelude::*;
use crate::error::CoverError;
use crate::instance::Instance;
use crate::ordered::{lemma_ascending, listed, strictly_ascending};

verus! {

/// What a variable of the model indicates.
#[derive(Debug, Clone, Copy, PartialEq, Eq, Structural)]
pub enum Role {
    /// The ground element with this identifier is covered.
    Element(usize),
    /// The subset at this index is selected.
    Subset(usize),
}

/// A binary decision variable with its coefficient in the objective.
#[derive(Debug, Clone, Copy, PartialEq, Eq, Structural)]
pub struct Variable {
    pub role: Role,
    pub coefficient: i64,
}

/// One summand of a linear expression: a weight times a variable.
#[derive(Debug, Clone, Copy, PartialEq, Eq, Structural)]
pub struct Term {
    pub variable: usize,
    pub weight: i64,
}

/// How the linear expression of a constraint relates to its bound.
#[derive(Debug, Clone, Copy, PartialEq, Eq, Structural)]
pub enum Relation {
    /// The expression is at least the bound.
    AtLeast,
    /// The expression is at most the bound.
    AtMost,
}

/// The rule of the coverage problem that a constraint states.
#[derive(Debug, Clone, Copy, PartialEq, Eq, Structural)]
pub enum Purpose {
    /// The ground element with this identifier counts as covered only if a
    /// subset that holds it is selected.
    Cover(usize),
    /// No more subsets are selected than the budget allows.
    Cardinality,
}

/// A linear constraint: the sum of `terms` stands in `relation` to `bound`.
#[derive(Debug, Clone)]
pub struct Constraint {
    pub purpose: Purpose,
    pub terms: Vec<Term>,
    pub relation: Relation,
    pub bound: usize,
}

/// The program for one instance and one budget.
#[derive(Debug, Clone)]
pub struct CoverageModel {
    /// How many ground elements there are; the variables before this place
    /// are theirs, the ones from it on belong to the subsets.
    pub elements: usize,
    pub variables: Vec<Variable>,
    /// For each ground element, the indices of the subsets that hold it, in
    /// ascending order.
    pub containment: BTreeMap<usize, Vec<usize>>,
    pub constraints: Vec<Constraint>,
}

/// The value, 0 or 1, that `assignment` gives to variable `v`; a variable
/// that the assignment does not reach counts as 0.
pub open spec fn indicator(assignment: Seq<bool>, v: int) -> int {
    if 0 <= v < assignment.len() && assignment[v] {
        1
    } else {
        0
    }
}

/// What one term adds to its sum under `assignment`.
pub open spec fn contribution(term: Term, assignment: Seq<bool>) -> int {
    if indicator(assignment, term.variable as int) == 1 {
        term.weight as int
    } else {
        0
    }
}

/// The value of the linear expression `terms` under `assignment`.
pub open spec fn weighted_sum(terms: Seq<Term>, assignment: Seq<bool>) -> int
    decreases terms.len(),
{
    if terms.len() == 0 {
        0
    } else {
        weighted_sum(terms.drop_last(), assignment) + contribution(terms.last(), assignment)
    }
}

/// The sum of the coefficients of those of `variables` that `assignment`
/// sets to 1, variable `v` being the one at place `v`.
pub open spec fn objective_sum(variables: Seq<Variable>, assignment: Seq<bool>) -> int
    decreases variables.len(),
{
    if variables.len() == 0 {
        0
    } else {
        objective_sum(variables.drop_last(), assignment) + if indicator(
            assignment,
            variables.len() - 1,
        ) == 1 {
            variables.last().coefficient as int
        } else {
            0
        }
    }
}

/// The indices of the members of `sets` that hold `e`, in ascending order.
pub open spec fn holders(sets: Seq<BTreeSet<usize>>, e: usize) -> Seq<usize>
    decreases sets.len(),
{
    if sets.len() == 0 {
        Seq::empty()
    } else {
        let before = holders(sets.drop_last(), e);
        if sets.last()@.contains(e) {
            before.push((sets.len() - 1) as usize)
        } else {
            before
        }
    }
}

/// The terms of the constraint for the element at place `p` of `n`: each
/// subset listed in `holding` with weight 1, then the element's own variable
/// with weight -1.
pub open spec fn cover_terms(n: int, holding: Seq<usize>, p: int) -> Seq<Term> {
    Seq::new(holding.len(), |t: int| (Term { variable: (n + holding[t]) as usize, weight: 1i64 })).push(
        (Term { variable: p as usize, weight: -1i64 }),
    )
}

/// The terms of the budget constraint: each of the `s` subset variables,
/// which follow the `n` element variables, with weight 1.
pub open spec fn cardinality_terms(n: int, s: int) -> Seq<Term> {
    Seq::new(s as nat, |i: int| (Term { variable: (n + i) as usize, weight: 1i64 }))
}

impl Constraint {
    /// Whether `assignment` satisfies the constraint.
    pub open spec fn holds(&self, assignment: Seq<bool>) -> bool {
        match self.relation {
            Relation::AtLeast => weighted_sum(self.terms@, assignment) >= self.bound,
            Relation::AtMost => weighted_sum(self.terms@, assignment) <= self.bound,
        }
    }

    /// The constraint says that the element `e`, at place `p` of `n`, is
    /// covered only if one of the subsets in `holding` is selected.
    pub open spec fn is_cover(&self, n: int, e: usize, p: int, holding: Seq<usize>) -> bool {
        &&& self.purpose == Purpose::Cover(e)
        &&& self.terms@ == cover_terms(n, holding, p)
        &&& self.relation == Relation::AtLeast
        &&& self.bound == 0
    }

    /// The constraint says that at most `k` of the `s` subsets are selected.
    pub open spec fn is_cardinality(&self, n: int, s: int, k: usize) -> bool {
        &&& self.purpose == Purpose::Cardinality
        &&& self.terms@ == cardinality_terms(n, s)
        &&& self.relation == Relation::AtMost
        &&& self.bound == k
    }
}

impl CoverageModel {
    /// Whether `assignment` gives a value to each variable and satisfies
    /// every constraint.
    pub open spec fn feasible(&self, assignment: Seq<bool>) -> bool {
        &&& assignment.len() == self.variables@.len()
        &&& forall|c: int| 0 <= c < self.constraints@.len() ==> (#[trigger] self.constraints@[c]).holds(assignment)
    }

    /// The value of the objective under `assignment`.
    pub open spec fn objective_value(&self, assignment: Seq<bool>) -> int {
        objective_sum(self.variables@, assignment)
    }

    /// Whether `assignment` is feasible and no feasible assignment has a
    /// larger objective value.
    pub open spec fn optimal(&self, assignment: Seq<bool>) -> bool {
        &&& self.feasible(assignment)
        &&& forall|other: Seq<bool>| #[trigger]
            self.feasible(other) ==> self.objective_value(other) <= self.objective_value(
                assignment,
            )
    }

    /// The model is the program for choosing at most `k` subsets of
    /// `instance`: one variable with coefficient 1 for each ground element,
    /// then one with coefficient 0 for each subset; for each element the
    /// list of the subsets that hold it and the constraint made from that
    /// list; and last the budget constraint.
    pub open spec fn encodes(&self, instance: &Instance, k: usize) -> bool {
        let n = instance.elements().len() as int;
        let s = instance.sets@.len() as int;
        &&& self.elements == n
        &&& self.variables@.len() == n + s
        &&& forall|p: int|
            0 <= p < n ==> #[trigger] self.variables@[p] == (Variable {
                role: Role::Element(instance.elements()[p]),
                coefficient: 1,
            })
        &&& forall|v: int|
            n <= v < n + s ==> #[trigger] self.variables@[v] == (Variable {
                role: Role::Subset((v - n) as usize),
                coefficient: 0,
            })
        &&& self.containment@.dom() == instance.ground@
        &&& forall|e: usize|
            instance.ground@.contains(e) ==> (#[trigger] self.containment@[e])@ == holders(
                instance.sets@,
                e,
            )
        &&& self.constraints@.len() == n + 1
        &&& forall|p: int|
            0 <= p < n ==> (#[trigger] self.constraints@[p]).is_cover(
                n,
                instance.elements()[p],
                p,
                holders(instance.sets@, instance.elements()[p]),
            )
        &&& self.constraints@[n].is_cardinality(n, s, k)
    }
}

impl Constraint {
    /// Evaluates the constraint under `assignment`.
    pub fn is_satisfied(&self, assignment: &Vec<bool>) -> (satisfied: bool)
        ensures
            satisfied == self.holds(assignment@),
    {
        let mut sum: i128 = 0;
        let mut t: usize = 0;
        assert(self.terms@.take(0) =~= Seq::<Term>::empty());
        while t < self.terms.len()
            invariant
                t <= self.terms@.len(),
                sum == weighted_sum(self.terms@.take(t as int), assignment@),
                -(t * 0x8000_0000_0000_0000) <= sum <= t * 0x8000_0000_0000_0000,
            decreases self.terms@.len() - t,
        {
            let term = self.terms[t];
            proof {
                let longer = self.terms@.take(t + 1);
                assert(longer.drop_last() =~= self.terms@.take(t as int));
                assert(longer.last() == term);
            }
            if term.variable < assignment.len() && assignment[term.variable] {
                sum = sum + term.weight as i128;
            }
            t += 1;
        }
        assert(self.terms@.take(t as int) =~= self.terms@);
        match self.relation {
            Relation::AtLeast => sum >= self.bound as i128,
            Relation::AtMost => sum <= self.bound as i128,
        }
    }
}

impl CoverageModel {
    /// Tells whether `assignment` gives a value to each variable and
    /// satisfies every constraint.
    pub fn is_feasible(&self, assignment: &Vec<bool>) -> (feasible: bool)
        ensures
            feasible == self.feasible(assignment@),
    {
        if assignment.len() != self.variables.len() {
            return false;
        }
        let mut c: usize = 0;
        while c < self.constraints.len()
            invariant
                c <= self.constraints@.len(),
                assignment@.len() == self.variables@.len(),
                forall|d: int| 0 <= d < c ==> (#[trigger] self.constraints@[d]).holds(assignment@),
            decreases self.constraints@.len() - c,
        {
            if !self.constraints[c].is_satisfied(assignment) {
                return false;
            }
            c += 1;
        }
        true
    }

    /// Computes the value of the objective under `assignment`.
    pub fn evaluate(&self, assignment: &Vec<bool>) -> (value: i128)
        ensures
            value == self.objective_value(assignment@),
    {
        let mut value: i128 = 0;
        let mut v: usize = 0;
        assert(self.variables@.take(0) =~= Seq::<Variable>::empty());
        while v < self.variables.len()
            invariant
                v <= self.variables@.len(),
                value == objective_sum(self.variables@.take(v as int), assignment@),
                -(v * 0x8000_0000_0000_0000) <= value <= v * 0x8000_0000_0000_0000,
            decreases self.variables@.len() - v,
        {
            let variable = self.variables[v];
            proof {
                let longer = self.variables@.take(v + 1);
                assert(longer.drop_last() =~= self.variables@.take(v as int));
                assert(longer.last() == variable);
            }
            if v < assignment.len() && assignment[v] {
                value = value + variable.coefficient as i128;
            }
            v += 1;
        }
        assert(self.variables@.take(v as int) =~= self.variables@);
        value
    }
}

/// `holders` lists exactly the indices of the sets that hold `e`, each once
/// and in ascending order.
pub proof fn lemma_holders(sets: Seq<BTreeSet<usize>>, e: usize)
    requires
        sets.len() <= usize::MAX,
    ensures
        strictly_ascending(holders(sets, e)),
        forall|t: int|
            0 <= t < holders(sets, e).len() ==> (#[trigger] holders(sets, e)[t]) < sets.len()
                && sets[holders(sets, e)[t] as int]@.contains(e),
        forall|i: int|
            0 <= i < sets.len() && (#[trigger] sets[i])@.contains(e) ==> holders(sets, e).contains(
                i as usize,
            ),
    decreases sets.len(),
{
    if sets.len() > 0 {
        let front = sets.drop_last();
        lemma_holders(front, e);
        let before = holders(front, e);
        let all = holders(sets, e);
        assert forall|i: int| 0 <= i < sets.len() && (#[trigger] sets[i])@.contains(
            e,
        ) implies all.contains(i as usize) by {
            if i < sets.len() - 1 {
                assert(front[i]@.contains(e));
                let t = choose|t: int| 0 <= t < before.len() && before[t] == i as usize;
                assert(all[t] == i as usize);
            } else {
                assert(all[all.len() - 1] == i as usize);
            }
        }
    }
}

/// Lists the indices of the subsets of `instance` that hold `e`.
fn subsets_holding(instance: &Instance, e: usize) -> (holding: Vec<usize>)
    ensures
        holding@ == holders(instance.sets@, e),
{
    let mut holding: Vec<usize> = Vec::new();
    let mut i: usize = 0;
    assert(instance.sets@.take(0) =~= Seq::<BTreeSet<usize>>::empty());
    while i < instance.sets.len()
        invariant
            i <= instance.sets@.len(),
            holding@ == holders(instance.sets@.take(i as int), e),
        decreases instance.sets@.len() - i,
    {
        proof {
            let upto = instance.sets@.take(i + 1);
            assert(upto.drop_last() =~= instance.sets@.take(i as int));
            assert(upto.last() == instance.sets@[i as int]);
        }
        if instance.sets[i].contains(&e) {
            holding.push(i);
        }
        i += 1;
    }
    assert(instance.sets@.take(instance.sets@.len() as int) =~= instance.sets@);
    holding
}

/// Makes the constraint for the element `e` at place `p` of `n`, held by the
/// subsets listed in `holding`.
fn cover_constraint(n: usize, e: usize, p: usize, holding: &Vec<usize>) -> (constraint: Constraint)
    requires
        forall|t: int| 0 <= t < holding@.len() ==> n + #[trigger] holding@[t] <= usize::MAX,
    ensures
        constraint.is_cover(n as int, e, p as int, holding@),
{
    let mut terms: Vec<Term> = Vec::new();
    let mut t: usize = 0;
    while t < holding.len()
        invariant
            t <= holding@.len(),
            forall|u: int| 0 <= u < holding@.len() ==> n + #[trigger] holding@[u] <= usize::MAX,
            terms@ == Seq::new(
                t as nat,
                |u: int| (Term { variable: (n + holding@[u]) as usize, weight: 1i64 }),
            ),
        decreases holding@.len() - t,
    {
        terms.push(Term { variable: n + holding[t], weight: 1 });
        t += 1;
        assert(terms@ =~= Seq::new(
            t as nat,
            |u: int| (Term { variable: (n + holding@[u]) as usize, weight: 1i64 }),
        ));
    }
    terms.push(Term { variable: p, weight: -1 });
    Constraint { purpose: Purpose::Cover(e), terms, relation: Relation::AtLeast, bound: 0 }
}

/// Makes the constraint that at most `k` of the `s` subsets are selected.
fn cardinality_constraint(n: usize, s: usize, k: usize) -> (constraint: Constraint)
    requires
        n + s <= usize::MAX,
    ensures
        constraint.is_cardinality(n as int, s as int, k),
{
    let mut terms: Vec<Term> = Vec::new();
    let mut i: usize = 0;
    while i < s
        invariant
            i <= s,
            n + s <= usize::MAX,
            terms@ == cardinality_terms(n as int, i as int),
        decreases s - i,
    {
        terms.push(Term { variable: n + i, weight: 1 });
        i += 1;
        assert(terms@ =~= cardinality_terms(n as int, i as int));
    }
    Constraint { purpose: Purpose::Cardinality, terms, relation: Relation::AtMost, bound: k }
}

/// Translates `instance` and the budget `k` into the program whose optimal
/// assignments are the best choices of at most `k` subsets.
///
/// An instance that is not well formed is refused.
pub fn build(instance: &Instance, k: usize) -> (result: Result<CoverageModel, CoverError>)
    ensures
        match result {
            Ok(model) => {
                &&& instance.wf()
                &&& model.encodes(instance, k)
                &&& model.variables@.len() == instance.ground@.len() + instance.sets@.len()
                &&& model.constraints@.len() == instance.ground@.len() + 1
            },
            Err(e) => !instance.wf() && e == CoverError::MalformedInstance,
        },
{
    if !instance.is_well_formed() {
        return Err(CoverError::MalformedInstance);
    }
    let ground = listed(&instance.ground);
    let n = ground.len();
    let s = instance.sets.len();
    let mut variables: Vec<Variable> = Vec::new();

    let mut p: usize = 0;
    while p < n
        invariant
            p <= n,
            n == ground@.len(),
            ground@ == instance.elements(),
            variables@.len() == p,
            forall|q: int|
                0 <= q < p ==> #[trigger] variables@[q] == (Variable {
                    role: Role::Element(instance.elements()[q]),
                    coefficient: 1,
                }),
        decreases n - p,
    {
        variables.push(Variable { role: Role::Element(ground[p]), coefficient: 1 });
        p += 1;
    }

    let mut i: usize = 0;
    while i < s
        invariant
            i <= s,
            n == instance.elements().len(),
            s == instance.sets@.len(),
            variables@.len() == n + i,
            forall|q: int|
                0 <= q < n ==> #[trigger] variables@[q] == (Variable {
                    role: Role::Element(instance.elements()[q]),
                    coefficient: 1,
                }),
            forall|v: int|
                n <= v < n + i ==> #[trigger] variables@[v] == (Variable {
                    role: Role::Subset((v - n) as usize),
                    coefficient: 0,
                }),
        decreases s - i,
    {
        variables.push(Variable { role: Role::Subset(i), coefficient: 0 });
        i += 1;
    }
    assert(variables.len() == n + s);

    let mut containment: BTreeMap<usize, Vec<usize>> = BTreeMap::new();
    let mut constraints: Vec<Constraint> = Vec::new();
    let mut p: usize = 0;
    proof {
        lemma_ascending(&instance.ground);
        assert(ground@.take(0).to_set() =~= containment@.dom());
    }
    while p < n
        invariant
            p <= n,
            n == instance.elements().len(),
            ground@ == instance.elements(),
            strictly_ascending(ground@),
            s == instance.sets@.len(),
            n + s <= usize::MAX,
            constraints@.len() == p,
            containment@.dom() == ground@.take(p as int).to_set(),
            forall|q: int|
                0 <= q < p ==> (#[trigger] containment@[ground@[q]])@ == holders(
                    instance.sets@,
                    ground@[q],
                ),
            forall|q: int|
                0 <= q < p ==> (#[trigger] constraints@[q]).is_cover(
                    n as int,
                    instance.elements()[q],
                    q,
                    holders(instance.sets@, instance.elements()[q]),
                ),
        decreases n - p,
    {
        let e = ground[p];
        let holding = subsets_holding(instance, e);
        proof {
            lemma_holders(instance.sets@, e);
        }
        constraints.push(cover_constraint(n, e, p, &holding));
        let ghost before = containment@;
        containment.insert(e, holding);
        proof {
            let shorter = ground@.take(p as int);
            assert(ground@.take(p + 1) =~= shorter.push(e));
            shorter.lemma_push_to_set_commute(e);
            assert(containment@.dom() =~= before.dom().insert(e));
            assert forall|q: int| 0 <= q < p + 1 implies (#[trigger] containment@[ground@[q]])@
                == holders(instance.sets@, ground@[q]) by {
                if q < p {
                    assert(ground@[q] < ground@[p as int]);
                    assert(containment@[ground@[q]] == before[ground@[q]]);
                }
            }
        }
        p += 1;
    }
    constraints.push(cardinality_constraint(n, s, k));
    proof {
        assert(ground@.take(n as int) =~= ground@);
        assert forall|e: usize| instance.ground@.contains(e) implies (#[trigger] containment@[e])@
            == holders(instance.sets@, e) by {
            assert(ground@.to_set().contains(e));
            let q = choose|q: int| 0 <= q < n && ground@[q] == e;
            assert(containment@[ground@[q]]@ == holders(instance.sets@, ground@[q]));
        }
    }
    Ok(CoverageModel { elements: n, variables, containment, constraints })
}

} // verus!
