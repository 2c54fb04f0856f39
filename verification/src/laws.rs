//! What holds of every model built from a well-formed instance.
//!
//! An assignment is a sequence of truth values, one per variable.  The laws
//! relate the assignments that satisfy a model to the coverage problem the
//! model was built for.

use vstd::prelude::*;
use crate::instance::Instance;
use crate::model::{
    cardinality_terms, contribution, cover_terms, holders, indicator, lemma_holders,
    objective_sum, weighted_sum, CoverageModel, Term, Variable,
};
use crate::ordered::{lemma_ascending, lemma_ascending_no_duplicates, strictly_ascending};
use crate::solution::{lemma_selected, selected};

verus! {

/// The ground elements that `assignment` marks as covered.
pub open spec fn marked_elements(instance: &Instance, assignment: Seq<bool>) -> Set<usize> {
    Set::new(
        |e: usize|
            exists|p: int|
                0 <= p < instance.elements().len() && assignment[p] && #[trigger] instance.elements()[p]
                    == e,
    )
}

/// The indices of the subsets that `assignment` selects.
pub open spec fn selected_subsets(instance: &Instance, assignment: Seq<bool>) -> Set<usize> {
    Set::new(|i: usize| i < instance.sets@.len() && assignment[instance.elements().len() + i])
}

/// The elements that belong to at least one subset that `assignment`
/// selects.
pub open spec fn selected_union(instance: &Instance, assignment: Seq<bool>) -> Set<usize> {
    Set::new(
        |e: usize|
            exists|i: int|
                0 <= i < instance.sets@.len() && assignment[instance.elements().len() + i] && (
                #[trigger] instance.sets@[i])@.contains(e),
    )
}

/// The ground elements that belong to a subset whose index is in `chosen`:
/// what a choice of subsets covers.
pub open spec fn coverage(instance: &Instance, chosen: Set<usize>) -> Set<usize> {
    Set::new(
        |e: usize|
            instance.ground@.contains(e) && exists|i: int|
                0 <= i < instance.sets@.len() && chosen.contains(i as usize) && (
                #[trigger] instance.sets@[i])@.contains(e),
    )
}

/// The assignment that selects the subsets in `chosen` and no others, and
/// marks the elements that they cover and no others.
pub open spec fn assignment_for(instance: &Instance, chosen: Set<usize>) -> Seq<bool> {
    Seq::new(
        instance.elements().len() + instance.sets@.len(),
        |v: int|
            if v < instance.elements().len() {
                coverage(instance, chosen).contains(instance.elements()[v])
            } else {
                chosen.contains((v - instance.elements().len()) as usize)
            },
    )
}

/// Whether `chosen` is a choice of at most `k` subsets of `instance`.
pub open spec fn within_budget(instance: &Instance, chosen: Set<usize>, k: usize) -> bool {
    &&& chosen.finite()
    &&& chosen.len() <= k
    &&& forall|i: usize| chosen.contains(i) ==> i < instance.sets@.len()
}

/// The assignment that sets each of `len` variables to 0.
pub open spec fn nothing_selected(len: nat) -> Seq<bool> {
    Seq::new(len, |v: int| false)
}

/// A sum of terms of weight 1 counts the variables among them that are set:
/// it lies between 0 and the number of terms, and it is positive exactly
/// where one of the variables is set.
proof fn lemma_unit_sum(terms: Seq<Term>, assignment: Seq<bool>)
    requires
        forall|t: int| 0 <= t < terms.len() ==> (#[trigger] terms[t]).weight == 1,
    ensures
        0 <= weighted_sum(terms, assignment) <= terms.len(),
        weighted_sum(terms, assignment) >= 1 <==> exists|t: int|
            0 <= t < terms.len() && indicator(assignment, (#[trigger] terms[t]).variable as int)
                == 1,
    decreases terms.len(),
{
    if terms.len() > 0 {
        let front = terms.drop_last();
        assert forall|t: int| 0 <= t < front.len() implies (#[trigger] front[t]).weight == 1 by {
            assert(front[t] == terms[t]);
        }
        lemma_unit_sum(front, assignment);
        if exists|t: int|
            0 <= t < terms.len() && indicator(assignment, (#[trigger] terms[t]).variable as int)
                == 1 {
            let t = choose|t: int|
                0 <= t < terms.len() && indicator(
                    assignment,
                    (#[trigger] terms[t]).variable as int,
                ) == 1;
            if t < front.len() {
                assert(front[t] == terms[t]);
            } else {
                assert(terms.last() == terms[t]);
            }
        }
        if weighted_sum(terms, assignment) >= 1 {
            if contribution(terms.last(), assignment) == 0 {
                let t = choose|t: int|
                    0 <= t < front.len() && indicator(
                        assignment,
                        (#[trigger] front[t]).variable as int,
                    ) == 1;
                assert(terms[t] == front[t]);
            } else {
                assert(indicator(assignment, terms[terms.len() - 1].variable as int) == 1);
            }
        }
    }
}

/// The budget constraint sums up to the number of selected subsets.
proof fn lemma_cardinality_sum(n: int, s: int, assignment: Seq<bool>)
    requires
        0 <= n,
        0 <= s,
        n + s <= usize::MAX,
    ensures
        weighted_sum(cardinality_terms(n, s), assignment) == selected(assignment, n, s).len(),
    decreases s,
{
    if s > 0 {
        lemma_cardinality_sum(n, s - 1, assignment);
        assert(cardinality_terms(n, s).drop_last() =~= cardinality_terms(n, s - 1));
        assert(cardinality_terms(n, s).last().variable == n + s - 1);
    }
}

/// Where the first `n` variables have coefficient 1 and the others 0, the
/// objective counts the variables set among the first `n`.
proof fn lemma_objective_counts(variables: Seq<Variable>, n: int, assignment: Seq<bool>)
    requires
        0 <= n,
        forall|v: int|
            0 <= v < variables.len() ==> (#[trigger] variables[v]).coefficient == if v < n {
                1i64
            } else {
                0i64
            },
    ensures
        objective_sum(variables, assignment) == selected(
            assignment,
            0,
            if variables.len() <= n {
                variables.len() as int
            } else {
                n
            },
        ).len(),
    decreases variables.len(),
{
    if variables.len() > 0 {
        let front = variables.drop_last();
        assert forall|v: int| 0 <= v < front.len() implies (#[trigger] front[v]).coefficient == if v
            < n {
            1i64
        } else {
            0i64
        } by {
            assert(front[v] == variables[v]);
        }
        lemma_objective_counts(front, n, assignment);
        assert(variables.last() == variables[variables.len() - 1]);
    }
}

/// The set of selected subsets has as many members as the list of them.
proof fn lemma_selected_subsets(instance: &Instance, assignment: Seq<bool>)
    requires
        assignment.len() == instance.elements().len() + instance.sets@.len(),
    ensures
        selected_subsets(instance, assignment) == selected(
            assignment,
            instance.elements().len() as int,
            instance.sets@.len() as int,
        ).to_set(),
        selected_subsets(instance, assignment).finite(),
        selected_subsets(instance, assignment).len() == selected(
            assignment,
            instance.elements().len() as int,
            instance.sets@.len() as int,
        ).len(),
{
    let n = instance.elements().len() as int;
    let s = instance.sets@.len() as int;
    assert(instance.sets.len() == s);
    let list = selected(assignment, n, s);
    lemma_selected(assignment, n, s);
    lemma_ascending_no_duplicates(list);
    assert forall|i: usize| selected_subsets(instance, assignment).contains(i) <==> list.to_set().contains(
        i,
    ) by {
        if selected_subsets(instance, assignment).contains(i) {
            assert(indicator(assignment, n + i) == 1);
            assert(list.contains(i));
        }
        if list.contains(i) {
            let t = choose|t: int| 0 <= t < list.len() && list[t] == i;
            assert(list[t] < s && indicator(assignment, n + list[t]) == 1);
        }
    }
    assert(selected_subsets(instance, assignment) =~= list.to_set());
}

/// The identifiers of the elements at the places listed in `places`.
spec fn identifiers_at(ground: Seq<usize>, places: Seq<usize>) -> Seq<usize> {
    Seq::new(places.len(), |t: int| ground[places[t] as int])
}

/// The set of marked elements has as many members as there are element
/// variables set.
proof fn lemma_marked_elements(instance: &Instance, assignment: Seq<bool>)
    requires
        assignment.len() >= instance.elements().len(),
    ensures
        marked_elements(instance, assignment).finite(),
        marked_elements(instance, assignment).len() == selected(
            assignment,
            0,
            instance.elements().len() as int,
        ).len(),
{
    let ground = instance.elements();
    let n = ground.len() as int;
    lemma_ascending(&instance.ground);
    assert(instance.ground.len() == n);
    let places = selected(assignment, 0, n);
    lemma_selected(assignment, 0, n);
    let list = identifiers_at(ground, places);
    assert forall|t: int, u: int| 0 <= t < u < list.len() implies list[t] < list[u] by {
        assert(places[t] < places[u]);
        assert(places[u] < n);
        assert(ground[places[t] as int] < ground[places[u] as int]);
    }
    lemma_ascending_no_duplicates(list);
    assert forall|e: usize| marked_elements(instance, assignment).contains(e) <==> list.to_set().contains(
        e,
    ) by {
        if marked_elements(instance, assignment).contains(e) {
            let p = choose|p: int| 0 <= p < n && assignment[p] && #[trigger] ground[p] == e;
            assert(indicator(assignment, 0 + p) == 1);
            assert(indicator(assignment, 0 + p as usize) == 1);
            assert(places.contains(p as usize));
            let t = choose|t: int| 0 <= t < places.len() && places[t] == p as usize;
            assert(list[t] == e);
        }
        if list.contains(e) {
            let t = choose|t: int| 0 <= t < list.len() && list[t] == e;
            let p = places[t] as int;
            assert(places[t] < n && indicator(assignment, 0 + places[t]) == 1);
            assert(assignment[p] && ground[p] == e);
        }
    }
    assert(marked_elements(instance, assignment) =~= list.to_set());
}

/// A model has one variable for each ground element and each subset, and
/// one constraint for each ground element and one more.
pub proof fn lemma_model_size(model: &CoverageModel, instance: &Instance, k: usize)
    requires
        model.encodes(instance, k),
    ensures
        model.variables@.len() == instance.ground@.len() + instance.sets@.len(),
        model.constraints@.len() == instance.ground@.len() + 1,
{
    lemma_ascending(&instance.ground);
}

/// Under an assignment that satisfies the model, every element marked as
/// covered belongs to a selected subset, and the objective value is the
/// number of marked elements.
pub proof fn lemma_coverage_sound(
    model: &CoverageModel,
    instance: &Instance,
    k: usize,
    assignment: Seq<bool>,
)
    requires
        instance.wf(),
        model.encodes(instance, k),
        model.feasible(assignment),
    ensures
        marked_elements(instance, assignment).subset_of(selected_union(instance, assignment)),
        marked_elements(instance, assignment).finite(),
        model.objective_value(assignment) == marked_elements(instance, assignment).len(),
{
    let n = instance.elements().len() as int;
    let s = instance.sets@.len() as int;
    assert(model.variables.len() == n + s);
    assert forall|e: usize| marked_elements(instance, assignment).contains(e) implies selected_union(
        instance,
        assignment,
    ).contains(e) by {
        let p = choose|p: int| 0 <= p < n && assignment[p] && #[trigger] instance.elements()[p] == e;
        let holding = holders(instance.sets@, e);
        lemma_holders(instance.sets@, e);
        let constraint = model.constraints@[p];
        assert(constraint.is_cover(n, e, p, holding));
        assert(constraint.holds(assignment));
        let terms = cover_terms(n, holding, p);
        let units = terms.drop_last();
        assert(terms.last() == (Term { variable: p as usize, weight: -1i64 }));
        assert(indicator(assignment, p) == 1);
        assert(contribution(terms.last(), assignment) == -1);
        assert(weighted_sum(units, assignment) >= 1);
        lemma_unit_sum(units, assignment);
        let t = choose|t: int|
            0 <= t < units.len() && indicator(assignment, (#[trigger] units[t]).variable as int)
                == 1;
        assert(units[t] == terms[t]);
        let i = holding[t] as int;
        assert(holding[t] < s && instance.sets@[holding[t] as int]@.contains(e));
        assert(assignment[n + i]);
        assert(instance.sets@[i]@.contains(e));
    }
    lemma_marked_elements(instance, assignment);
    lemma_objective_counts(model.variables@, n, assignment);
}

/// An assignment that satisfies the model selects no more subsets than the
/// budget allows.
pub proof fn lemma_cardinality_respected(
    model: &CoverageModel,
    instance: &Instance,
    k: usize,
    assignment: Seq<bool>,
)
    requires
        model.encodes(instance, k),
        model.feasible(assignment),
    ensures
        selected_subsets(instance, assignment).finite(),
        selected_subsets(instance, assignment).len() <= k,
        model.selection(assignment).to_set() == selected_subsets(instance, assignment),
        model.selection(assignment).len() <= k,
{
    let n = instance.elements().len() as int;
    let s = instance.sets@.len() as int;
    assert(model.variables.len() == n + s);
    let budget = model.constraints@[n];
    assert(budget.is_cardinality(n, s, k));
    assert(budget.holds(assignment));
    lemma_cardinality_sum(n, s, assignment);
    lemma_selected_subsets(instance, assignment);
}

/// A larger budget never lowers the optimal objective value: the best
/// assignment for the budget `k1` is no better than the best one for a
/// budget `k2` that is at least as large.
pub proof fn lemma_budget_monotone(
    instance: &Instance,
    k1: usize,
    k2: usize,
    model1: &CoverageModel,
    model2: &CoverageModel,
    best1: Seq<bool>,
    best2: Seq<bool>,
)
    requires
        k1 <= k2,
        model1.encodes(instance, k1),
        model2.encodes(instance, k2),
        model1.optimal(best1),
        model2.optimal(best2),
    ensures
        model1.objective_value(best1) <= model2.objective_value(best2),
{
    let n = instance.elements().len() as int;
    let s = instance.sets@.len() as int;
    assert forall|c: int| 0 <= c < model2.constraints@.len() implies (
    #[trigger] model2.constraints@[c]).holds(best1) by {
        assert(model1.constraints@[c].holds(best1));
        if c < n {
            let holding = holders(instance.sets@, instance.elements()[c]);
            assert(model1.constraints@[c].is_cover(n, instance.elements()[c], c, holding));
            assert(model2.constraints@[c].is_cover(n, instance.elements()[c], c, holding));
        } else {
            assert(model1.constraints@[n].is_cardinality(n, s, k1));
            assert(model2.constraints@[n].is_cardinality(n, s, k2));
        }
    }
    assert(model2.feasible(best1));
    assert(model1.variables@ =~= model2.variables@);
}

/// What a choice of subsets covers is a finite part of the ground set.
pub proof fn lemma_coverage_finite(instance: &Instance, chosen: Set<usize>)
    ensures
        coverage(instance, chosen).finite(),
        coverage(instance, chosen).len() <= instance.ground@.len(),
{
    lemma_ascending(&instance.ground);
    assert(coverage(instance, chosen).subset_of(instance.ground@));
    vstd::set_lib::lemma_len_subset(coverage(instance, chosen), instance.ground@);
}

/// Every choice of at most `k` subsets is an assignment that satisfies the
/// model, and its objective value is the number of elements the choice
/// covers.
pub proof fn lemma_choice_is_feasible(
    model: &CoverageModel,
    instance: &Instance,
    k: usize,
    chosen: Set<usize>,
)
    requires
        instance.wf(),
        model.encodes(instance, k),
        within_budget(instance, chosen, k),
    ensures
        model.feasible(assignment_for(instance, chosen)),
        selected_subsets(instance, assignment_for(instance, chosen)) == chosen,
        marked_elements(instance, assignment_for(instance, chosen)) == coverage(instance, chosen),
        model.objective_value(assignment_for(instance, chosen)) == coverage(instance, chosen).len(),
{
    let n = instance.elements().len() as int;
    let s = instance.sets@.len() as int;
    let assignment = assignment_for(instance, chosen);
    assert(model.variables.len() == n + s);
    assert(selected_subsets(instance, assignment) =~= chosen) by {
        assert forall|i: usize| selected_subsets(instance, assignment).contains(i)
            <==> chosen.contains(i) by {
            if i < s {
                assert(assignment[n + i] == chosen.contains(((n + i) - n) as usize));
            }
        }
    }
    lemma_selected_subsets(instance, assignment);
    lemma_cardinality_sum(n, s, assignment);
    assert forall|c: int| 0 <= c < model.constraints@.len() implies (
    #[trigger] model.constraints@[c]).holds(assignment) by {
        if c < n {
            let e = instance.elements()[c];
            let holding = holders(instance.sets@, e);
            lemma_holders(instance.sets@, e);
            assert(model.constraints@[c].is_cover(n, e, c, holding));
            let terms = cover_terms(n, holding, c);
            let units = terms.drop_last();
            assert(terms.last() == (Term { variable: c as usize, weight: -1i64 }));
            lemma_unit_sum(units, assignment);
            if assignment[c] {
                assert(coverage(instance, chosen).contains(e));
                let i = choose|i: int|
                    0 <= i < s && chosen.contains(i as usize) && (#[trigger] instance.sets@[i])@.contains(
                        e,
                    );
                assert(holding.contains(i as usize));
                let t = choose|t: int| 0 <= t < holding.len() && holding[t] == i as usize;
                assert(units[t] == terms[t]);
                assert(units[t].variable == n + i);
                assert(assignment[n + i] == chosen.contains(((n + i) - n) as usize));
                assert(indicator(assignment, units[t].variable as int) == 1);
            }
        } else {
            assert(model.constraints@[n].is_cardinality(n, s, k));
        }
    }
    assert(marked_elements(instance, assignment) =~= coverage(instance, chosen)) by {
        lemma_ascending(&instance.ground);
        assert forall|e: usize| marked_elements(instance, assignment).contains(e)
            <==> coverage(instance, chosen).contains(e) by {
            if coverage(instance, chosen).contains(e) {
                assert(instance.elements().to_set().contains(e));
                let p = choose|p: int| 0 <= p < n && instance.elements()[p] == e;
                assert(assignment[p] && instance.elements()[p] == e);
            }
            if marked_elements(instance, assignment).contains(e) {
                let p = choose|p: int|
                    0 <= p < n && assignment[p] && #[trigger] instance.elements()[p] == e;
                assert(coverage(instance, chosen).contains(instance.elements()[p]));
            }
        }
    }
    lemma_marked_elements(instance, assignment);
    lemma_objective_counts(model.variables@, n, assignment);
}

/// The model states the coverage problem exactly: the objective value of
/// an optimal assignment is the number of elements that the subsets it
/// selects cover, and no choice of at most `k` subsets covers more.
pub proof fn lemma_optimum_is_best_coverage(
    model: &CoverageModel,
    instance: &Instance,
    k: usize,
    best: Seq<bool>,
)
    requires
        instance.wf(),
        model.encodes(instance, k),
        model.optimal(best),
    ensures
        within_budget(instance, selected_subsets(instance, best), k),
        model.objective_value(best) == coverage(
            instance,
            selected_subsets(instance, best),
        ).len(),
        forall|chosen: Set<usize>| #[trigger]
            within_budget(instance, chosen, k) ==> coverage(instance, chosen).len()
                <= model.objective_value(best),
{
    let n = instance.elements().len() as int;
    let s = instance.sets@.len() as int;
    assert forall|chosen: Set<usize>| #[trigger]
        within_budget(instance, chosen, k) implies coverage(instance, chosen).len()
        <= model.objective_value(best) by {
        lemma_choice_is_feasible(model, instance, k, chosen);
        assert(model.feasible(assignment_for(instance, chosen)));
    }
    let selection = selected_subsets(instance, best);
    lemma_cardinality_respected(model, instance, k, best);
    assert(within_budget(instance, selection, k));
    lemma_coverage_sound(model, instance, k, best);
    lemma_coverage_finite(instance, selection);
    assert(marked_elements(instance, best).subset_of(coverage(instance, selection))) by {
        assert forall|e: usize| marked_elements(instance, best).contains(e) implies coverage(
            instance,
            selection,
        ).contains(e) by {
            assert(selected_union(instance, best).contains(e));
            let i = choose|i: int|
                0 <= i < s && best[n + i] && (#[trigger] instance.sets@[i])@.contains(e);
            assert(instance.sets.len() == s);
            assert(selection.contains(i as usize));
            let p = choose|p: int| 0 <= p < n && best[p] && #[trigger] instance.elements()[p] == e;
            lemma_ascending(&instance.ground);
            assert(instance.elements().to_set().contains(instance.elements()[p]));
        }
    }
    vstd::set_lib::lemma_len_subset(marked_elements(instance, best), coverage(instance, selection));
}

/// A budget of at least the number of subsets restricts nothing: every
/// assignment satisfies the budget constraint.
pub proof fn lemma_ample_budget(
    model: &CoverageModel,
    instance: &Instance,
    k: usize,
    assignment: Seq<bool>,
)
    requires
        model.encodes(instance, k),
        k >= instance.sets@.len(),
    ensures
        model.constraints@[instance.elements().len() as int].holds(assignment),
{
    let n = instance.elements().len() as int;
    let s = instance.sets@.len() as int;
    assert(model.constraints@[n].is_cardinality(n, s, k));
    lemma_unit_sum(cardinality_terms(n, s), assignment);
}

/// An element that belongs to no subset is never marked as covered by an
/// assignment that satisfies the model, whatever the budget.
pub proof fn lemma_uncovered_element(
    model: &CoverageModel,
    instance: &Instance,
    k: usize,
    assignment: Seq<bool>,
    p: int,
)
    requires
        instance.wf(),
        model.encodes(instance, k),
        model.feasible(assignment),
        0 <= p < instance.elements().len(),
        forall|i: int|
            0 <= i < instance.sets@.len() ==> !(#[trigger] instance.sets@[i])@.contains(
                instance.elements()[p],
            ),
    ensures
        !assignment[p],
        !marked_elements(instance, assignment).contains(instance.elements()[p]),
{
    lemma_coverage_sound(model, instance, k, assignment);
    let e = instance.elements()[p];
    if assignment[p] {
        assert(marked_elements(instance, assignment).contains(e));
        assert(selected_union(instance, assignment).contains(e));
    }
    if marked_elements(instance, assignment).contains(e) {
        assert(selected_union(instance, assignment).contains(e));
    }
}

/// With a budget of 0 an assignment that satisfies the model selects no
/// subset and has the objective value 0.
pub proof fn lemma_zero_budget(model: &CoverageModel, instance: &Instance, assignment: Seq<bool>)
    requires
        instance.wf(),
        model.encodes(instance, 0),
        model.feasible(assignment),
    ensures
        model.selection(assignment) == Seq::<usize>::empty(),
        model.objective_value(assignment) == 0,
{
    lemma_cardinality_respected(model, instance, 0, assignment);
    lemma_coverage_sound(model, instance, 0, assignment);
    assert(model.selection(assignment) =~= Seq::<usize>::empty());
    let marked = marked_elements(instance, assignment);
    if marked.len() > 0 {
        let e = marked.choose();
        assert(marked.contains(e));
        assert(selected_union(instance, assignment).contains(e));
        let i = choose|i: int|
            0 <= i < instance.sets@.len() && assignment[instance.elements().len() + i] && (
            #[trigger] instance.sets@[i])@.contains(e);
        assert(instance.sets.len() == instance.sets@.len());
        assert(selected_subsets(instance, assignment).contains(i as usize));
    }
}

/// Selecting nothing and marking nothing satisfies every model, so a model
/// built from an instance always has a solution.
pub proof fn lemma_nothing_selected_feasible(model: &CoverageModel, instance: &Instance, k: usize)
    requires
        model.encodes(instance, k),
    ensures
        model.feasible(nothing_selected(model.variables@.len())),
        model.objective_value(nothing_selected(model.variables@.len())) == 0,
{
    let n = instance.elements().len() as int;
    let s = instance.sets@.len() as int;
    let nothing = nothing_selected(model.variables@.len());
    assert(model.variables.len() == n + s);
    assert forall|c: int| 0 <= c < model.constraints@.len() implies (
    #[trigger] model.constraints@[c]).holds(nothing) by {
        lemma_no_contribution(model.constraints@[c].terms@, model.variables@.len());
        if c < n {
            assert(model.constraints@[c].is_cover(
                n,
                instance.elements()[c],
                c,
                holders(instance.sets@, instance.elements()[c]),
            ));
        } else {
            assert(model.constraints@[n].is_cardinality(n, s, k));
        }
    }
    lemma_objective_counts(model.variables@, n, nothing);
    lemma_selected(nothing, 0, n);
    let places = selected(nothing, 0, n);
    if places.len() > 0 {
        assert(indicator(nothing, 0 + places[0]) == 1);
    }
}

/// Under the assignment that sets nothing every sum is 0.
proof fn lemma_no_contribution(terms: Seq<Term>, len: nat)
    ensures
        weighted_sum(terms, nothing_selected(len)) == 0,
    decreases terms.len(),
{
    if terms.len() > 0 {
        lemma_no_contribution(terms.drop_last(), len);
    }
}

} // verus!
