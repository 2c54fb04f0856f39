//! Reading a choice of subsets back from what a solver returned.

use vstd::prelude::*;
use crate::error::CoverError;
use crate::model::{indicator, CoverageModel};
use crate::ordered::strictly_ascending;

verus! {

/// The answer to a coverage problem: the objective value as the solver
/// reported it, and the indices of the selected subsets in ascending order.
#[derive(Debug, Clone)]
pub struct Solution<V> {
    pub objective: V,
    pub sol: Vec<usize>,
}

/// How a run of the solver ended.
#[derive(Debug, Clone)]
pub enum SolverOutcome<V> {
    /// An optimal assignment, one value per variable, with its objective
    /// value.
    Optimal { assignment: Vec<bool>, objective: V },
    /// No assignment satisfies the constraints.
    Infeasible,
    /// The solver could not complete.
    Failed,
}

/// The indices `i` below `s` of the subsets whose variable, `n + i`, is set
/// by `assignment`, in ascending order.
pub open spec fn selected(assignment: Seq<bool>, n: int, s: int) -> Seq<usize>
    decreases s,
{
    if s <= 0 {
        Seq::empty()
    } else {
        let before = selected(assignment, n, s - 1);
        if indicator(assignment, n + s - 1) == 1 {
            before.push((s - 1) as usize)
        } else {
            before
        }
    }
}

/// `selected` lists exactly the subsets whose variable is set, each once
/// and in ascending order.
pub proof fn lemma_selected(assignment: Seq<bool>, n: int, s: int)
    requires
        s <= usize::MAX,
    ensures
        strictly_ascending(selected(assignment, n, s)),
        forall|t: int|
            0 <= t < selected(assignment, n, s).len() ==> (#[trigger] selected(assignment, n, s)[t])
                < s && indicator(assignment, n + selected(assignment, n, s)[t]) == 1,
        forall|i: usize|
            i < s && indicator(assignment, n + i) == 1 ==> #[trigger] selected(
                assignment,
                n,
                s,
            ).contains(i),
    decreases s,
{
    if s > 0 {
        lemma_selected(assignment, n, s - 1);
        let before = selected(assignment, n, s - 1);
        let all = selected(assignment, n, s);
        assert forall|i: usize| i < s && indicator(assignment, n + i) == 1 implies #[trigger] all.contains(
            i,
        ) by {
            if i < s - 1 {
                assert(before.contains(i));
                let t = choose|t: int| 0 <= t < before.len() && before[t] == i;
                assert(all[t] == i);
            } else {
                assert(all[all.len() - 1] == i);
            }
        }
    }
}

impl CoverageModel {
    /// The subsets that `assignment` selects.
    pub open spec fn selection(&self, assignment: Seq<bool>) -> Seq<usize> {
        selected(assignment, self.elements as int, self.variables@.len() - self.elements)
    }
}

/// Collects the subsets that `assignment` selects and hands the reported
/// objective value on unchanged.  Whether the assignment satisfies the model
/// is not looked into.
pub fn extract<V>(model: &CoverageModel, assignment: &Vec<bool>, objective: V) -> (solution:
    Solution<V>)
    ensures
        solution.objective == objective,
        solution.sol@ == model.selection(assignment@),
        strictly_ascending(solution.sol@),
        forall|t: int|
            0 <= t < solution.sol@.len() ==> model.elements + #[trigger] solution.sol@[t]
                < model.variables@.len(),
{
    let n = model.elements;
    let total = model.variables.len();
    let mut sol: Vec<usize> = Vec::new();
    let mut v: usize = n;
    while v < total
        invariant
            n == model.elements,
            total == model.variables@.len(),
            n <= v,
            v <= total || (total < n && v == n),
            sol@ == selected(assignment@, n as int, v - n),
        decreases total - v,
    {
        if v < assignment.len() && assignment[v] {
            sol.push(v - n);
        }
        v += 1;
    }
    proof {
        lemma_selected(assignment@, n as int, total - n);
    }
    Solution { objective, sol }
}

/// Turns the outcome of a solver run on `model` into a solution, or into the
/// error that the outcome stands for.  An assignment that does not give a
/// value to each variable of the model counts as a failure of the solver.
pub fn resolve<V>(model: &CoverageModel, outcome: SolverOutcome<V>) -> (result: Result<
    Solution<V>,
    CoverError,
>)
    ensures
        match outcome {
            SolverOutcome::Optimal { assignment, objective } => if assignment@.len()
                == model.variables@.len() {
                &&& result is Ok
                &&& result->Ok_0.objective == objective
                &&& result->Ok_0.sol@ == model.selection(assignment@)
            } else {
                result == Err::<Solution<V>, CoverError>(CoverError::SolverFailure)
            },
            SolverOutcome::Infeasible => result == Err::<Solution<V>, CoverError>(
                CoverError::InfeasibleModel,
            ),
            SolverOutcome::Failed => result == Err::<Solution<V>, CoverError>(
                CoverError::SolverFailure,
            ),
        },
{
    match outcome {
        SolverOutcome::Optimal { assignment, objective } => {
            if assignment.len() == model.variables.len() {
                Ok(extract(model, &assignment, objective))
            } else {
                Err(CoverError::SolverFailure)
            }
        },
        SolverOutcome::Infeasible => Err(CoverError::InfeasibleModel),
        SolverOutcome::Failed => Err(CoverError::SolverFailure),
    }
}

} // verus!
