use std::collections::{BTreeMap, BTreeSet};

use maxcover::error::CoverError;
use maxcover::instance::Instance;
use maxcover::model::{
    build, Constraint, CoverageModel, Purpose, Relation, Role, Term, Variable,
};
use maxcover::solution::extract;

fn set(members: &[usize]) -> BTreeSet<usize> {
    members.iter().cloned().collect()
}

fn instance(ground: &[usize], sets: &[&[usize]]) -> Instance {
    Instance { ground: set(ground), sets: sets.iter().map(|members| set(members)).collect() }
}

fn chain() -> Instance {
    instance(&[0, 1, 2, 3], &[&[0, 1], &[1, 2], &[2, 3]])
}

fn assignment_from_bits(bits: usize, len: usize) -> Vec<bool> {
    let mut assignment = Vec::new();
    for v in 0..len {
        assignment.push((bits >> v) & 1 == 1);
    }
    assignment
}

/// Tries every assignment and returns a best feasible one with its value.
fn exhaustive_optimum(model: &CoverageModel) -> Option<(Vec<bool>, i128)> {
    let len = model.variables.len();
    let mut best: Option<(Vec<bool>, i128)> = None;
    for bits in 0..(1usize << len) {
        let assignment = assignment_from_bits(bits, len);
        if model.is_feasible(&assignment) {
            let value = model.evaluate(&assignment);
            let better = match &best {
                Some((_, known)) => value > *known,
                None => true,
            };
            if better {
                best = Some((assignment, value));
            }
        }
    }
    best
}

fn unit(variable: usize) -> Term {
    Term { variable, weight: 1 }
}

#[test]
fn model_has_one_variable_per_element_and_subset() {
    let model = build(&chain(), 2).unwrap();
    assert_eq!(model.elements, 4);
    assert_eq!(model.variables.len(), 4 + 3);
    assert_eq!(model.constraints.len(), 4 + 1);
    assert_eq!(model.containment.len(), 4);
}

#[test]
fn model_size_for_an_instance_without_subsets() {
    let model = build(&instance(&[0, 1, 2], &[]), 5).unwrap();
    assert_eq!(model.variables.len(), 3);
    assert_eq!(model.constraints.len(), 4);
}

#[test]
fn model_of_the_empty_instance_has_the_budget_constraint_only() {
    let model = build(&instance(&[], &[]), 1).unwrap();
    assert_eq!(model.variables.len(), 0);
    assert_eq!(model.constraints.len(), 1);
    assert_eq!(model.constraints[0].purpose, Purpose::Cardinality);
    assert!(model.constraints[0].terms.is_empty());
}

#[test]
fn element_variables_count_in_the_objective() {
    let model = build(&instance(&[5, 7, 9], &[&[5, 9], &[7]]), 1).unwrap();
    assert_eq!(
        model.variables,
        vec![
            Variable { role: Role::Element(5), coefficient: 1 },
            Variable { role: Role::Element(7), coefficient: 1 },
            Variable { role: Role::Element(9), coefficient: 1 },
            Variable { role: Role::Subset(0), coefficient: 0 },
            Variable { role: Role::Subset(1), coefficient: 0 },
        ]
    );
}

#[test]
fn containment_lists_the_subsets_of_each_element() {
    let model = build(&chain(), 2).unwrap();
    let expected: BTreeMap<usize, Vec<usize>> =
        vec![(0, vec![0]), (1, vec![0, 1]), (2, vec![1, 2]), (3, vec![2])].into_iter().collect();
    assert_eq!(model.containment, expected);
}

#[test]
fn containment_is_keyed_by_the_element() {
    let model = build(&instance(&[5, 7, 9], &[&[5, 9], &[7], &[7, 9]]), 1).unwrap();
    let keys: Vec<usize> = model.containment.keys().cloned().collect();
    assert_eq!(keys, vec![5, 7, 9]);
    assert_eq!(model.containment[&5], vec![0]);
    assert_eq!(model.containment[&7], vec![1, 2]);
    assert_eq!(model.containment[&9], vec![0, 2]);
}

#[test]
fn cover_constraints_are_exact() {
    let model = build(&chain(), 2).unwrap();
    let expected: Vec<Vec<Term>> = vec![
        vec![unit(4), Term { variable: 0, weight: -1 }],
        vec![unit(4), unit(5), Term { variable: 1, weight: -1 }],
        vec![unit(5), unit(6), Term { variable: 2, weight: -1 }],
        vec![unit(6), Term { variable: 3, weight: -1 }],
    ];
    for p in 0..4 {
        let constraint = &model.constraints[p];
        assert_eq!(constraint.purpose, Purpose::Cover(p));
        assert_eq!(constraint.terms, expected[p]);
        assert_eq!(constraint.relation, Relation::AtLeast);
        assert_eq!(constraint.bound, 0);
    }
}

#[test]
fn cover_constraint_names_the_element_by_its_identifier() {
    let model = build(&instance(&[5, 7, 9], &[&[5, 9], &[7]]), 1).unwrap();
    assert_eq!(model.constraints[0].purpose, Purpose::Cover(5));
    assert_eq!(model.constraints[1].purpose, Purpose::Cover(7));
    assert_eq!(model.constraints[2].purpose, Purpose::Cover(9));
    assert_eq!(model.constraints[2].terms, vec![unit(3), Term { variable: 2, weight: -1 }]);
}

#[test]
fn cardinality_constraint_is_exact() {
    let model = build(&chain(), 2).unwrap();
    let budget = &model.constraints[4];
    assert_eq!(budget.purpose, Purpose::Cardinality);
    assert_eq!(budget.terms, vec![unit(4), unit(5), unit(6)]);
    assert_eq!(budget.relation, Relation::AtMost);
    assert_eq!(budget.bound, 2);
}

#[test]
fn element_in_no_subset_gets_a_constraint_of_its_own_variable_only() {
    let model = build(&instance(&[0, 1, 2], &[&[0], &[0, 1]]), 2).unwrap();
    assert_eq!(model.containment[&2], Vec::<usize>::new());
    assert_eq!(model.containment[&0], vec![0, 1]);
    assert_eq!(model.constraints[2].terms, vec![Term { variable: 2, weight: -1 }]);
    assert_eq!(model.constraints[2].relation, Relation::AtLeast);
    assert_eq!(model.constraints[2].bound, 0);
}

#[test]
fn malformed_instances_are_refused() {
    let cases = vec![
        instance(&[0, 1], &[&[]]),
        instance(&[0, 1], &[&[2]]),
        instance(&[0, 1], &[&[0, 1, 2]]),
        instance(&[0, 1], &[&[0], &[0]]),
        instance(&[0, 1], &[&[0, 1], &[1], &[1, 0]]),
    ];
    for instance in cases.iter() {
        assert_eq!(build(instance, 1).err(), Some(CoverError::MalformedInstance));
    }
}

#[test]
fn constraint_evaluation_follows_the_relation() {
    let at_least = Constraint {
        purpose: Purpose::Cover(0),
        terms: vec![unit(1), unit(2), Term { variable: 0, weight: -1 }],
        relation: Relation::AtLeast,
        bound: 0,
    };
    assert!(at_least.is_satisfied(&vec![false, false, false]));
    assert!(!at_least.is_satisfied(&vec![true, false, false]));
    assert!(at_least.is_satisfied(&vec![true, false, true]));
    assert!(at_least.is_satisfied(&vec![false, true, true]));
    let at_most = Constraint {
        purpose: Purpose::Cardinality,
        terms: vec![unit(0), unit(1), unit(2)],
        relation: Relation::AtMost,
        bound: 2,
    };
    assert!(at_most.is_satisfied(&vec![true, true, false]));
    assert!(!at_most.is_satisfied(&vec![true, true, true]));
}

#[test]
fn variable_beyond_the_assignment_counts_as_unset() {
    let constraint = Constraint {
        purpose: Purpose::Cardinality,
        terms: vec![unit(0), unit(9)],
        relation: Relation::AtLeast,
        bound: 1,
    };
    assert!(constraint.is_satisfied(&vec![true]));
    assert!(!constraint.is_satisfied(&vec![false]));
}

#[test]
fn weights_are_summed_exactly() {
    let constraint = Constraint {
        purpose: Purpose::Cardinality,
        terms: vec![
            Term { variable: 0, weight: 3 },
            Term { variable: 1, weight: -5 },
            Term { variable: 2, weight: 4 },
        ],
        relation: Relation::AtMost,
        bound: 2,
    };
    assert!(constraint.is_satisfied(&vec![true, true, true]));
    assert!(!constraint.is_satisfied(&vec![true, false, false]));
    assert!(!constraint.is_satisfied(&vec![true, false, true]));
    assert!(constraint.is_satisfied(&vec![false, true, true]));
}

#[test]
fn assignment_of_the_wrong_length_is_infeasible() {
    let model = build(&chain(), 2).unwrap();
    assert!(!model.is_feasible(&vec![false; 6]));
    assert!(!model.is_feasible(&vec![false; 8]));
    assert!(model.is_feasible(&vec![false; 7]));
}

#[test]
fn objective_counts_the_marked_elements() {
    let model = build(&chain(), 2).unwrap();
    assert_eq!(model.evaluate(&vec![false; 7]), 0);
    assert_eq!(model.evaluate(&vec![true, true, false, false, true, false, false]), 2);
    assert_eq!(model.evaluate(&vec![true, true, true, true, true, false, true]), 4);
    assert_eq!(model.evaluate(&vec![false, false, false, false, true, true, true]), 0);
}

#[test]
fn marked_elements_lie_in_selected_subsets() {
    let instance = chain();
    let ground: Vec<usize> = instance.ground.iter().cloned().collect();
    let model = build(&instance, 2).unwrap();
    let len = model.variables.len();
    for bits in 0..(1usize << len) {
        let assignment = assignment_from_bits(bits, len);
        if !model.is_feasible(&assignment) {
            continue;
        }
        let mut marked: i128 = 0;
        for p in 0..4 {
            if assignment[p] {
                marked += 1;
                let e = ground[p];
                let held = (0..3).any(|i| assignment[4 + i] && instance.sets[i].contains(&e));
                assert!(held);
            }
        }
        assert_eq!(model.evaluate(&assignment), marked);
    }
}

#[test]
fn feasible_assignments_respect_the_budget() {
    for k in 0..4 {
        let model = build(&chain(), k).unwrap();
        let len = model.variables.len();
        for bits in 0..(1usize << len) {
            let assignment = assignment_from_bits(bits, len);
            if model.is_feasible(&assignment) {
                let chosen = (0..3).filter(|i| assignment[4 + i]).count();
                assert!(chosen <= k);
                assert!(extract(&model, &assignment, ()).sol.len() <= k);
            }
        }
    }
}

#[test]
fn marking_without_selecting_is_infeasible() {
    let model = build(&chain(), 2).unwrap();
    assert!(!model.is_feasible(&vec![true, false, false, false, false, false, false]));
    assert!(!model.is_feasible(&vec![false, false, false, true, true, true, false]));
    assert!(!model.is_feasible(&vec![false, false, false, false, true, true, true]));
}

#[test]
fn optimum_grows_with_the_budget() {
    let instance = instance(&[0, 1, 2, 3, 4], &[&[0, 1], &[1, 2], &[2, 3], &[0, 3, 4]]);
    let mut values = Vec::new();
    for k in 0..6 {
        let model = build(&instance, k).unwrap();
        values.push(exhaustive_optimum(&model).unwrap().1);
    }
    assert_eq!(values, vec![0, 3, 5, 5, 5, 5]);
    for k in 1..values.len() {
        assert!(values[k - 1] <= values[k]);
    }
}

#[test]
fn two_subsets_of_the_chain_cover_everything() {
    let model = build(&chain(), 2).unwrap();
    let (assignment, value) = exhaustive_optimum(&model).unwrap();
    assert_eq!(value, 4);
    let solution = extract(&model, &assignment, value as f64);
    assert_eq!(solution.objective, 4.0);
    assert!(solution.sol.len() <= 2);
    assert_eq!(solution.sol, vec![0, 2]);
}

#[test]
fn budget_of_zero_selects_nothing() {
    let model = build(&instance(&[0, 1, 2], &[&[0], &[1], &[2]]), 0).unwrap();
    let (assignment, value) = exhaustive_optimum(&model).unwrap();
    assert_eq!(value, 0);
    let solution = extract(&model, &assignment, value as f64);
    assert_eq!(solution.objective, 0.0);
    assert_eq!(solution.sol, Vec::<usize>::new());
}

#[test]
fn budget_beyond_the_number_of_subsets_allows_all() {
    let model = build(&chain(), 10).unwrap();
    assert!(model.is_feasible(&vec![true; 7]));
    assert_eq!(exhaustive_optimum(&model).unwrap().1, 4);
}

#[test]
fn element_in_no_subset_is_never_covered() {
    let instance = instance(&[0, 1, 2], &[&[0], &[0, 1]]);
    for k in 0..4 {
        let model = build(&instance, k).unwrap();
        let len = model.variables.len();
        for bits in 0..(1usize << len) {
            let assignment = assignment_from_bits(bits, len);
            if model.is_feasible(&assignment) {
                assert!(!assignment[2]);
            }
        }
        assert!(exhaustive_optimum(&model).unwrap().1 <= 2);
    }
}

#[test]
fn selecting_nothing_is_always_feasible() {
    for k in 0..3 {
        let model = build(&chain(), k).unwrap();
        assert!(model.is_feasible(&vec![false; 7]));
    }
}
