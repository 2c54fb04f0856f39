//! Maximum k-coverage: choose at most `k` of a family of candidate subsets so
//! that as many elements of a ground set as possible are covered.
//!
//! The crate generates duplicate-free random instances, translates an
//! instance into an exact integer linear program over binary variables, and
//! reads a solution back from the assignment a solver returns.  Solving the
//! program itself is left to the caller.
//!
//! * [`instance`] holds the problem instances and the rules they obey,
//!   [`generate`] makes random ones.
//! * [`model`] holds the linear program, says when an assignment satisfies
//!   it, and builds it from an instance; [`solution`] reads the selected
//!   subsets out of an assignment.
//! * [`laws`] proves that the program states the coverage problem.
//! * [`ordered`] lists the members of a set in ascending order and compares
//!   sets.

pub mod error;
pub mod generate;
pub mod instance;
pub mod laws;
pub mod model;
pub mod ordered;
mod random;
pub mod solution;
