//! A test-case generation and verification harness for competitive
//! programming tasks: given a reference solution and a declarative
//! description of subtasks — constraint tiers with point values and
//! dependencies — it plans a deterministic, validated suite of test files
//! and audits that declared partial solutions pass exactly the subtasks they
//! claim. Process and file handling live in the embedding program; every
//! decision made about their outcomes is verified here.
use vstd::prelude::*;

pub mod decimal;
pub mod error;
pub mod gen;
pub mod graph;
pub mod input;
pub mod runner;
pub mod subtask;
pub mod task;
pub mod text;

pub use error::Error;
pub use gen::{array_generator, array_to_string, GenRule, TestGenerator};
pub use graph::Graph;
pub use input::Input;
pub use subtask::{Checker, Subtask, Test};
pub use task::{CPSTests, PlannedTest, Task};

verus! {

} // verus!
