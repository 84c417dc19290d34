//! Expands a matrix of environment-variable alternatives into every
//! combination of one value per variable, and plans one shell run per
//! combination.

pub mod assoc;
pub mod engine;
pub mod matrix;
pub mod parse;
pub mod product;

pub use engine::{env_overlay, plan, plan_matrix, plan_units, ExecutionUnit, PlanError};
pub use matrix::{get_combinations, EnvVar, InputMatrix};
pub use parse::{parse_matrix, ParseError};
