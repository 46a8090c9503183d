//! The array-operations engine of a stack-based array language runtime:
//! shape reconciliation by filling, size validation, row alignment,
//! branch dispatch and the enumeration of combinations and permutations.
//! Beside it stand the functions as the runtime sees them and what the
//! pages of the blog are made of.

pub mod shape;
pub mod size;
pub mod array;
pub mod context;
pub mod text;
pub mod fill;
pub mod num;
pub mod value;
pub mod permute;
pub mod enumerate;
pub mod function;
pub mod runtime;
pub mod dispatch;
pub mod rows;
pub mod tuples;
pub mod counting;
pub mod sifting;
pub mod members;
pub mod blog;
