pub mod hir;
pub mod intern;
pub mod laws;
pub mod lower;
pub mod mir;
