//! Two small interpreters for abstract machines from computability theory:
//! a jump-addressed register machine and a structured WHILE language over
//! named natural-number variables. Each interpreter carries a mathematical
//! semantics stated as spec functions, and the executable code is verified
//! against that semantics.

pub mod register_machine;
pub mod while_program;
