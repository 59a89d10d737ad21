pub mod arith;
pub mod ast;
pub mod bignum;
pub mod executor;
pub mod lookup;
pub mod name_map;
pub mod pretty;
pub mod random;
pub mod solver;
pub mod symbolic_execution;
pub mod symbolic_library;
pub mod symbolic_value;
pub mod tables;
