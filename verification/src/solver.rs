pub mod brute_force;
pub mod genetic_algorithm;
pub mod mutation_test_crossover_fn;
pub mod mutation_test_trace_selection_fn;
pub mod utils;

pub use utils::{is_vulnerable, CounterExample, VerificationResult};
