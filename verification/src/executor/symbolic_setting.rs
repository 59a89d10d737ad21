//! Settings of the symbolic executor.
use crate::bignum::BigNum;
use vstd::prelude::*;

verus! {

/// How the symbolic executor treats initialization blocks, traces, constraints and
/// substitutions.
#[derive(Clone, Debug)]
pub struct SymbolicExecutorSetting {
    pub prime: BigNum,
    pub only_initialization_blocks: bool,
    pub skip_initialization_blocks: bool,
    pub off_trace: bool,
    pub keep_track_constraints: bool,
    pub substitute_output: bool,
    pub propagate_assignments: bool,
}

/// The setting for gathering trace and side constraints symbolically.
pub fn get_default_setting_for_symbolic_execution(prime: BigNum) -> (r: SymbolicExecutorSetting)
    ensures
        r.prime@ == prime@,
        !r.skip_initialization_blocks,
        !r.only_initialization_blocks,
        !r.off_trace,
        r.keep_track_constraints,
        !r.substitute_output,
        !r.propagate_assignments,
{
    SymbolicExecutorSetting {
        prime: prime,
        skip_initialization_blocks: false,
        only_initialization_blocks: false,
        off_trace: false,
        keep_track_constraints: true,
        substitute_output: false,
        propagate_assignments: false,
    }
}

/// The setting for running a template on concrete inputs.
pub fn get_default_setting_for_concrete_execution(prime: BigNum) -> (r: SymbolicExecutorSetting)
    ensures
        r.prime@ == prime@,
        r.skip_initialization_blocks,
        !r.only_initialization_blocks,
        r.off_trace,
        !r.keep_track_constraints,
        r.substitute_output,
        r.propagate_assignments,
{
    SymbolicExecutorSetting {
        prime: prime,
        skip_initialization_blocks: true,
        only_initialization_blocks: false,
        off_trace: true,
        keep_track_constraints: false,
        substitute_output: true,
        propagate_assignments: true,
    }
}

} // verus!
