//! What every controller is handed: the resource limits of one container.

use oci_spec::runtime::LinuxResources;
use vstd::prelude::*;

verus! {

/// `oci_spec::runtime::LinuxResources`: the resource limits as the runtime
/// configuration declares them. Nothing is known of a value of this type but
/// what its getters are stated to return.
#[verifier::external_type_specification]
#[verifier::external_body]
pub struct ExLinuxResources(LinuxResources);

/// The state that the processes of a container are to be put in.
#[derive(Debug, Clone, Copy, PartialEq, Eq)]
pub enum FreezerState {
    /// Leave the processes as they are.
    Undefined,
    /// Suspend the processes.
    Frozen,
    /// Resume the processes.
    Thawed,
}

/// The options of one container. Each controller reads the part that
/// concerns it and ignores the rest.
pub struct ControllerOpt<'a> {
    /// The declared resource limits.
    pub resources: &'a LinuxResources,
    /// Whether the kernel must not kill processes of the container when
    /// memory runs out.
    pub disable_oom_killer: bool,
    /// The adjustment of the score by which the kernel picks a process to
    /// kill when memory runs out.
    pub oom_score_adj: Option<i32>,
    /// The state to put the processes in.
    pub freezer_state: Option<FreezerState>,
}

} // verus!
