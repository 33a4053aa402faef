//! Power control: which call of the power interface a reset request leads
//! to.

use vstd::prelude::*;

verus! {

/// The call that switches the machine off.
pub const PSCI_SYSTEM_OFF: u32 = 0x84000008;

/// The call that restarts the machine.
pub const PSCI_SYSTEM_RESET: u32 = 0x84000009;

/// The kinds of reset that a program can ask for.
#[allow(dead_code)]
#[derive(Clone, Copy, PartialEq, Eq, Structural, Debug)]
pub enum ResetType {
    EfiResetCold,
    EfiResetWarm,
    EfiResetShutdown,
    EfiResetPlatformSpecific,
}

/// The call for a reset request: switching off for a shutdown, and a
/// restart for every other kind.
pub fn reset_system(reset_type: ResetType) -> (call: u32)
    ensures
        call == (if reset_type == ResetType::EfiResetShutdown {
            0x84000008u32
        } else {
            0x84000009u32
        }),
{
    match reset_type {
        ResetType::EfiResetShutdown => PSCI_SYSTEM_OFF,
        _ => PSCI_SYSTEM_RESET,
    }
}

} // verus!
