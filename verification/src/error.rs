//! The errors of the debug stack, layer by layer.

use crate::dp::DebugPortVersion;
use crate::swo::CmsisDapError;
use vstd::prelude::*;

verus! {

/// A failure that the debug access port protocol itself reports.
#[derive(Debug, Clone, Copy, PartialEq, Eq, Structural)]
pub enum DapError {
    /// An error occured in the SWD communication between probe and device.
    SwdProtocol,
    /// Target device did not respond to request.
    NoAcknowledge,
    /// Target device responded with FAULT response to request.
    FaultResponse,
    /// Target device responded with WAIT response to request.
    WaitResponse,
    /// Target power-up failed.
    TargetPowerUpFailed,
    /// Incorrect parity on READ request.
    IncorrectParity,
}

impl DapError {
    /// A sentence that describes the failure.
    pub fn description(&self) -> (text: &'static str)
        ensures
            text == match *self {
                DapError::SwdProtocol => "An error occured in the SWD communication between DAPlink and device.",
                DapError::NoAcknowledge => "Target device did not respond to request.",
                DapError::FaultResponse => "Target device responded with FAULT response to request.",
                DapError::WaitResponse => "Target device responded with WAIT response to request.",
                DapError::TargetPowerUpFailed => "Target power-up failed.",
                DapError::IncorrectParity => "Incorrect parity on READ request.",
            },
    {
        match self {
            DapError::SwdProtocol => "An error occured in the SWD communication between DAPlink and device.",
            DapError::NoAcknowledge => "Target device did not respond to request.",
            DapError::FaultResponse => "Target device responded with FAULT response to request.",
            DapError::WaitResponse => "Target device responded with WAIT response to request.",
            DapError::TargetPowerUpFailed => "Target power-up failed.",
            DapError::IncorrectParity => "Incorrect parity on READ request.",
        }
    }

    /// Whether the target answered with FAULT or WAIT, the two answers that
    /// leave sticky flags behind in the debug port.
    pub open spec fn is_sticky(self) -> bool {
        self == DapError::FaultResponse || self == DapError::WaitResponse
    }
}

/// A failure below the memory layer: of the probe, of the wire protocol, or
/// of the debug port.
#[derive(Debug, Clone, Copy, PartialEq, Eq)]
pub enum DebugProbeError {
    /// No probe was found.
    ProbeNotFound,
    /// The exchange with the probe over USB failed.
    Usb,
    /// The probe answered with something that is no valid response.
    CmsisDap(CmsisDapError),
    /// The probe gave up waiting.
    Timeout,
    /// The failure has no closer description.
    Unknown,
    /// The debug access port protocol reported a failure.
    ArchitectureSpecific(DapError),
    /// The register needs a newer debug port than the target has.
    UnsupportedRegister { register: &'static str, version: DebugPortVersion },
}

impl DebugProbeError {
    /// Whether the failure is a FAULT or WAIT answer of the target.
    pub open spec fn is_sticky(self) -> bool {
        self matches DebugProbeError::ArchitectureSpecific(e) && e.is_sticky()
    }
}

impl From<DapError> for DebugProbeError {
    fn from(error: DapError) -> (converted: Self) {
        DebugProbeError::ArchitectureSpecific(error)
    }
}

impl vstd::std_specs::convert::FromSpecImpl<DapError> for DebugProbeError {
    open spec fn obeys_from_spec() -> bool {
        true
    }

    open spec fn from_spec(error: DapError) -> Self {
        DebugProbeError::ArchitectureSpecific(error)
    }
}

/// What the core control layer was waiting for when it gave up.
#[derive(Debug, Clone, Copy, PartialEq, Eq, Structural)]
pub enum Operation {
    /// Waiting for the core to halt on request.
    Halt,
    /// Waiting for the core to halt again after one instruction.
    Step,
    /// Waiting for the core to halt on the reset vector.
    ResetAndHalt,
    /// Waiting for a core register transfer to complete.
    CoreRegisterTransfer,
}

impl Operation {
    /// What the library was doing, as it is said in a report of the
    /// failure.
    pub fn context(&self) -> (text: &'static str)
        ensures
            text == match *self {
                Operation::Halt => "while trying to halt",
                Operation::Step => "while trying to step",
                Operation::ResetAndHalt => "while trying to reset and halt",
                Operation::CoreRegisterTransfer => "while waiting for core register transfer",
            },
    {
        match self {
            Operation::Halt => "while trying to halt",
            Operation::Step => "while trying to step",
            Operation::ResetAndHalt => "while trying to reset and halt",
            Operation::CoreRegisterTransfer => "while waiting for core register transfer",
        }
    }
}

/// A failure at or above the memory layer.
#[derive(Debug, Clone, Copy, PartialEq, Eq)]
pub enum Error {
    /// A failure of a lower layer, passed on unchanged.
    Probe(DebugProbeError),
    /// The address is not a multiple of the transfer width.
    UnalignedAddress { address: u32, alignment: u32 },
    /// The transfer would run past the end of the address space.
    OutOfBounds,
    /// The width is none of 8, 16 and 32 bits.
    UnsupportedTransferWidth { width: u32 },
    /// A status bit did not come up within the allowed number of polls.
    Timeout { operation: Operation },
    /// The core is not in the state that the operation needs.
    UnexpectedCoreState,
    /// The breakpoint unit is of a revision that is not known.
    UnsupportedFpb { revision: u32 },
    /// The breakpoint unit cannot hold a breakpoint at the address.
    UnsupportedBreakpointAddress { address: u32 },
}

impl From<DebugProbeError> for Error {
    fn from(error: DebugProbeError) -> (converted: Self) {
        Error::Probe(error)
    }
}

impl vstd::std_specs::convert::FromSpecImpl<DebugProbeError> for Error {
    open spec fn obeys_from_spec() -> bool {
        true
    }

    open spec fn from_spec(error: DebugProbeError) -> Self {
        Error::Probe(error)
    }
}

} // verus!
