//! Errors of system-level operations, and the text each is reported with.

use vstd::prelude::*;
use vstd::string::StringExecFns;

verus! {

/// What can go wrong in a system-level operation.
#[derive(Debug, Clone)]
pub enum KernelError {
    /// Memory allocation failure.
    AllocationError { context: String },
    /// System call or OS interaction failure.
    SyscallError { context: String },
    /// Hardware feature not available.
    HardwareUnsupported { feature: String },
    /// Performance optimization not applicable.
    OptimizationError { reason: String },
    /// Cross-language interoperability error.
    InteropError { details: String },
}

/// The result of a system-level operation.
pub type KResult<T> = Result<T, KernelError>;

impl KernelError {
    /// The text of the error: a fixed phrase for its kind, then its detail.
    pub open spec fn message(self) -> Seq<char> {
        match self {
            KernelError::AllocationError { context } => "memory allocation failed: "@ + context@,
            KernelError::SyscallError { context } => "system call failed: "@ + context@,
            KernelError::HardwareUnsupported { feature } => "hardware feature not supported: "@
                + feature@,
            KernelError::OptimizationError { reason } => "performance optimization not applicable: "@
                + reason@,
            KernelError::InteropError { details } => "cross-language call failed: "@ + details@,
        }
    }

    /// The text of the error.
    pub fn to_string(&self) -> (text: String)
        ensures
            text@ == self.message(),
    {
        match self {
            KernelError::AllocationError { context } => String::from_str(
                "memory allocation failed: ",
            ).concat(context.as_str()),
            KernelError::SyscallError { context } => String::from_str(
                "system call failed: ",
            ).concat(context.as_str()),
            KernelError::HardwareUnsupported { feature } => String::from_str(
                "hardware feature not supported: ",
            ).concat(feature.as_str()),
            KernelError::OptimizationError { reason } => String::from_str(
                "performance optimization not applicable: ",
            ).concat(reason.as_str()),
            KernelError::InteropError { details } => String::from_str(
                "cross-language call failed: ",
            ).concat(details.as_str()),
        }
    }
}

} // verus!
