//! The status vocabulary of the firmware call surface.

use vstd::prelude::*;

verus! {

/// The outcome of a firmware service call.
#[allow(non_camel_case_types)]
#[allow(dead_code)]
#[derive(Clone, Copy, PartialEq, Eq, Structural, Debug)]
pub enum Status {
    EFI_SUCCESS,
    EFI_LOAD_ERROR,
    EFI_INVALID_PARAMETER,
    EFI_UNSUPPORTED,
    EFI_BAD_BUFFER_SIZE,
    EFI_BUFFER_TOO_SMALL,
    EFI_NOT_READY,
    EFI_DEVICE_ERROR,
    EFI_WRITE_PROTECTED,
    EFI_OUT_OF_RESOURCES,
    EFI_NOT_FOUND,
    EFI_TIMEOUT,
    EFI_ABORTED,
    EFI_SECURITY_VIOLATION,
}

/// The number of an error status without the bit that marks it as an error;
/// 0 for success.
pub open spec fn status_number(s: Status) -> int {
    match s {
        Status::EFI_SUCCESS => 0,
        Status::EFI_LOAD_ERROR => 1,
        Status::EFI_INVALID_PARAMETER => 2,
        Status::EFI_UNSUPPORTED => 3,
        Status::EFI_BAD_BUFFER_SIZE => 4,
        Status::EFI_BUFFER_TOO_SMALL => 5,
        Status::EFI_NOT_READY => 6,
        Status::EFI_DEVICE_ERROR => 7,
        Status::EFI_WRITE_PROTECTED => 8,
        Status::EFI_OUT_OF_RESOURCES => 9,
        Status::EFI_NOT_FOUND => 14,
        Status::EFI_TIMEOUT => 18,
        Status::EFI_ABORTED => 21,
        Status::EFI_SECURITY_VIOLATION => 26,
    }
}

/// The value of the highest bit of a machine word, which marks an error.
pub open spec fn error_base() -> int {
    usize::MAX - usize::MAX / 2
}

impl Status {
    /// Whether the status is an error.
    pub fn is_error(&self) -> (r: bool)
        ensures
            r == (*self != Status::EFI_SUCCESS),
    {
        match self {
            Status::EFI_SUCCESS => false,
            _ => true,
        }
    }

    /// The machine word that stands for the status at the call surface: 0
    /// for success, and the error number with the highest bit set for an
    /// error.
    pub fn code(&self) -> (c: usize)
        ensures
            c == (if *self == Status::EFI_SUCCESS {
                0
            } else {
                error_base() + status_number(*self)
            }),
    {
        let base: usize = usize::MAX - usize::MAX / 2;
        match self {
            Status::EFI_SUCCESS => 0,
            Status::EFI_LOAD_ERROR => base + 1,
            Status::EFI_INVALID_PARAMETER => base + 2,
            Status::EFI_UNSUPPORTED => base + 3,
            Status::EFI_BAD_BUFFER_SIZE => base + 4,
            Status::EFI_BUFFER_TOO_SMALL => base + 5,
            Status::EFI_NOT_READY => base + 6,
            Status::EFI_DEVICE_ERROR => base + 7,
            Status::EFI_WRITE_PROTECTED => base + 8,
            Status::EFI_OUT_OF_RESOURCES => base + 9,
            Status::EFI_NOT_FOUND => base + 14,
            Status::EFI_TIMEOUT => base + 18,
            Status::EFI_ABORTED => base + 21,
            Status::EFI_SECURITY_VIOLATION => base + 26,
        }
    }
}

} // verus!
