//! The target: the one process that requests act on, and the errors that a
//! request can end in.

use crate::model::OpenProcess;
use vstd::prelude::*;
use vstd::string::StringExecFns;

verus! {

/// Why a request was refused.
#[derive(Clone, Copy, Debug, PartialEq, Eq, Structural)]
pub enum ApiError {
    /// No process is attached.
    NotAttached,
    /// The filter names a scan id without a result set.
    UnknownScanId,
    /// The filter's pattern, or a stored value, is no hexadecimal text, or
    /// the pattern is no regular expression.
    InvalidPattern,
    /// The target's memory could not be written.
    WriteFailure,
    /// The bytes of a read could not be packed into a record.
    PackingFailure,
}

impl ApiError {
    /// The text that a client is sent for this error.
    pub open spec fn text(self) -> Seq<char> {
        match self {
            ApiError::NotAttached => "Pid not set"@,
            ApiError::UnknownScanId => "Scanid not found"@,
            ApiError::InvalidPattern => "Invalid hex pattern"@,
            ApiError::WriteFailure => "WriteProcessMemory error"@,
            ApiError::PackingFailure => "Compression failed"@,
        }
    }

    /// The text that a client is sent for this error.
    pub fn message(self) -> (text: String)
        ensures
            text@ == self.text(),
    {
        match self {
            ApiError::NotAttached => String::from_str("Pid not set"),
            ApiError::UnknownScanId => String::from_str("Scanid not found"),
            ApiError::InvalidPattern => String::from_str("Invalid hex pattern"),
            ApiError::WriteFailure => String::from_str("WriteProcessMemory error"),
            ApiError::PackingFailure => String::from_str("Compression failed"),
        }
    }
}

/// The process that memory operations act on, if one is attached.
#[derive(Clone, Copy, Debug, PartialEq, Eq, Structural)]
pub struct TargetContext {
    pub pid: Option<i32>,
}

impl TargetContext {
    /// A context with no process attached.
    pub fn new() -> (context: TargetContext)
        ensures
            context.pid is None,
    {
        TargetContext { pid: None }
    }

    /// Attaches to `pid`; every later operation acts on it.
    pub fn attach(&mut self, pid: i32)
        ensures
            final(self).pid == Some(pid),
    {
        self.pid = Some(pid);
    }

    /// The attached process, or the error that refuses the request.
    pub fn require(&self) -> (r: Result<i32, ApiError>)
        ensures
            r == (match self.pid {
                Some(pid) => Ok::<i32, ApiError>(pid),
                None => Err(ApiError::NotAttached),
            }),
    {
        match self.pid {
            Some(pid) => Ok(pid),
            None => Err(ApiError::NotAttached),
        }
    }
}

/// Attaches the context to the process that `request` names.
pub fn open_process_handler(context: &mut TargetContext, request: OpenProcess)
    ensures
        final(context).pid == Some(request.pid),
{
    context.attach(request.pid);
}

/// The answer to a single read: the bytes read, or no bytes where the read
/// failed. Without a target the request is refused.
pub fn read_memory_handler(context: &TargetContext, outcome: Option<Vec<u8>>) -> (r: Result<
    Vec<u8>,
    ApiError,
>)
    ensures
        context.pid is None ==> r == Err::<Vec<u8>, ApiError>(ApiError::NotAttached),
        context.pid is Some ==> r is Ok && r.unwrap()@ == (match outcome {
            Some(bytes) => bytes@,
            None => Seq::<u8>::empty(),
        }),
{
    if context.pid.is_none() {
        return Err(ApiError::NotAttached);
    }
    match outcome {
        Some(bytes) => Ok(bytes),
        None => Ok(Vec::new()),
    }
}

/// The answer to a write: done, or the error for a write that failed.
/// Without a target the request is refused.
pub fn write_memory_handler(context: &TargetContext, written: bool) -> (r: Result<(), ApiError>)
    ensures
        r == (if context.pid is None {
            Err::<(), ApiError>(ApiError::NotAttached)
        } else if written {
            Ok(())
        } else {
            Err(ApiError::WriteFailure)
        }),
{
    if context.pid.is_none() {
        Err(ApiError::NotAttached)
    } else if written {
        Ok(())
    } else {
        Err(ApiError::WriteFailure)
    }
}

} // verus!
