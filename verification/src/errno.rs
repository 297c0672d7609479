//! Kernel-style error codes.
//!
//! Errors in this core are typed codes, never panics: `EAGAIN` is the
//! non-fatal retry signal of the futex protocol, `EOWNERDEAD` is
//! informational (the wait succeeded but the previous lock holder died).

use vstd::prelude::*;

verus! {

/// A Linux-ABI error code, restricted to the codes this core can produce.
#[derive(Clone, Copy, Debug, PartialEq, Eq, Structural)]
pub enum LinuxError {
    /// Invalid argument: bad flag combination, bad size, bad time fields,
    /// or signed-offset overflow while computing a robust-list address.
    EINVAL,
    /// Futex value mismatch; userspace is expected to retry.
    EAGAIN,
    /// A bounded futex wait elapsed before any wake arrived.
    ETIMEDOUT,
    /// The wait succeeded but the previous owner of the futex died while
    /// holding it; the caller must still treat the lock as acquired.
    EOWNERDEAD,
    /// Unrecognized futex command.
    ENOSYS,
    /// The loaded file could not be parsed as an executable image.
    ENOEXEC,
    /// The robust list exceeded the traversal bound.
    ELOOP,
    /// A user pointer did not resolve to accessible user memory.
    EFAULT,
    /// A path did not resolve to a file.
    ENOENT,
    /// No thread with the requested id exists.
    ESRCH,
    /// A requested mapping overlaps an existing one.
    EEXIST,
    /// A requested mapping does not fit the user address range.
    ENOMEM,
}

/// The result shape of every fallible operation in this core.
pub type LinuxResult<T> = Result<T, LinuxError>;

} // verus!
