//! Routing of the generic numbered-syscall entry point: which of the
//! intercepted operations a request number stands for.  The platform's
//! operation numbers are handed in by the caller; the routing decision
//! itself is verified.

use vstd::prelude::*;

verus! {

/// The platform's numbers for the intercepted operations.
#[derive(Clone, Copy, PartialEq, Eq, Structural, Debug)]
pub struct SyscallNums {
    /// Number of the extended-file-status operation.
    pub statx: i64,
    /// Number of the read-link-target operation.
    pub readlink: i64,
    /// Number of the read-link-target-relative operation.
    pub readlinkat: i64,
    /// Number of the open-file operation.
    pub open: i64,
    /// Number of the open-file-relative operation.
    pub openat: i64,
}

/// The operation a numbered request is routed to; `Other` is passed to
/// the real implementation untouched.
#[derive(Clone, Copy, PartialEq, Eq, Structural, Debug)]
pub enum SyscallOp {
    Statx,
    Readlink,
    Readlinkat,
    Open,
    Openat,
    Other,
}

/// Decide which engine a numbered request belongs to.  Requests that
/// match none of the intercepted operations are classified `Other` and
/// must be delegated unchanged.
pub fn classify_syscall(num: i64, nums: &SyscallNums) -> (op: SyscallOp)
    ensures
        op is Statx <==> num == nums.statx,
        op is Readlink <==> (num != nums.statx && num == nums.readlink),
        op is Readlinkat <==> (num != nums.statx && num != nums.readlink && num
            == nums.readlinkat),
        op is Open <==> (num != nums.statx && num != nums.readlink && num != nums.readlinkat
            && num == nums.open),
        op is Openat <==> (num != nums.statx && num != nums.readlink && num != nums.readlinkat
            && num != nums.open && num == nums.openat),
        op is Other <==> (num != nums.statx && num != nums.readlink && num != nums.readlinkat
            && num != nums.open && num != nums.openat),
{
    if num == nums.statx {
        SyscallOp::Statx
    } else if num == nums.readlink {
        SyscallOp::Readlink
    } else if num == nums.readlinkat {
        SyscallOp::Readlinkat
    } else if num == nums.open {
        SyscallOp::Open
    } else if num == nums.openat {
        SyscallOp::Openat
    } else {
        SyscallOp::Other
    }
}

} // verus!
