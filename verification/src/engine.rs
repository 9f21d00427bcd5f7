//! The hiding decisions of the metadata-interception engine: which
//! metadata queries are examined at all, which link targets qualify for
//! hiding, and how the substituted metadata record is assembled.

use vstd::prelude::*;

use crate::paths::is_prefix_of;
use crate::paths::starts_with;

verus! {

/// Bit mask selecting the file-type bits of a mode word.
pub const MODE_TYPE_MASK: u16 = 0o170000;

/// File-type bits of a symbolic link.
pub const MODE_SYMLINK: u16 = 0o120000;

/// The exact flag combination of a metadata query that reports symbolic
/// links without following them.  Only such queries can observe a link,
/// so only they are examined.
pub const NOFOLLOW_QUERY_FLAGS: i32 = 256;

/// The shortest length a monitored-store link target can have: the store
/// prefix, a fixed-width content hash, a separator and one name byte.
pub const MIN_TARGET_LEN: usize = 45;

/// The mode word describes a symbolic link.
pub open spec fn is_symlink_mode(mode: u16) -> bool {
    mode & MODE_TYPE_MASK == MODE_SYMLINK
}

/// Does the mode word describe a symbolic link?
pub fn is_symlink(mode: u16) -> (r: bool)
    ensures
        r == is_symlink_mode(mode),
{
    mode & MODE_TYPE_MASK == MODE_SYMLINK
}

/// A metadata query's result is examined further only when the query used
/// the exact no-follow flag combination and the returned mode describes a
/// symbolic link.
pub open spec fn hide_applies(flags: i32, mode: u16) -> bool {
    flags == NOFOLLOW_QUERY_FLAGS && is_symlink_mode(mode)
}

/// Must this metadata result be examined for hiding?  When not, the real
/// result is returned to the caller untouched.
pub fn should_examine(flags: i32, mode: u16) -> (r: bool)
    ensures
        r == hide_applies(flags, mode),
{
    flags == NOFOLLOW_QUERY_FLAGS && is_symlink(mode)
}

/// The monitored store prefix, `/nix/store/`, as bytes.
pub open spec fn store_prefix() -> Seq<u8> {
    seq![47u8, 110u8, 105u8, 120u8, 47u8, 115u8, 116u8, 111u8, 114u8, 101u8, 47u8]
}

/// The monitored store prefix as an owned byte path.
pub fn store_prefix_path() -> (p: Vec<u8>)
    ensures
        p@ == store_prefix(),
{
    let mut p: Vec<u8> = Vec::new();
    p.push(47);  // /
    p.push(110);  // n
    p.push(105);  // i
    p.push(120);  // x
    p.push(47);  // /
    p.push(115);  // s
    p.push(116);  // t
    p.push(111);  // o
    p.push(114);  // r
    p.push(101);  // e
    p.push(47);  // /
    proof {
        assert(p@ =~= store_prefix());
    }
    p
}

/// A read link target qualifies for hiding when it was read whole (a read
/// that filled its buffer may have been cut off and never qualifies), is
/// at least as long as any monitored-store target can be, and begins with
/// the monitored store prefix.
pub open spec fn target_qualifies_spec(target: Seq<u8>, truncated: bool) -> bool {
    &&& !truncated
    &&& target.len() >= MIN_TARGET_LEN
    &&& is_prefix_of(store_prefix(), target)
}

/// Does this link target qualify for hiding?
pub fn target_qualifies(target: &Vec<u8>, truncated: bool) -> (r: bool)
    ensures
        r == target_qualifies_spec(target@, truncated),
{
    if truncated {
        return false;
    }
    if target.len() < MIN_TARGET_LEN {
        return false;
    }
    let prefix = store_prefix_path();
    starts_with(target, &prefix)
}

/// The metadata record handed to the caller in place of a hidden link's
/// own.  Only the fields the engine reads or rewrites are modelled; the
/// surrounding layer copies them into the foreign buffer.
#[derive(Clone, Copy, PartialEq, Eq, Structural, Debug)]
pub struct FileMeta {
    /// File type and permission bits.
    pub mode: u16,
    /// Inode number.
    pub ino: u64,
    /// Size in bytes.
    pub size: u64,
    /// Number of hard links.
    pub nlink: u32,
    /// Last modification time, seconds part.
    pub mtime_sec: i64,
}

/// The substituted record: every field of the resolved target's record,
/// except the inode number, which stays the original link's so that
/// identity-by-inode comparisons remain stable across repeated queries.
pub open spec fn hidden_meta(target: FileMeta, original_ino: u64) -> FileMeta {
    FileMeta { ino: original_ino, ..target }
}

/// Assemble the metadata record a hidden link reports: the resolved
/// target's record with the original link's inode number.
pub fn substitute_meta(target: &FileMeta, original_ino: u64) -> (r: FileMeta)
    ensures
        r == hidden_meta(*target, original_ino),
{
    FileMeta {
        mode: target.mode,
        ino: original_ino,
        size: target.size,
        nlink: target.nlink,
        mtime_sec: target.mtime_sec,
    }
}

/// A metadata record that does not describe a symbolic link is never
/// examined further: the engine returns the real result untouched.
pub proof fn lemma_nonsymlink_passthrough(flags: i32, mode: u16)
    requires
        !is_symlink_mode(mode),
    ensures
        !hide_applies(flags, mode),
{
}

/// A query that did not use the exact no-follow flag combination is never
/// examined further, whatever the mode says.
pub proof fn lemma_other_flags_passthrough(flags: i32, mode: u16)
    requires
        flags != NOFOLLOW_QUERY_FLAGS,
    ensures
        !hide_applies(flags, mode),
{
}

/// A link whose target does not begin with the monitored store prefix
/// never qualifies for hiding, whatever its length: the engine returns
/// the real result untouched.
pub proof fn lemma_foreign_target_passthrough(target: Seq<u8>, truncated: bool)
    requires
        !is_prefix_of(store_prefix(), target),
    ensures
        !target_qualifies_spec(target, truncated),
{
}

/// The substituted record carries the resolved target's fields, keeps the
/// original link's inode, and — the target being no link itself — no
/// longer has the symbolic-link type bits.
pub proof fn lemma_hidden_meta(target: FileMeta, original_ino: u64)
    ensures
        hidden_meta(target, original_ino).ino == original_ino,
        hidden_meta(target, original_ino).mode == target.mode,
        hidden_meta(target, original_ino).size == target.size,
        hidden_meta(target, original_ino).nlink == target.nlink,
        hidden_meta(target, original_ino).mtime_sec == target.mtime_sec,
        !is_symlink_mode(target.mode) ==> !is_symlink_mode(hidden_meta(target, original_ino).mode),
{
}

} // verus!
