use hide_symlinks::engine::is_symlink;
use hide_symlinks::engine::should_examine;
use hide_symlinks::engine::store_prefix_path;
use hide_symlinks::engine::substitute_meta;
use hide_symlinks::engine::target_qualifies;
use hide_symlinks::engine::FileMeta;
use hide_symlinks::engine::MIN_TARGET_LEN;
use hide_symlinks::engine::NOFOLLOW_QUERY_FLAGS;

/// A store target of exactly the minimum qualifying length:
/// the prefix, a 32-byte hash, `-` and one name byte.
fn min_store_target() -> Vec<u8> {
    let mut t = b"/nix/store/".to_vec();
    t.extend_from_slice(&[b'0'; 32]);
    t.extend_from_slice(b"-x");
    assert_eq!(t.len(), MIN_TARGET_LEN);
    t
}

#[test]
fn symlink_mode_bits_are_detected() {
    // 0o120777: symbolic link with typical permission bits.
    assert!(is_symlink(0o120777));
    assert!(is_symlink(0o120000));
    // Regular file and directory modes are not links.
    assert!(!is_symlink(0o100644));
    assert!(!is_symlink(0o040755));
    assert!(!is_symlink(0));
}

#[test]
fn only_nofollow_queries_on_links_are_examined() {
    assert!(should_examine(NOFOLLOW_QUERY_FLAGS, 0o120777));
    // Same link mode, but a following query: passthrough.
    assert!(!should_examine(0, 0o120777));
    assert!(!should_examine(0x1000, 0o120777));
    // No-follow query on a regular file: passthrough.
    assert!(!should_examine(NOFOLLOW_QUERY_FLAGS, 0o100644));
}

#[test]
fn store_prefix_is_nix_store() {
    assert_eq!(store_prefix_path(), b"/nix/store/".to_vec());
}

#[test]
fn minimum_length_store_target_qualifies() {
    assert!(target_qualifies(&min_store_target(), false));
}

#[test]
fn longer_store_target_qualifies() {
    let mut t = min_store_target();
    t.extend_from_slice(b"yz-1.2.3/lib");
    assert!(target_qualifies(&t, false));
}

#[test]
fn short_target_does_not_qualify() {
    // One byte below the minimum length, even though it is a store path.
    let mut t = min_store_target();
    t.pop();
    assert_eq!(t.len(), MIN_TARGET_LEN - 1);
    assert!(!target_qualifies(&t, false));
    assert!(!target_qualifies(&b"/nix/store/".to_vec(), false));
}

#[test]
fn foreign_target_does_not_qualify() {
    let mut t = b"/home/user/project/node_modules/some-package-dir".to_vec();
    assert!(t.len() >= MIN_TARGET_LEN);
    assert!(!target_qualifies(&t, false));
    t.clear();
    assert!(!target_qualifies(&t, false));
}

#[test]
fn truncated_read_does_not_qualify() {
    assert!(!target_qualifies(&min_store_target(), true));
}

#[test]
fn substituted_record_keeps_original_inode_only() {
    let target = FileMeta { mode: 0o100644, ino: 777, size: 4096, nlink: 2, mtime_sec: 1700000000 };
    let hidden = substitute_meta(&target, 42);
    assert_eq!(hidden.ino, 42);
    assert_eq!(hidden.mode, 0o100644);
    assert_eq!(hidden.size, 4096);
    assert_eq!(hidden.nlink, 2);
    assert_eq!(hidden.mtime_sec, 1700000000);
    assert!(!is_symlink(hidden.mode));
}
