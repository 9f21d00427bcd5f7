use hide_symlinks::state::SubstState;

fn store_path(name: &str) -> Vec<u8> {
    let mut t = b"/nix/store/".to_vec();
    t.extend_from_slice(&[b'0'; 32]);
    t.push(b'-');
    t.extend_from_slice(name.as_bytes());
    t
}

#[test]
fn fresh_state_is_empty() {
    let s = SubstState::new(b"/proj".to_vec());
    assert_eq!(s.table.len(), 0);
    assert!(!s.init_done);
    assert_eq!(s.cwd, b"/proj".to_vec());
}

#[test]
fn note_init_reports_first_discovery_once() {
    let mut s = SubstState::new(b"/proj".to_vec());
    assert!(s.note_init());
    assert!(!s.note_init());
    assert!(!s.note_init());
    assert!(s.init_done);
}

#[test]
fn open_of_recorded_link_is_redirected_to_its_target() {
    let mut s = SubstState::new(b"/proj".to_vec());
    let link = b"/proj/node_modules/dep".to_vec();
    let resolved = store_path("dep");
    s.record(link.clone(), resolved.clone());
    assert_eq!(s.open_target(&link), Some(resolved));
}

#[test]
fn open_beneath_recorded_link_is_redirected_beneath_its_target() {
    let mut s = SubstState::new(b"/proj".to_vec());
    let link = b"/proj/node_modules/dep".to_vec();
    let resolved = store_path("dep");
    s.record(link.clone(), resolved.clone());

    let mut query = link.clone();
    query.extend_from_slice(b"/lib/index.js");
    let mut expected = resolved.clone();
    expected.extend_from_slice(b"/lib/index.js");
    assert_eq!(s.open_target(&query), Some(expected));
}

#[test]
fn longest_recorded_prefix_wins() {
    let mut s = SubstState::new(b"/proj".to_vec());
    s.record(b"/a".to_vec(), b"/x".to_vec());
    s.record(b"/a/b".to_vec(), b"/y".to_vec());
    // The longer key /a/b is selected, giving /y/c, not /x/b/c.
    assert_eq!(s.open_target(&b"/a/b/c".to_vec()), Some(b"/y/c".to_vec()));
    // Order of recording does not matter.
    let mut s2 = SubstState::new(b"/proj".to_vec());
    s2.record(b"/a/b".to_vec(), b"/y".to_vec());
    s2.record(b"/a".to_vec(), b"/x".to_vec());
    assert_eq!(s2.open_target(&b"/a/b/c".to_vec()), Some(b"/y/c".to_vec()));
    // A path beneath /a but not beneath /a/b still uses /a.
    assert_eq!(s.open_target(&b"/a/c".to_vec()), Some(b"/x/c".to_vec()));
}

#[test]
fn unmatched_open_passes_through() {
    let mut s = SubstState::new(b"/proj".to_vec());
    s.record(b"/proj/node_modules/dep".to_vec(), store_path("dep"));
    assert_eq!(s.open_target(&b"/etc/hosts".to_vec()), None);
    assert_eq!(s.open_target(&b"/proj/node_modules/de".to_vec()), None);
}

#[test]
fn empty_table_matches_nothing() {
    let s = SubstState::new(b"/proj".to_vec());
    assert_eq!(s.open_target(&b"/anything".to_vec()), None);
}

#[test]
fn relative_open_resolves_against_tracked_directory() {
    let mut s = SubstState::new(b"/proj".to_vec());
    s.record(b"/proj/sub/pkg".to_vec(), b"/y".to_vec());
    // A successful relative directory change from /proj to sub tracks /proj/sub.
    s.apply_chdir(&b"sub".to_vec(), 0);
    assert_eq!(s.cwd, b"/proj/sub".to_vec());
    // A later relative open of pkg/file is resolved against /proj/sub.
    assert_eq!(s.open_target(&b"pkg/file".to_vec()), Some(b"/y/file".to_vec()));
}

#[test]
fn relative_open_without_absolute_directory_passes_through() {
    let mut s = SubstState::new(b"".to_vec());
    s.record(b"/a".to_vec(), b"/x".to_vec());
    // The request cannot be made absolute: treated as no match.
    assert_eq!(s.open_target(&b"a/file".to_vec()), None);
    // An absolute request still matches.
    assert_eq!(s.open_target(&b"/a/file".to_vec()), Some(b"/x/file".to_vec()));
}

#[test]
fn absolute_chdir_replaces_tracked_directory() {
    let mut s = SubstState::new(b"/proj".to_vec());
    s.apply_chdir(&b"/tmp/work".to_vec(), 0);
    assert_eq!(s.cwd, b"/tmp/work".to_vec());
}

#[test]
fn failed_chdir_leaves_tracked_directory() {
    let mut s = SubstState::new(b"/proj".to_vec());
    s.apply_chdir(&b"missing".to_vec(), -1);
    assert_eq!(s.cwd, b"/proj".to_vec());
    s.apply_chdir(&b"/tmp".to_vec(), 13);
    assert_eq!(s.cwd, b"/proj".to_vec());
}

#[test]
fn repeated_recording_reuses_the_single_entry() {
    let mut s = SubstState::new(b"/proj".to_vec());
    let link = b"/proj/node_modules/dep".to_vec();
    let resolved = store_path("dep");
    for _ in 0..5 {
        s.record(link.clone(), resolved.clone());
    }
    // Exactly one entry for the link, and the same hidden result each time.
    assert_eq!(s.table.len(), 1);
    assert_eq!(s.open_target(&link), Some(resolved));
}

#[test]
fn rerecording_a_key_overwrites_its_binding() {
    let mut s = SubstState::new(b"/proj".to_vec());
    s.record(b"/a".to_vec(), b"/x".to_vec());
    s.record(b"/a".to_vec(), b"/z".to_vec());
    assert_eq!(s.table.len(), 1);
    assert_eq!(s.open_target(&b"/a/c".to_vec()), Some(b"/z/c".to_vec()));
}

#[test]
fn recording_distinct_links_keeps_them_apart() {
    let mut s = SubstState::new(b"/proj".to_vec());
    let dep_a = b"/proj/node_modules/aa".to_vec();
    let dep_b = b"/proj/node_modules/bb".to_vec();
    s.record(dep_a.clone(), store_path("aa"));
    s.record(dep_b.clone(), store_path("bb"));
    assert_eq!(s.table.len(), 2);
    assert_eq!(s.open_target(&dep_a), Some(store_path("aa")));
    assert_eq!(s.open_target(&dep_b), Some(store_path("bb")));
}
