//! The snapshot/diff algebra and the content store, exercised on
//! concrete values.

use fync::ContentStore;
use fync::FileChange;
use fync::FileMetadata;
use fync::FilePath;
use fync::FsState;
use fync::Node;
use fync::SyncError;

fn fp(s: &str) -> FilePath {
    FilePath::new(s.as_bytes().to_vec())
}

#[test]
fn test_fs_state() {
    // Create a new ContentStore and add two content hashes
    let mut cs = ContentStore::default();
    let h1 = cs.add(b"hello world".to_vec());
    let h2 = cs.add(b"bye world".to_vec());

    // Create and populate the first file state
    let mut state1 = FsState::empty();
    state1.insert_file(fp("file1.txt"), h1);
    state1.insert_file(fp("file2.txt"), h2);

    // Create and populate the second file state
    let mut state2 = FsState::empty();
    state2.insert_file(fp("file1.txt"), h1);
    state2.insert_file(fp("file3.txt"), h2);

    // Calculate the difference between state1 and state2
    let diff = state1.diff(&state2);

    // Check if the diff contains the expected changes
    assert_eq!(diff.len(), 2);
    assert!(matches!(
        diff.get(&fp("file2.txt")),
        Some(FileChange::Removed { .. })
    ));
    assert!(matches!(
        diff.get(&fp("file3.txt")),
        Some(FileChange::Created { .. })
    ));

    // Apply the diff to state1
    let conflicts = state1.apply_diff(&diff);
    assert!(conflicts.is_empty());

    assert!(state1.same_as(&state2));
}

#[test]
fn test_node() {
    let mut cs = ContentStore::default();

    let h1 = cs.add(b"hello world".to_vec());
    let h2 = cs.add(b"bye world".to_vec());

    let mut state1 = FsState::empty();
    state1.insert_file(fp("file1.txt"), h1);
    state1.insert_file(fp("file2.txt"), h2);

    let mut state2 = FsState::empty();
    state2.insert_file(fp("file1.txt"), h1);
    state2.insert_file(fp("file3.txt"), h2);

    let mut node1 = Node::new(state1.clone(), state2.clone());
    let mut node2 = Node::new(state2.clone(), state1.clone());

    assert!(!node1.is_settle());
    assert!(!node2.is_settle());

    // Simulate changes on node1
    let diff1 = node1.changes_for_other();
    node2.apply_changes_from_other_mem(&diff1);

    assert!(!node2.has_conflicts());
    assert!(node2.is_settle());

    assert!(!node1.is_settle());
    // Simulate changes on node2
    node1.changes_acked_by_other(&diff1);

    assert!(!node1.has_conflicts());
    assert!(node1.this_state.same_as(&node2.other_state));
    // Check if both nodes have the same state
    assert!(node1.this_state.same_as(&node2.this_state));
    assert!(node1.other_state.same_as(&node2.other_state));
}

#[test]
fn test_concurrent_changes() {
    let mut cs = ContentStore::default();

    let h1 = cs.add(b"content1".to_vec());
    let h2 = cs.add(b"content2".to_vec());
    let h3 = cs.add(b"content3".to_vec());

    let mut state1 = FsState::empty();
    state1.insert_file(fp("file1.txt"), h1);
    state1.insert_file(fp("file2.txt"), h2);

    // file1 rm
    let mut state2 = state1.clone();
    state2.remove_file(&fp("file1.txt"));

    let mut state3 = state1.clone();
    // file3 create
    state3.insert_file(fp("file3.txt"), h3);

    let mut node1 = Node::new(state2, state1.clone());
    let mut node2 = Node::new(state3, state1);
    let diff_for_1 = node2.changes_for_other();
    let diff_for_2 = node1.changes_for_other();

    // Apply changes to both nodes
    node1.apply_changes_from_other_mem(&diff_for_1);
    node2.apply_changes_from_other_mem(&diff_for_2);

    // Check for conflicts
    assert!(!node1.has_conflicts());
    assert!(!node2.has_conflicts());

    // Verify that the nodes are not settled
    assert!(!node1.this_state.same_as(&node1.other_state));

    // Verify that the states are different
    assert!(node1.this_state.same_as(&node2.this_state));

    node1.changes_acked_by_other(&diff_for_2);
    node2.changes_acked_by_other(&diff_for_1);

    assert!(node1.is_settle());
    assert!(node2.is_settle());
}

#[test]
fn test_conflicting_changes() {
    let mut cs = ContentStore::default();

    let h1 = cs.add(b"content1".to_vec());
    let h2 = cs.add(b"content2".to_vec());
    let h3 = cs.add(b"content3".to_vec());

    let mut state1 = FsState::empty();
    state1.insert_file(fp("file1.txt"), h1);
    state1.insert_file(fp("file2.txt"), h2);

    // Node 1 modifies file1.txt
    let mut state2 = state1.clone();
    state2.insert_file(fp("file1.txt"), h3);

    // Node 2 also modifies file1.txt, but differently
    let mut state3 = state1.clone();
    state3.insert_file(fp("file1.txt"), h2);

    let mut node1 = Node::new(state2, state1.clone());
    let mut node2 = Node::new(state3, state1);

    let diff_for_1 = node2.changes_for_other();
    let diff_for_2 = node1.changes_for_other();

    // Apply changes to both nodes
    node1.apply_changes_from_other_mem(&diff_for_1);
    node2.apply_changes_from_other_mem(&diff_for_2);

    // Check for conflicts
    assert!(node1.has_conflicts());
    assert!(node2.has_conflicts());

    // Verify that the nodes are not settled
    assert!(!node1.is_settle());
    assert!(!node2.is_settle());

    // Verify that the conflicted file is "file1.txt"
    assert_eq!(node1.conflicts, vec![fp("file1.txt")]);
    assert_eq!(node2.conflicts, vec![fp("file1.txt")]);
}

#[test]
fn test_conflicting_concurrent_create() {
    let mut cs = ContentStore::default();

    let h1 = cs.add(b"content1".to_vec());
    let h2 = cs.add(b"content2".to_vec());

    let mut state1 = FsState::empty();
    state1.insert_file(fp("file1.txt"), h1);

    // Node 1 creates a new file
    let mut state2 = state1.clone();
    state2.insert_file(fp("file2.txt"), h2);

    // Node 2 modifies the same file
    let mut state3 = state1.clone();
    state3.insert_file(fp("file2.txt"), h1);

    let mut node1 = Node::new(state2, state1.clone());
    let mut node2 = Node::new(state3, state1);

    let diff_for_1 = node2.changes_for_other();
    let diff_for_2 = node1.changes_for_other();

    // Apply changes to both nodes
    node1.apply_changes_from_other_mem(&diff_for_1);
    node2.apply_changes_from_other_mem(&diff_for_2);

    // Check for conflicts
    assert!(node1.has_conflicts());
    assert!(node2.has_conflicts());

    // Verify that the conflicted file is "file2.txt"
    assert_eq!(node1.conflicts, vec![fp("file2.txt")]);
    assert_eq!(node2.conflicts, vec![fp("file2.txt")]);
}

#[test]
fn test_concurrent_create_same_file_same_content() {
    let mut cs = ContentStore::default();

    let h1 = cs.add(b"content1".to_vec());
    let h2 = cs.add(b"same_content".to_vec());

    let mut state1 = FsState::empty();
    state1.insert_file(fp("file1.txt"), h1);

    // Node 1 creates a new file
    let mut state2 = state1.clone();
    state2.insert_file(fp("file2.txt"), h2);

    // Node 2 creates the same file with the same content
    let mut state3 = state1.clone();
    state3.insert_file(fp("file2.txt"), h2);

    let mut node1 = Node::new(state2.clone(), state1.clone());
    let mut node2 = Node::new(state3.clone(), state1.clone());

    let diff_for_1 = node2.changes_for_other();
    let diff_for_2 = node1.changes_for_other();

    // Apply changes to both nodes
    node1.apply_changes_from_other_mem(&diff_for_1);
    node2.apply_changes_from_other_mem(&diff_for_2);

    // Check for conflicts (should be none)
    assert!(!node1.has_conflicts());
    assert!(!node2.has_conflicts());

    // Verify that the nodes are settled
    assert!(node1.is_settle());
    assert!(node2.is_settle());

    // Verify that both nodes have the same state
    assert!(node1.this_state.same_as(&node2.this_state));

    assert!(node1.this_state.same_as(&state3));
    assert!(node1.this_state.same_as(&state2));
}

#[test]
fn diff_of_a_snapshot_with_itself_is_empty() {
    let mut cs = ContentStore::default();
    let h1 = cs.add(b"alpha".to_vec());
    let h2 = cs.add(b"beta".to_vec());

    let mut s = FsState::empty();
    s.insert_file(fp("a.txt"), h1);
    s.insert_file(fp("b/c.txt"), h2);

    assert!(s.diff(&s).is_empty());
    assert!(FsState::empty().diff(&FsState::empty()).is_empty());
}

#[test]
fn applying_a_diff_to_its_base_gives_its_target() {
    let mut cs = ContentStore::default();
    let h1 = cs.add(b"alpha".to_vec());
    let h2 = cs.add(b"beta".to_vec());
    let h3 = cs.add(b"gamma".to_vec());

    let mut base = FsState::empty();
    base.insert_file(fp("keep.txt"), h1);
    base.insert_file(fp("gone.txt"), h2);
    base.insert_file(fp("edit.txt"), h1);

    let mut target = FsState::empty();
    target.insert_file(fp("keep.txt"), h1);
    target.insert_file(fp("edit.txt"), h3);
    target.insert_file(fp("new.txt"), h2);

    let d = base.diff(&target);
    assert_eq!(d.len(), 3);
    let conflicts = base.apply_diff(&d);
    assert!(conflicts.is_empty());
    assert!(base.same_as(&target));
}

#[test]
fn swapping_a_diff_reverses_its_direction() {
    let mut cs = ContentStore::default();
    let h1 = cs.add(b"alpha".to_vec());
    let h2 = cs.add(b"beta".to_vec());

    let mut s = FsState::empty();
    s.insert_file(fp("only_s.txt"), h1);
    s.insert_file(fp("both.txt"), h1);
    let mut t = FsState::empty();
    t.insert_file(fp("only_t.txt"), h2);
    t.insert_file(fp("both.txt"), h2);

    let st = s.diff(&t);
    let ts = t.diff(&s);
    assert_eq!(st.len(), ts.len());
    assert!(matches!(st.get(&fp("only_s.txt")), Some(FileChange::Removed { .. })));
    assert!(matches!(ts.get(&fp("only_s.txt")), Some(FileChange::Created { .. })));
    assert!(matches!(st.get(&fp("only_t.txt")), Some(FileChange::Created { .. })));
    assert!(matches!(ts.get(&fp("only_t.txt")), Some(FileChange::Removed { .. })));
    match (st.get(&fp("both.txt")), ts.get(&fp("both.txt"))) {
        (
            Some(FileChange::Modified { old_meta: o1, new_meta: n1 }),
            Some(FileChange::Modified { old_meta: o2, new_meta: n2 }),
        ) => {
            assert_eq!(o1, n2);
            assert_eq!(n1, o2);
        }
        _ => panic!("both.txt must be modified in both directions"),
    }
}

#[test]
fn applying_a_diff_twice_changes_nothing_more() {
    let mut cs = ContentStore::default();
    let h1 = cs.add(b"alpha".to_vec());
    let h2 = cs.add(b"beta".to_vec());

    let mut base = FsState::empty();
    base.insert_file(fp("gone.txt"), h1);
    base.insert_file(fp("edit.txt"), h1);

    let mut target = FsState::empty();
    target.insert_file(fp("edit.txt"), h2);
    target.insert_file(fp("new.txt"), h1);

    let d = base.diff(&target);
    let mut once = base.clone();
    let c1 = once.apply_diff(&d);
    assert!(c1.is_empty());
    let mut twice = once.clone();
    let c2 = twice.apply_diff(&d);
    assert!(c2.is_empty());
    assert!(twice.same_as(&once));
}

#[test]
fn store_journal_returns_first_insertions_since_last_drain() {
    let mut cs = ContentStore::default();
    let h1 = cs.add(b"one".to_vec());
    let h2 = cs.add(b"two".to_vec());
    // A repeated add of the same content journals nothing new.
    let h1b = cs.add(b"one".to_vec());
    assert_eq!(h1, h1b);
    assert_eq!(cs.drain_new_contents(), vec![h1, h2]);
    // The journal is now empty; the blobs stay.
    assert_eq!(cs.drain_new_contents(), vec![]);
    assert!(cs.has(&h1));
    assert!(cs.has(&h2));
    // Only ids first inserted after the drain are journaled.
    cs.insert(h1, b"one".to_vec());
    let h3 = cs.add(b"three".to_vec());
    assert_eq!(cs.drain_new_contents(), vec![h3]);
}

#[test]
fn store_serves_back_stored_bytes() {
    let mut cs = ContentStore::default();
    let h1 = cs.add(b"payload-a".to_vec());
    let h2 = cs.add(b"payload-b".to_vec());
    // Distinct contents digest to distinct ids; the digest is stable.
    assert_ne!(h1, h2);
    assert_eq!(cs.add(b"payload-a".to_vec()), h1);
    assert_eq!(cs.get(&h1).unwrap().as_slice(), b"payload-a");
    assert_eq!(cs.get(&h2).unwrap().as_slice(), b"payload-b");
}

#[test]
fn store_reports_missing_content() {
    let mut cs = ContentStore::default();
    let h1 = cs.add(b"present".to_vec());
    cs.remove(&h1);
    assert_eq!(cs.get(&h1), Err(SyncError::MissingContent));
    assert!(!cs.has(&h1));
}

#[test]
fn conflict_predicate_follows_the_table() {
    let mut cs = ContentStore::default();
    let h1 = cs.add(b"old".to_vec());
    let h2 = cs.add(b"new".to_vec());
    let h3 = cs.add(b"other".to_vec());
    let m1 = FileMetadata { content_hash: h1 };
    let m2 = FileMetadata { content_hash: h2 };
    let m3 = FileMetadata { content_hash: h3 };

    let created = FileChange::Created { meta: m2 };
    assert!(!created.conflicts(None));
    assert!(!created.conflicts(Some(m2)));
    assert!(created.conflicts(Some(m1)));

    let removed = FileChange::Removed { old_meta: m1 };
    assert!(!removed.conflicts(None));
    assert!(!removed.conflicts(Some(m1)));
    assert!(removed.conflicts(Some(m2)));

    let modified = FileChange::Modified { old_meta: m1, new_meta: m2 };
    assert!(modified.conflicts(None));
    assert!(!modified.conflicts(Some(m1)));
    assert!(!modified.conflicts(Some(m2)));
    assert!(modified.conflicts(Some(m3)));
}
