//! The initialization handshake, the steady-state message flow, and the
//! disk-observing apply and refresh paths.

use fync::ContentStore;
use fync::DiskAction;
use fync::FileChange;
use fync::FileMetadata;
use fync::FilePath;
use fync::FsState;
use fync::Node;
use fync::NodeInit;
use fync::NodeInitMessage;
use fync::NodeMessage;
use fync::PathObservation;
use fync::RefreshObservation;
use fync::SyncError;

fn fp(s: &str) -> FilePath {
    FilePath::new(s.as_bytes().to_vec())
}

/// Completes the announce/override/ack handshake and returns both
/// steady-state peers, with the subordinate's disk actions.
fn handshake(
    auth: &mut NodeInit,
    auth_store: &mut ContentStore,
    sub: &mut NodeInit,
    sub_store: &mut ContentStore,
) -> (Node, Node, Vec<DiskAction>) {
    let auth_hello = auth.announce();
    let sub_hello = sub.announce();
    let (none_node, override_msg, no_actions) =
        auth.handle_init_message(sub_hello, auth_store).unwrap();
    assert!(none_node.is_none());
    assert!(no_actions.is_empty());
    let override_msg = override_msg.expect("the authoritative peer sends an override");
    let (none_node, no_reply, no_actions) =
        sub.handle_init_message(auth_hello, sub_store).unwrap();
    assert!(none_node.is_none());
    assert!(no_reply.is_none());
    assert!(no_actions.is_empty());
    let (sub_node, ack, sub_actions) = sub.handle_init_message(override_msg, sub_store).unwrap();
    let sub_node = sub_node.expect("the subordinate is running after the override");
    let ack = ack.expect("the subordinate acknowledges the override");
    assert!(matches!(ack, NodeInitMessage::OverrideAck));
    let (auth_node, no_reply, no_actions) = auth.handle_init_message(ack, auth_store).unwrap();
    let auth_node = auth_node.expect("the authoritative peer is running after the ack");
    assert!(no_reply.is_none());
    assert!(no_actions.is_empty());
    (auth_node, sub_node, sub_actions)
}

#[test]
fn identical_peers_settle_with_nothing_to_send() {
    let mut store_a = ContentStore::default();
    let h1 = store_a.add(b"hello".to_vec());
    let h2 = store_a.add(b"bye".to_vec());
    let mut state = FsState::empty();
    state.insert_file(fp("f1.txt"), h1);
    state.insert_file(fp("f2.txt"), h2);

    let mut store_b = ContentStore::default();
    store_b.add(b"hello".to_vec());
    store_b.add(b"bye".to_vec());

    let mut auth = NodeInit::new(state.clone(), true);
    let mut sub = NodeInit::new(state.clone(), false);
    let (auth_node, sub_node, sub_actions) =
        handshake(&mut auth, &mut store_a, &mut sub, &mut store_b);

    // Identical trees: nothing to transfer, nothing to do on disk.
    assert!(sub_actions.is_empty());
    assert!(auth_node.is_settle());
    assert!(sub_node.is_settle());
    assert!(auth_node.changes_for_other().is_empty());
    assert!(sub_node.changes_for_other().is_empty());
}

#[test]
fn override_carries_only_unreferenced_blobs_and_rewrites_the_subordinate() {
    // The authoritative peer holds f1 and f2; the subordinate only f1.
    let mut store_b = ContentStore::default();
    let h1 = store_b.add(b"hello".to_vec());
    let h2 = store_b.add(b"bye".to_vec());
    let mut state_b = FsState::empty();
    state_b.insert_file(fp("f1.txt"), h1);
    state_b.insert_file(fp("f2.txt"), h2);

    let mut store_a = ContentStore::default();
    store_a.add(b"hello".to_vec());
    let mut state_a = FsState::empty();
    state_a.insert_file(fp("f1.txt"), h1);

    let mut auth = NodeInit::new(state_b.clone(), true);
    let mut sub = NodeInit::new(state_a.clone(), false);

    let sub_hello = sub.announce();
    let auth_hello = auth.announce();
    let (_, override_msg, _) = auth.handle_init_message(sub_hello, &mut store_b).unwrap();
    // Only the blob the subordinate does not reference travels.
    match &override_msg {
        Some(NodeInitMessage::Override { new_content }) => {
            assert_eq!(*new_content, vec![b"bye".to_vec()]);
        }
        other => panic!("expected an override, got {:?}", other),
    }
    sub.handle_init_message(auth_hello, &mut store_a).unwrap();
    let (sub_node, _, actions) =
        sub.handle_init_message(override_msg.unwrap(), &mut store_a).unwrap();
    let sub_node = sub_node.unwrap();

    // The subordinate's snapshot now includes f2, and its disk plan
    // writes it.
    assert!(sub_node.this_state.same_as(&state_b));
    assert!(sub_node.is_settle());
    assert_eq!(actions.len(), 1);
    match &actions[0] {
        DiskAction::Write { path, content } => {
            assert_eq!(*path, fp("f2.txt"));
            assert_eq!(*content, h2);
        }
        other => panic!("expected a write, got {:?}", other),
    }
    // The blob that traveled is now in the subordinate's store.
    assert_eq!(store_a.get(&h2).unwrap().as_slice(), b"bye");
}

#[test]
fn init_rejects_messages_out_of_order() {
    let mut store = ContentStore::default();
    let h1 = store.add(b"hello".to_vec());
    let mut state = FsState::empty();
    state.insert_file(fp("f1.txt"), h1);

    // An override before any announcement is a protocol error.
    let mut sub = NodeInit::new(state.clone(), false);
    assert_eq!(
        sub.handle_init_message(
            NodeInitMessage::Override { new_content: vec![] },
            &mut store,
        )
        .err(),
        Some(SyncError::ProtocolError)
    );

    // An ack to the subordinate is a protocol error.
    assert_eq!(
        sub.handle_init_message(NodeInitMessage::OverrideAck, &mut store).err(),
        Some(SyncError::ProtocolError)
    );

    // A second announcement is a protocol error.
    let mut auth = NodeInit::new(state.clone(), true);
    let hello = NodeInitMessage::NodeAnnouncement { state: state.clone() };
    auth.handle_init_message(hello, &mut store).unwrap();
    let hello2 = NodeInitMessage::NodeAnnouncement { state: state.clone() };
    assert_eq!(
        auth.handle_init_message(hello2, &mut store).err(),
        Some(SyncError::ProtocolError)
    );
}

#[test]
fn exchanged_messages_converge_disjoint_edits() {
    // Both peers start from {f1, f2}; A removes f1, B creates f3.
    let mut store_a = ContentStore::default();
    let h1 = store_a.add(b"content1".to_vec());
    let h2 = store_a.add(b"content2".to_vec());
    let mut store_b = ContentStore::default();
    store_b.add(b"content1".to_vec());
    store_b.add(b"content2".to_vec());
    store_a.drain_new_contents();
    store_b.drain_new_contents();

    let mut common = FsState::empty();
    common.insert_file(fp("f1.txt"), h1);
    common.insert_file(fp("f2.txt"), h2);

    let mut state_a = common.clone();
    state_a.remove_file(&fp("f1.txt"));
    let mut state_b = common.clone();
    let h3 = store_b.add(b"content3".to_vec());
    state_b.insert_file(fp("f3.txt"), h3);

    let mut node_a = Node::new(state_a, common.clone());
    let mut node_b = Node::new(state_b, common.clone());

    let msg_for_b = node_a.messages_for_other(&mut store_a);
    let msg_for_a = node_b.messages_for_other(&mut store_b);
    // B's message carries the one blob its diff newly references.
    match &msg_for_a {
        NodeMessage::Changes { new_content, diff } => {
            assert_eq!(*new_content, vec![b"content3".to_vec()]);
            assert_eq!(diff.len(), 1);
        }
        other => panic!("expected changes, got {:?}", other),
    }

    let resp_for_a = node_b.handle_message_mem(msg_for_b, &mut store_b).unwrap().unwrap();
    let resp_for_b = node_a.handle_message_mem(msg_for_a, &mut store_a).unwrap().unwrap();
    assert!(node_a.handle_message_mem(resp_for_a, &mut store_a).unwrap().is_none());
    assert!(node_b.handle_message_mem(resp_for_b, &mut store_b).unwrap().is_none());

    assert!(!node_a.has_conflicts());
    assert!(!node_b.has_conflicts());
    assert!(node_a.is_settle());
    assert!(node_b.is_settle());
    assert!(node_a.this_state.same_as(&node_b.this_state));
    // The merged tree is {f2, f3}.
    assert_eq!(node_a.this_state.len(), 2);
    assert!(store_a.get(&h3).is_ok());
}

#[test]
fn disk_apply_skips_conflicts_and_plans_the_rest() {
    let mut store = ContentStore::default();
    let h1 = store.add(b"old".to_vec());
    let h2 = store.add(b"new".to_vec());
    let h3 = store.add(b"raced".to_vec());

    let mut base = FsState::empty();
    base.insert_file(fp("f1.txt"), h1);
    let mut target = FsState::empty();
    target.insert_file(fp("f1.txt"), h2);
    let d = base.diff(&target);
    assert_eq!(d.len(), 1);

    // The disk raced to a third content: the change conflicts, nothing
    // is planned, the snapshot keeps its old record.
    let mut raced = base.clone();
    let observed = vec![Some(FileMetadata { content_hash: h3 })];
    let (conflicts, actions) = raced.apply_diff_to_disk(&d, &observed, &store).unwrap();
    assert_eq!(conflicts, vec![fp("f1.txt")]);
    assert!(actions.is_empty());
    assert!(raced.same_as(&base));

    // The disk still holds the old content: the change applies and the
    // plan writes the new blob.
    let mut clean = base.clone();
    let observed = vec![Some(FileMetadata { content_hash: h1 })];
    let (conflicts, actions) = clean.apply_diff_to_disk(&d, &observed, &store).unwrap();
    assert!(conflicts.is_empty());
    assert_eq!(actions.len(), 1);
    match &actions[0] {
        DiskAction::Write { path, content } => {
            assert_eq!(*path, fp("f1.txt"));
            assert_eq!(*content, h2);
        }
        other => panic!("expected a write, got {:?}", other),
    }
    assert!(clean.same_as(&target));
}

#[test]
fn disk_apply_fails_cleanly_on_missing_content() {
    let mut full_store = ContentStore::default();
    let h2 = full_store.add(b"new".to_vec());

    let base = FsState::empty();
    let mut target = FsState::empty();
    target.insert_file(fp("f1.txt"), h2);
    let d = base.diff(&target);

    // A store that never saw the blob cannot realize the creation.
    let empty_store = ContentStore::default();
    let mut snap = base.clone();
    let observed: Vec<Option<FileMetadata>> = vec![None];
    assert_eq!(
        snap.apply_diff_to_disk(&d, &observed, &empty_store).err(),
        Some(SyncError::MissingContent)
    );
    assert!(snap.same_as(&base));
}

#[test]
fn refresh_path_reports_each_observation() {
    let mut store = ContentStore::default();
    let h1 = store.add(b"one".to_vec());
    let h2 = store.add(b"two".to_vec());
    let m1 = FileMetadata { content_hash: h1 };
    let m2 = FileMetadata { content_hash: h2 };

    let mut s = FsState::empty();
    s.insert_file(fp("a.txt"), h1);

    // Unchanged content: no change.
    assert!(s.refresh_path(&fp("a.txt"), &PathObservation::Present { meta: m1 }).is_none());
    // New content: a modification.
    match s.refresh_path(&fp("a.txt"), &PathObservation::Present { meta: m2 }) {
        Some((p, FileChange::Modified { old_meta, new_meta })) => {
            assert_eq!(p, fp("a.txt"));
            assert_eq!(old_meta, m1);
            assert_eq!(new_meta, m2);
        }
        other => panic!("expected a modification, got {:?}", other),
    }
    // A new path: a creation.
    match s.refresh_path(&fp("b.txt"), &PathObservation::Present { meta: m1 }) {
        Some((p, FileChange::Created { meta })) => {
            assert_eq!(p, fp("b.txt"));
            assert_eq!(meta, m1);
        }
        other => panic!("expected a creation, got {:?}", other),
    }
    // A vanished path: a removal.
    match s.refresh_path(&fp("a.txt"), &PathObservation::Absent) {
        Some((p, FileChange::Removed { old_meta })) => {
            assert_eq!(p, fp("a.txt"));
            assert_eq!(old_meta, m2);
        }
        other => panic!("expected a removal, got {:?}", other),
    }
    // A path that became a directory: silently nothing.
    assert!(s.refresh_path(&fp("b.txt"), &PathObservation::NonFile).is_none());
    // A path that never existed: nothing.
    assert!(s.refresh_path(&fp("c.txt"), &PathObservation::Absent).is_none());
    assert_eq!(s.len(), 1);
}

#[test]
fn full_rescan_folds_removals_and_findings() {
    let mut store = ContentStore::default();
    let h1 = store.add(b"one".to_vec());
    let h2 = store.add(b"two".to_vec());
    let h3 = store.add(b"three".to_vec());

    let mut s = FsState::empty();
    s.insert_file(fp("dir/a.txt"), h1);
    s.insert_file(fp("dir/b.txt"), h1);
    s.insert_file(fp("top.txt"), h3);

    let under = s.entries_under_prefix(&fp("dir/"));
    assert_eq!(under.len(), 2);
    assert!(under.contains(&fp("dir/a.txt")));
    assert!(under.contains(&fp("dir/b.txt")));

    let missing = vec![fp("dir/a.txt")];
    let found = vec![
        (fp("dir/b.txt"), FileMetadata { content_hash: h2 }),
        (fp("dir/c.txt"), FileMetadata { content_hash: h3 }),
    ];
    let d = s.refresh_full_rescan(&missing, &found);
    assert_eq!(d.len(), 3);
    assert!(matches!(d.get(&fp("dir/a.txt")), Some(FileChange::Removed { .. })));
    assert!(matches!(d.get(&fp("dir/b.txt")), Some(FileChange::Modified { .. })));
    assert!(matches!(d.get(&fp("dir/c.txt")), Some(FileChange::Created { .. })));
    assert_eq!(s.len(), 3);
    assert!(s.get_meta(&fp("dir/a.txt")).is_none());
}

#[test]
fn refresh_requests_pack_changes_or_stay_silent() {
    let mut store = ContentStore::default();
    let h1 = store.add(b"one".to_vec());
    store.drain_new_contents();

    let mut state = FsState::empty();
    state.insert_file(fp("f1.txt"), h1);
    let mut node = Node::new(state.clone(), state.clone());

    // Nothing observed: nothing to send.
    assert!(node.refresh_requests(&vec![], &mut store).is_none());

    // The watcher saw f1 vanish and f2 appear; the new blob was hashed
    // into the store while observing.
    let h2 = store.add(b"fresh".to_vec());
    let observations = vec![
        RefreshObservation::Path { path: fp("f1.txt"), observed: PathObservation::Absent },
        RefreshObservation::Path {
            path: fp("f2.txt"),
            observed: PathObservation::Present { meta: FileMetadata { content_hash: h2 } },
        },
    ];
    match node.refresh_requests(&observations, &mut store) {
        Some(NodeMessage::Changes { new_content, diff }) => {
            assert_eq!(new_content, vec![b"fresh".to_vec()]);
            assert_eq!(diff.len(), 2);
            assert!(matches!(diff.get(&fp("f1.txt")), Some(FileChange::Removed { .. })));
            assert!(matches!(diff.get(&fp("f2.txt")), Some(FileChange::Created { .. })));
        }
        other => panic!("expected changes, got {:?}", other),
    }
    // The snapshot moved; the peer view did not.
    assert!(node.this_state.get_meta(&fp("f1.txt")).is_none());
    assert!(node.other_state.get_meta(&fp("f1.txt")).is_some());

    // An observation that matches the snapshot yields nothing.
    let observations = vec![RefreshObservation::Path {
        path: fp("f2.txt"),
        observed: PathObservation::Present { meta: FileMetadata { content_hash: h2 } },
    }];
    assert!(node.refresh_requests(&observations, &mut store).is_none());
}

#[test]
fn handle_message_disk_plans_actions_and_answers() {
    let mut store_a = ContentStore::default();
    let h1 = store_a.add(b"one".to_vec());
    let mut store_b = ContentStore::default();
    store_b.add(b"one".to_vec());
    store_a.drain_new_contents();
    store_b.drain_new_contents();

    let mut common = FsState::empty();
    common.insert_file(fp("f1.txt"), h1);

    // A edits f1; B receives the change against a quiet disk.
    let mut state_a = common.clone();
    let h2 = store_a.add(b"edited".to_vec());
    state_a.insert_file(fp("f1.txt"), h2);
    let mut node_a = Node::new(state_a, common.clone());
    let mut node_b = Node::new(common.clone(), common.clone());

    let msg = node_a.messages_for_other(&mut store_a);
    let observed = vec![Some(FileMetadata { content_hash: h1 })];
    let (resp, actions) = node_b.handle_message_disk(msg, &observed, &mut store_b).unwrap();
    match resp {
        Some(NodeMessage::ChangesResponse { accepted_diff }) => {
            assert_eq!(accepted_diff.len(), 1);
            // A learns from the acknowledgement and settles.
            let ack = NodeMessage::ChangesResponse { accepted_diff };
            let (no_resp, no_actions) =
                node_a.handle_message_disk(ack, &vec![], &mut store_a).unwrap();
            assert!(no_resp.is_none());
            assert!(no_actions.is_empty());
        }
        other => panic!("expected a response, got {:?}", other),
    }
    assert_eq!(actions.len(), 1);
    match &actions[0] {
        DiskAction::Write { path, content } => {
            assert_eq!(*path, fp("f1.txt"));
            assert_eq!(*content, h2);
        }
        other => panic!("expected a write, got {:?}", other),
    }
    assert!(node_a.is_settle());
    assert!(node_b.this_state.get_meta(&fp("f1.txt")).is_some());
    // The blob travelled inside the message.
    assert_eq!(store_b.get(&h2).unwrap().as_slice(), b"edited");
}
