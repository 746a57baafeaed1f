//! The initialization handshake: each peer announces its snapshot, the
//! authoritative peer forces its contents onto the subordinate, and both
//! enter steady state.

use vstd::prelude::*;

use crate::disk::action_view;
use crate::disk::spec_new_content;
use crate::disk::DiskAction;
use crate::node::blob_views;
use crate::node::ingest_blobs;
use crate::node::journal_blobs;
use crate::node::spec_ingest;
use crate::node::Node;
use crate::node::NodeMessage;
use crate::path::clone_bytes;
use crate::state::lemma_diff_then_apply;
use crate::state::lemma_path_map_contains;
use crate::state::lemma_path_map_index;
use crate::state::spec_diff;
use crate::state::FileChange;
use crate::state::FsState;
use crate::state::FsStateDiff;
use crate::store::ContentId;
use crate::store::ContentStore;
use crate::store::SyncError;

verus! {

/// A message of the initialization sub-protocol.
#[derive(Debug)]
pub enum NodeInitMessage {
    /// A peer's first message: its whole snapshot.
    NodeAnnouncement { state: FsState },
    /// The authoritative peer's bulk transfer: every blob it holds that
    /// the subordinate's announced snapshot does not reference.
    Override { new_content: Vec<Vec<u8>> },
    /// The subordinate's confirmation that the override is applied.
    OverrideAck,
}

/// Any message of either protocol phase.
#[derive(Debug)]
pub enum AnyNodeMessage {
    Init(NodeInitMessage),
    Regular(NodeMessage),
}

/// Some file of snapshot `s` holds content `id`.
pub open spec fn spec_referenced(s: Map<Seq<u8>, crate::store::FileMetadata>, id: ContentId) -> bool {
    exists|k: Seq<u8>| s.contains_key(k) && s[k].content_hash == id
}

/// Whether any file of `state` holds content `id`.
fn state_references(state: &FsState, id: &ContentId) -> (r: bool)
    requires
        state.wf(),
    ensures
        r == spec_referenced(state@, *id),
{
    let n = state.files.len();
    let mut i: usize = 0;
    while i < n
        invariant
            state.wf(),
            n == state.files@.len(),
            0 <= i <= n,
            forall|t: int| 0 <= t < i ==> (#[trigger] state.files@[t]).1.content_hash != *id,
        decreases n - i,
    {
        if state.files[i].1.content_hash == *id {
            proof {
                lemma_path_map_index(state.files@, i as int);
            }
            return true;
        }
        i += 1;
    }
    proof {
        if spec_referenced(state@, *id) {
            let k = choose|k: Seq<u8>| state@.contains_key(k) && state@[k].content_hash == *id;
            lemma_path_map_contains(state.files@, k);
            let t = choose|t: int| 0 <= t < state.files@.len() && state.files@[t].0@ == k;
            lemma_path_map_index(state.files@, t);
        }
    }
    false
}

/// One disk action per diff entry, in entry order: deletions for
/// removals, writes for creations and modifications.
fn plan_all(diff: &FsStateDiff) -> (r: Vec<DiskAction>)
    ensures
        r@.len() == diff.files@.len(),
        forall|t: int|
            0 <= t < r@.len() ==> action_view(#[trigger] r@[t]) == (
                diff.files@[t].0@,
                spec_new_content(diff.files@[t].1),
            ),
{
    let n = diff.files.len();
    let mut out: Vec<DiskAction> = Vec::new();
    let mut i: usize = 0;
    while i < n
        invariant
            n == diff.files@.len(),
            0 <= i <= n,
            out@.len() == i,
            forall|t: int|
                0 <= t < i ==> action_view(#[trigger] out@[t]) == (
                    diff.files@[t].0@,
                    spec_new_content(diff.files@[t].1),
                ),
        decreases n - i,
    {
        let p = diff.files[i].0.clone();
        match diff.files[i].1 {
            FileChange::Removed { .. } => {
                out.push(DiskAction::Delete { path: p });
            },
            FileChange::Created { meta } => {
                out.push(DiskAction::Write { path: p, content: meta.content_hash });
            },
            FileChange::Modified { new_meta, .. } => {
                out.push(DiskAction::Write { path: p, content: new_meta.content_hash });
            },
        }
        i += 1;
    }
    out
}

/// A peer during the initialization handshake.
#[derive(Debug)]
pub struct NodeInit {
    /// What this peer believes is on its own disk.
    pub this_state: FsState,
    /// The other peer's announced snapshot, once received.
    pub other_state: Option<FsState>,
    /// This peer is the authoritative one: its contents win.
    pub should_override: bool,
}

impl NodeInit {
    /// The held snapshots are well formed.
    pub open spec fn wf(&self) -> bool {
        &&& self.this_state.wf()
        &&& (self.other_state matches Some(o) ==> o.wf())
    }

    /// A peer about to announce `this_state`, authoritative when
    /// `should_override` is set.
    pub fn new(this_state: FsState, should_override: bool) -> (r: NodeInit)
        requires
            this_state.wf(),
        ensures
            r.wf(),
            r.this_state@ == this_state@,
            r.other_state is None,
            r.should_override == should_override,
    {
        NodeInit { this_state, other_state: None, should_override }
    }

    /// This peer's first message: its whole snapshot.
    pub fn announce(&self) -> (r: NodeInitMessage)
        requires
            self.wf(),
        ensures
            r matches NodeInitMessage::NodeAnnouncement { state } && state.wf() && state@
                == self.this_state@,
    {
        NodeInitMessage::NodeAnnouncement { state: self.this_state.clone() }
    }

    /// The authoritative peer's bulk transfer: drains the journal and
    /// hands out every journaled blob that the subordinate's announced
    /// snapshot does not reference.
    fn override_other(&self, store: &mut ContentStore) -> (r: NodeInitMessage)
        requires
            self.wf(),
            old(store).wf(),
            self.other_state is Some,
        ensures
            final(store).wf(),
            final(store).contents_map() == old(store).contents_map(),
            final(store).journal() == Seq::<ContentId>::empty(),
            r matches NodeInitMessage::Override { new_content } && blob_views(new_content@)
                == journal_blobs(
                old(store).journal().filter(
                    |id: ContentId| !spec_referenced(self.other_state->Some_0@, id),
                ),
                old(store).contents_map(),
            ),
    {
        let other = match &self.other_state {
            Some(o) => o,
            None => {
                proof {
                    assert(false);
                }
                vstd::pervasive::unreached()
            },
        };
        let ghost pred = |id: ContentId| !spec_referenced(other@, id);
        let ids = store.drain_new_contents();
        let n = ids.len();
        let mut new_content: Vec<Vec<u8>> = Vec::new();
        let mut i: usize = 0;
        while i < n
            invariant
                store.wf(),
                store.contents_map() == old(store).contents_map(),
                store.journal() == Seq::<ContentId>::empty(),
                other.wf(),
                other@ == self.other_state->Some_0@,
                pred == (|id: ContentId| !spec_referenced(other@, id)),
                n == ids@.len(),
                ids@ == old(store).journal(),
                forall|t: int|
                    0 <= t < n ==> store.contents_map().contains_key(#[trigger] ids@[t]),
                0 <= i <= n,
                blob_views(new_content@) == journal_blobs(
                    ids@.take(i as int).filter(pred),
                    store.contents_map(),
                ),
            decreases n - i,
        {
            let id = ids[i];
            proof {
                reveal(Seq::filter);
                assert(ids@.take(i + 1).drop_last() =~= ids@.take(i as int));
                assert(ids@.take(i + 1).last() == id);
            }
            if !state_references(other, &id) {
                match store.get(&id) {
                    Ok(b) => {
                        let bc = clone_bytes(b);
                        let ghost bcv = bc@;
                        let ghost out0 = new_content@;
                        new_content.push(bc);
                        proof {
                            reveal(Seq::filter);
                            let pids = ids@.take(i as int).filter(pred);
                            let fids = ids@.take(i + 1).filter(pred);
                            let jb = journal_blobs(fids, store.contents_map());
                            assert(fids == pids.push(id));
                            assert(blob_views(out0).len() == out0.len());
                            assert(blob_views(out0) == journal_blobs(pids, store.contents_map()));
                            assert(out0.len() == pids.len());
                            assert(new_content@ == out0.push(bc));
                            assert(bcv == store.contents_map()[id]);
                            assert forall|t: int|
                                0 <= t < out0.len() + 1 implies blob_views(new_content@)[t]
                                == jb[t] by {
                                assert(blob_views(new_content@)[t] == new_content@[t]@);
                                assert(jb[t] == store.contents_map()[fids[t]]);
                                if t < out0.len() {
                                    assert(new_content@[t] == out0[t]);
                                    assert(fids[t] == pids[t]);
                                    assert(blob_views(out0)[t] == out0[t]@);
                                    assert(journal_blobs(pids, store.contents_map())[t]
                                        == store.contents_map()[pids[t]]);
                                } else {
                                    assert(new_content@[t]@ == bcv);
                                    assert(fids[t] == id);
                                }
                            }
                            assert(blob_views(new_content@) =~= jb);
                        }
                    },
                    Err(_) => {
                        proof {
                            assert(false);
                        }
                    },
                }
            } else {
                proof {
                    reveal(Seq::filter);
                    assert(ids@.take(i + 1).filter(pred) == ids@.take(i as int).filter(pred));
                }
            }
            i += 1;
        }
        proof {
            assert(ids@.take(n as int) =~= ids@);
        }
        NodeInitMessage::Override { new_content }
    }

    /// Handles one message of the initialization sub-protocol.  Returns
    /// the steady-state peer once the handshake completes, the reply to
    /// send, if any, and the disk actions that realize an override.
    /// Fails with `ProtocolError` on a message the current state does
    /// not admit.
    pub fn handle_init_message(&mut self, message: NodeInitMessage, store: &mut ContentStore) -> (r:
        Result<(Option<Node>, Option<NodeInitMessage>, Vec<DiskAction>), SyncError>)
        requires
            old(self).wf(),
            old(store).wf(),
            message matches NodeInitMessage::NodeAnnouncement { state } ==> state.wf(),
        ensures
            final(self).wf(),
            final(store).wf(),
            message matches NodeInitMessage::NodeAnnouncement { state } ==> ({
                &&& (r is Ok <==> old(self).other_state is None)
                &&& (r matches Err(e) ==> e == SyncError::ProtocolError && *final(self) == *old(self) && *final(store) == *old(store))
                &&& (r is Ok ==> ({
                    &&& final(self).this_state@ == old(self).this_state@
                    &&& final(self).other_state matches Some(o) && o@ == state@
                    &&& final(self).should_override == old(self).should_override
                    &&& (r matches Ok((node, reply, actions)) && node is None && actions@.len()
                        == 0 && (old(self).should_override ==> (reply matches Some(m) && m
                        matches NodeInitMessage::Override { new_content } && blob_views(
                        new_content@,
                    ) == journal_blobs(
                        old(store).journal().filter(
                            |id: ContentId| !spec_referenced(state@, id),
                        ),
                        old(store).contents_map(),
                    ) && final(store).contents_map() == old(store).contents_map() && final(store).journal() == Seq::<ContentId>::empty())) && (!old(self).should_override
                        ==> reply is None && *final(store) == *old(store)))
                }))
            }),
            message matches NodeInitMessage::Override { new_content } ==> ({
                &&& (r is Ok <==> old(self).other_state is Some && !old(self).should_override)
                &&& (r matches Err(e) ==> e == SyncError::ProtocolError && *final(self) == *old(self) && *final(store) == *old(store))
                &&& (r is Ok ==> ({
                    let announced = old(self).other_state->Some_0@;
                    let d = spec_diff(old(self).this_state@, announced);
                    &&& (final(store).contents_map(), final(store).journal()) == spec_ingest(
                        (old(store).contents_map(), old(store).journal()),
                        blob_views(new_content@),
                    )
                    &&& final(self).this_state@ == announced
                    &&& final(self).other_state is None
                    &&& (r matches Ok((node, reply, actions)) && (node matches Some(nd)
                        && nd.wf() && nd.this_state@ == announced && nd.other_state@ == announced
                        && nd.conflicts@.len() == 0) && (reply matches Some(m) && m
                        is OverrideAck) && (forall|t: int|
                        0 <= t < actions@.len() ==> (d.contains_key(
                            (#[trigger] action_view(actions@[t])).0,
                        ) && action_view(actions@[t]).1 == spec_new_content(
                            d[action_view(actions@[t]).0],
                        ))) && (forall|k: Seq<u8>|
                        #![trigger d.contains_key(k)]
                        d.contains_key(k) ==> exists|t: int|
                            0 <= t < actions@.len() && action_view(actions@[t]).0 == k))
                }))
            }),
            message is OverrideAck ==> ({
                &&& (r is Ok <==> old(self).other_state is Some && old(self).should_override)
                &&& (r matches Err(e) ==> e == SyncError::ProtocolError && *final(self) == *old(self) && *final(store) == *old(store))
                &&& (r is Ok ==> ({
                    &&& *final(store) == *old(store)
                    &&& final(self).this_state@ == old(self).this_state@
                    &&& final(self).other_state is None
                    &&& (r matches Ok((node, reply, actions)) && (node matches Some(nd)
                        && nd.wf() && nd.this_state@ == old(self).this_state@ && nd.other_state@
                        == old(self).other_state->Some_0@ && nd.conflicts@.len() == 0) && reply
                        is None && actions@.len() == 0)
                }))
            }),
    {
        match message {
            NodeInitMessage::NodeAnnouncement { state } => {
                if self.other_state.is_some() {
                    return Err(SyncError::ProtocolError);
                }
                self.other_state = Some(state);
                if self.should_override {
                    let reply = self.override_other(store);
                    Ok((None, Some(reply), Vec::new()))
                } else {
                    Ok((None, None, Vec::new()))
                }
            },
            NodeInitMessage::Override { new_content } => {
                if self.should_override {
                    return Err(SyncError::ProtocolError);
                }
                if self.other_state.is_none() {
                    return Err(SyncError::ProtocolError);
                }
                let other = match self.other_state.take() {
                    Some(o) => o,
                    None => {
                        proof {
                            assert(false);
                        }
                        vstd::pervasive::unreached()
                    },
                };
                ingest_blobs(store, &new_content);
                let d = self.this_state.diff(&other);
                let ghost dm = spec_diff(old(self).this_state@, other@);
                let conflicts = self.this_state.apply_diff(&d);
                proof {
                    lemma_diff_then_apply(old(self).this_state@, other@);
                    assert(self.this_state@ =~= other@);
                }
                let actions = plan_all(&d);
                proof {
                    assert forall|t: int|
                        0 <= t < actions@.len() implies (dm.contains_key(
                        (#[trigger] action_view(actions@[t])).0) && action_view(actions@[t]).1
                        == spec_new_content(dm[action_view(actions@[t]).0])) by {
                        lemma_path_map_index(d.files@, t);
                    }
                    assert forall|k: Seq<u8>| #![trigger dm.contains_key(k)]
                        dm.contains_key(k) implies exists|t: int|
                        0 <= t < actions@.len() && action_view(actions@[t]).0 == k by {
                        lemma_path_map_contains(d.files@, k);
                        let t = choose|t: int| 0 <= t < d.files@.len() && d.files@[t].0@ == k;
                        assert(action_view(actions@[t]).0 == k);
                    }
                }
                let node = Node::new(self.this_state.clone(), other);
                Ok((Some(node), Some(NodeInitMessage::OverrideAck), actions))
            },
            NodeInitMessage::OverrideAck => {
                if !self.should_override {
                    return Err(SyncError::ProtocolError);
                }
                if self.other_state.is_none() {
                    return Err(SyncError::ProtocolError);
                }
                let other = match self.other_state.take() {
                    Some(o) => o,
                    None => {
                        proof {
                            assert(false);
                        }
                        vstd::pervasive::unreached()
                    },
                };
                let node = Node::new(self.this_state.clone(), other);
                Ok((Some(node), None, Vec::new()))
            },
        }
    }
}

} // verus!
