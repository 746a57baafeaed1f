//! The steady-state reconciler: one peer's snapshot, its belief about
//! the other peer's snapshot, and the exchange of differential updates.

use vstd::prelude::*;

use crate::disk::action_view;
use crate::disk::spec_disk_apply;
use crate::disk::spec_disk_conflicts;
use crate::disk::spec_disk_plan;
use crate::disk::spec_entry_ready;
use crate::disk::DiskAction;
use crate::path::clone_bytes;
use crate::path::FilePath;
use crate::state::key_opt;
use crate::state::path_keys_distinct;
use crate::state::rescan_found;
use crate::state::rescan_missing;
use crate::state::PathObservation;
use crate::state::path_map;
use crate::state::lemma_path_map_contains;
use crate::state::lemma_path_map_index;
use crate::state::spec_apply;
use crate::state::spec_conflict_seq;
use crate::state::spec_conflict_set;
use crate::state::spec_conflicts;
use crate::state::spec_diff;
use crate::state::FileChange;
use crate::state::FsState;
use crate::state::FsStateDiff;
use crate::store::digest_of;
use crate::store::ContentId;
use crate::store::ContentStore;
use crate::store::FileMetadata;
use crate::store::SyncError;

verus! {

/// A steady-state message between the two peers.
#[derive(Debug)]
pub enum NodeMessage {
    /// A diff asserted against what the sender last believed the
    /// receiver held, with the blobs newly referenced by it.
    Changes { new_content: Vec<Vec<u8>>, diff: FsStateDiff },
    /// The subset of a received diff that the receiver applied.
    ChangesResponse { accepted_diff: FsStateDiff },
}

/// One peer of the steady-state reconciliation.
#[derive(Debug)]
pub struct Node {
    /// What this peer believes is on its own disk.
    pub this_state: FsState,
    /// What this peer believes is on the other peer's disk.
    pub other_state: FsState,
    /// Paths on which received changes conflicted, oldest first.
    pub conflicts: Vec<FilePath>,
}

/// The views of a list of blobs.
pub open spec fn blob_views(bs: Seq<Vec<u8>>) -> Seq<Seq<u8>> {
    bs.map_values(|b: Vec<u8>| b@)
}

/// The blobs stored under a list of ids.
pub open spec fn journal_blobs(ids: Seq<ContentId>, store: Map<ContentId, Seq<u8>>) -> Seq<
    Seq<u8>,
> {
    ids.map_values(|id: ContentId| store[id])
}

/// A store's contents and journal after ingesting a list of blobs in
/// order: each blob is stored under its digest, and a digest not seen
/// before is journaled.
pub open spec fn spec_ingest(
    st: (Map<ContentId, Seq<u8>>, Seq<ContentId>),
    blobs: Seq<Seq<u8>>,
) -> (Map<ContentId, Seq<u8>>, Seq<ContentId>)
    decreases blobs.len(),
{
    if blobs.len() == 0 {
        st
    } else {
        let prev = spec_ingest(st, blobs.drop_last());
        let id = digest_of(blobs.last());
        (
            prev.0.insert(id, blobs.last()),
            if prev.0.contains_key(id) {
                prev.1
            } else {
                prev.1.push(id)
            },
        )
    }
}

/// What the observer found for one refresh request: the state of one
/// path, or the missing and found files of one rescanned subtree.
#[derive(Debug)]
pub enum RefreshObservation {
    Path { path: FilePath, observed: PathObservation },
    Rescan { missing: Vec<FilePath>, found: Vec<(FilePath, FileMetadata)> },
}

/// One refresh observation folded over a snapshot-and-diff pair.
pub open spec fn refresh_step(
    st: (Map<Seq<u8>, FileMetadata>, Map<Seq<u8>, FileChange>),
    ob: RefreshObservation,
) -> (Map<Seq<u8>, FileMetadata>, Map<Seq<u8>, FileChange>) {
    match ob {
        RefreshObservation::Path { path, observed } => match observed {
            PathObservation::Present { meta } => if key_opt(st.0, path@) == Some(meta) {
                st
            } else {
                (
                    st.0.insert(path@, meta),
                    st.1.insert(
                        path@,
                        match key_opt(st.0, path@) {
                            Some(o) => FileChange::Modified { old_meta: o, new_meta: meta },
                            None => FileChange::Created { meta },
                        },
                    ),
                )
            },
            PathObservation::Absent => if st.0.contains_key(path@) {
                (
                    st.0.remove(path@),
                    st.1.insert(path@, FileChange::Removed { old_meta: st.0[path@] }),
                )
            } else {
                st
            },
            PathObservation::NonFile => st,
        },
        RefreshObservation::Rescan { missing, found } => {
            let sub = rescan_found(
                rescan_missing(
                    (st.0, Map::<Seq<u8>, FileChange>::empty()),
                    missing@.map_values(|p: FilePath| p@),
                ),
                found@.map_values(|e: (FilePath, FileMetadata)| (e.0@, e.1)),
            );
            (sub.0, st.1.union_prefer_right(sub.1))
        },
    }
}

/// Folds a batch of refresh observations over a snapshot-and-diff pair.
pub open spec fn refresh_fold(
    st: (Map<Seq<u8>, FileMetadata>, Map<Seq<u8>, FileChange>),
    obs: Seq<RefreshObservation>,
) -> (Map<Seq<u8>, FileMetadata>, Map<Seq<u8>, FileChange>)
    decreases obs.len(),
{
    if obs.len() == 0 {
        st
    } else {
        refresh_step(refresh_fold(st, obs.drop_last()), obs.last())
    }
}

/// The subset of diff `d` that does not conflict with snapshot `s`.
pub open spec fn spec_accepted(
    d: Map<Seq<u8>, FileChange>,
    s: Map<Seq<u8>, FileMetadata>,
) -> Map<Seq<u8>, FileChange> {
    d.remove_keys(spec_conflict_set(d, s))
}

/// Stores every blob under its digest, journaling first insertions.
pub fn ingest_blobs(store: &mut ContentStore, blobs: &Vec<Vec<u8>>)
    requires
        old(store).wf(),
    ensures
        final(store).wf(),
        (final(store).contents_map(), final(store).journal()) == spec_ingest(
            (old(store).contents_map(), old(store).journal()),
            blob_views(blobs@),
        ),
{
    let nb = blobs.len();
    let mut i: usize = 0;
    while i < nb
        invariant
            store.wf(),
            nb == blobs@.len(),
            0 <= i <= nb,
            (store.contents_map(), store.journal()) == spec_ingest(
                (old(store).contents_map(), old(store).journal()),
                blob_views(blobs@).take(i as int),
            ),
        decreases nb - i,
    {
        proof {
            assert(blob_views(blobs@).take(i + 1).drop_last() =~= blob_views(blobs@).take(
                i as int,
            ));
            assert(blob_views(blobs@).take(i + 1).last() == blobs@[i as int]@);
        }
        let b = clone_bytes(&blobs[i]);
        let _ = store.add(b);
        i += 1;
    }
    proof {
        assert(blob_views(blobs@).take(nb as int) =~= blob_views(blobs@));
    }
}

/// Drains the store's journal and hands out the journaled blobs, in
/// journal order.
fn take_new_blobs(store: &mut ContentStore) -> (r: Vec<Vec<u8>>)
    requires
        old(store).wf(),
    ensures
        final(store).wf(),
        final(store).contents_map() == old(store).contents_map(),
        final(store).journal() == Seq::<ContentId>::empty(),
        blob_views(r@) == journal_blobs(old(store).journal(), old(store).contents_map()),
{
    let ids = store.drain_new_contents();
    let n = ids.len();
    let mut out: Vec<Vec<u8>> = Vec::new();
    let mut i: usize = 0;
    while i < n
        invariant
            store.wf(),
            store.contents_map() == old(store).contents_map(),
            store.journal() == Seq::<ContentId>::empty(),
            n == ids@.len(),
            ids@ == old(store).journal(),
            forall|t: int|
                0 <= t < n ==> store.contents_map().contains_key(#[trigger] ids@[t]),
            0 <= i <= n,
            blob_views(out@) == journal_blobs(ids@, store.contents_map()).take(i as int),
        decreases n - i,
    {
        let id = ids[i];
        match store.get(&id) {
            Ok(b) => {
                let bc = clone_bytes(b);
                let ghost bcv = bc@;
                let ghost out0 = out@;
                out.push(bc);
                proof {
                    let jb = journal_blobs(ids@, store.contents_map());
                    assert(jb.len() == n);
                    assert(blob_views(out0).len() == out0.len());
                    assert(blob_views(out0) == jb.take(i as int));
                    assert(out0.len() == i);
                    assert(out@ == out0.push(bc));
                    assert(bcv == store.contents_map()[ids@[i as int]]);
                    assert forall|t: int|
                        0 <= t < i + 1 implies blob_views(out@)[t] == jb.take(i + 1)[t] by {
                        if t < i {
                            assert(out@[t] == out0[t]);
                            assert(blob_views(out0)[t] == jb.take(i as int)[t]);
                        } else {
                            assert(out@[t]@ == bcv);
                            assert(jb[t] == store.contents_map()[ids@[t]]);
                        }
                    }
                    assert(blob_views(out@) =~= jb.take(i + 1));
                }
            },
            Err(_) => {
                proof {
                    assert(false);
                }
            },
        }
        i += 1;
    }
    proof {
        assert(journal_blobs(ids@, store.contents_map()).take(n as int) =~= journal_blobs(
            ids@,
            store.contents_map(),
        ));
    }
    out
}

/// Whether some path in `v` reads `p`.
fn contains_path(v: &Vec<FilePath>, p: &FilePath) -> (r: bool)
    ensures
        r == v@.map_values(|q: FilePath| q@).contains(p@),
{
    let ghost pf = |q: FilePath| q@;
    let n = v.len();
    let mut i: usize = 0;
    while i < n
        invariant
            n == v@.len(),
            0 <= i <= n,
            pf == (|q: FilePath| q@),
            forall|t: int| 0 <= t < i ==> v@.map_values(pf)[t] != p@,
        decreases n - i,
    {
        if v[i].eq_path(p) {
            proof {
                assert(v@.map_values(pf)[i as int] == p@);
            }
            return true;
        }
        i += 1;
    }
    proof {
        if v@.map_values(pf).contains(p@) {
            let t = choose|t: int| 0 <= t < v@.map_values(pf).len() && v@.map_values(pf)[t] == p@;
            assert(v@.map_values(pf)[t] != p@);
        }
    }
    false
}

/// The entries of `diff` whose paths are not in `confl`, as a diff.
fn filter_entries(diff: &FsStateDiff, confl: &Vec<FilePath>) -> (r: FsStateDiff)
    requires
        diff.wf(),
    ensures
        r.wf(),
        r@ == diff@.remove_keys(confl@.map_values(|q: FilePath| q@).to_set()),
{
    let ghost pf = |q: FilePath| q@;
    let ghost cset = confl@.map_values(pf).to_set();
    let mut acc: Vec<(FilePath, FileChange)> = Vec::new();
    let n = diff.files.len();
    let mut j: usize = 0;
    while j < n
        invariant
            diff.wf(),
            n == diff.files@.len(),
            0 <= j <= n,
            pf == (|q: FilePath| q@),
            cset == confl@.map_values(pf).to_set(),
            path_keys_distinct(acc@),
            path_map(acc@) == path_map(diff.files@.take(j as int)).remove_keys(cset),
        decreases n - j,
    {
        let p = &diff.files[j].0;
        let c = diff.files[j].1;
        let ghost k = p@;
        let ghost pmj = path_map(diff.files@.take(j as int));
        proof {
            assert(diff.files@.take(j + 1).drop_last() =~= diff.files@.take(j as int));
            assert(diff.files@.take(j + 1).last() == diff.files@[j as int]);
            assert(path_map(diff.files@.take(j + 1)) == pmj.insert(k, c));
        }
        if !contains_path(confl, p) {
            let ghost acc0 = acc@;
            acc.push((p.clone(), c));
            proof {
                assert(acc@.drop_last() =~= acc0);
                assert(path_map(acc@) == path_map(acc0).insert(k, c));
                assert(!cset.contains(k));
                assert(path_map(acc@) =~= pmj.insert(k, c).remove_keys(cset));
                assert forall|a: int, b: int|
                    0 <= a < b < acc@.len() implies acc@[a].0@ != acc@[b].0@ by {
                    if b == acc@.len() - 1 {
                        assert(path_map(acc0).contains_key(acc0[a].0@)) by {
                            lemma_path_map_index(acc0, a);
                        }
                        assert(pmj.contains_key(acc0[a].0@));
                        lemma_path_map_contains(diff.files@.take(j as int), acc0[a].0@);
                        let t = choose|t: int|
                            0 <= t < j && diff.files@.take(j as int)[t].0@ == acc0[a].0@;
                        assert(diff.files@[t].0@ != diff.files@[j as int].0@);
                    }
                }
            }
        } else {
            proof {
                assert(cset.contains(k));
                assert(path_map(acc@) =~= pmj.insert(k, c).remove_keys(cset));
            }
        }
        j += 1;
    }
    proof {
        assert(diff.files@.take(n as int) =~= diff.files@);
    }
    FsStateDiff { files: acc }
}

impl Node {
    /// Both snapshots are well formed.
    pub open spec fn wf(&self) -> bool {
        &&& self.this_state.wf()
        &&& self.other_state.wf()
    }

    /// A peer that believes its own disk holds `this_state` and the
    /// other peer's disk holds `other_state`, with no conflicts yet.
    pub fn new(this_state: FsState, other_state: FsState) -> (r: Node)
        requires
            this_state.wf(),
            other_state.wf(),
        ensures
            r.wf(),
            r.this_state@ == this_state@,
            r.other_state@ == other_state@,
            r.conflicts@ == Seq::<FilePath>::empty(),
    {
        Node { this_state, other_state, conflicts: Vec::new() }
    }

    /// The diff that would carry the other peer's tree to this one's.
    pub fn changes_for_other(&self) -> (r: FsStateDiff)
        requires
            self.wf(),
        ensures
            r.wf(),
            r@ == spec_diff(self.other_state@, self.this_state@),
    {
        self.other_state.diff(&self.this_state)
    }

    /// The outbound `Changes` message: the diff against the peer view,
    /// with the blobs journaled since the last drain.
    pub fn messages_for_other(&self, store: &mut ContentStore) -> (r: NodeMessage)
        requires
            self.wf(),
            old(store).wf(),
        ensures
            final(store).wf(),
            final(store).contents_map() == old(store).contents_map(),
            final(store).journal() == Seq::<ContentId>::empty(),
            r matches NodeMessage::Changes { new_content, diff } && diff.wf() && diff@ == spec_diff(
                self.other_state@,
                self.this_state@,
            ) && blob_views(new_content@) == journal_blobs(
                old(store).journal(),
                old(store).contents_map(),
            ),
    {
        let diff = self.changes_for_other();
        let new_content = take_new_blobs(store);
        NodeMessage::Changes { new_content, diff }
    }

    /// Learns from an acknowledgement: the accepted diff moves the peer
    /// view; this peer's own snapshot and conflict log stay.
    pub fn changes_acked_by_other(&mut self, diff: &FsStateDiff)
        requires
            old(self).wf(),
            diff.wf(),
        ensures
            final(self).wf(),
            final(self).other_state@ == spec_apply(diff@, old(self).other_state@),
            final(self).this_state@ == old(self).this_state@,
            final(self).conflicts@ == old(self).conflicts@,
    {
        let _ = self.other_state.apply_diff(diff);
    }

    /// Applies a received diff in memory: the peer view takes the whole
    /// diff, this peer's snapshot takes the non-conflicting part, the
    /// conflicting paths join the log, and the accepted subset is
    /// returned.
    pub fn apply_changes_from_other_mem(&mut self, diff: &FsStateDiff) -> (r: FsStateDiff)
        requires
            old(self).wf(),
            diff.wf(),
        ensures
            final(self).wf(),
            final(self).other_state@ == spec_apply(diff@, old(self).other_state@),
            final(self).this_state@ == spec_apply(diff@, old(self).this_state@),
            r.wf(),
            r@ == spec_accepted(diff@, old(self).this_state@),
            final(self).conflicts@.map_values(|q: FilePath| q@) == old(self).conflicts@.map_values(
                |q: FilePath| q@,
            ) + spec_conflict_seq(diff.files@, old(self).this_state@),
    {
        let ghost pf = |q: FilePath| q@;
        let _ = self.other_state.apply_diff(diff);
        let mut confl = self.this_state.apply_diff(diff);
        let accepted = filter_entries(diff, &confl);
        proof {
            assert forall|k: Seq<u8>|
                confl@.map_values(pf).to_set().contains(k) <==> spec_conflict_set(
                    diff@,
                    old(self).this_state@,
                ).contains(k) by {
                assert(confl@.map_values(pf).to_set().contains(k) == confl@.map_values(
                    pf,
                ).contains(k));
            }
            assert(confl@.map_values(pf).to_set() =~= spec_conflict_set(
                diff@,
                old(self).this_state@,
            ));
        }
        let ghost cs0 = self.conflicts@;
        self.conflicts.append(&mut confl);
        proof {
            assert(self.conflicts@.map_values(pf) =~= cs0.map_values(pf) + spec_conflict_seq(
                diff.files@,
                old(self).this_state@,
            ));
        }
        accepted
    }

    /// Handles one inbound message against in-memory state alone: a
    /// `Changes` ingests its blobs, applies the diff, and answers with
    /// the accepted subset; a `ChangesResponse` moves the peer view.
    pub fn handle_message_mem(&mut self, message: NodeMessage, store: &mut ContentStore) -> (r:
        Result<Option<NodeMessage>, SyncError>)
        requires
            old(self).wf(),
            old(store).wf(),
            message matches NodeMessage::Changes { new_content: _, diff } ==> diff.wf(),
            message matches NodeMessage::ChangesResponse { accepted_diff } ==> accepted_diff.wf(),
        ensures
            final(self).wf(),
            final(store).wf(),
            r is Ok,
            message matches NodeMessage::Changes { new_content, diff } ==> ({
                &&& (final(store).contents_map(), final(store).journal()) == spec_ingest(
                    (old(store).contents_map(), old(store).journal()),
                    blob_views(new_content@),
                )
                &&& final(self).other_state@ == spec_apply(diff@, old(self).other_state@)
                &&& final(self).this_state@ == spec_apply(diff@, old(self).this_state@)
                &&& final(self).conflicts@.map_values(|q: FilePath| q@) == old(self).conflicts@.map_values(|q: FilePath| q@) + spec_conflict_seq(
                    diff.files@,
                    old(self).this_state@,
                )
                &&& (r matches Ok(resp) && resp matches Some(m) && m
                    matches NodeMessage::ChangesResponse { accepted_diff } && accepted_diff.wf()
                    && accepted_diff@ == spec_accepted(diff@, old(self).this_state@))
            }),
            message matches NodeMessage::ChangesResponse { accepted_diff } ==> ({
                &&& *final(store) == *old(store)
                &&& final(self).other_state@ == spec_apply(
                    accepted_diff@,
                    old(self).other_state@,
                )
                &&& final(self).this_state@ == old(self).this_state@
                &&& final(self).conflicts@ == old(self).conflicts@
                &&& (r matches Ok(resp) && resp is None)
            }),
    {
        match message {
            NodeMessage::Changes { new_content, diff } => {
                ingest_blobs(store, &new_content);
                let accepted_diff = self.apply_changes_from_other_mem(&diff);
                Ok(Some(NodeMessage::ChangesResponse { accepted_diff }))
            },
            NodeMessage::ChangesResponse { accepted_diff } => {
                self.changes_acked_by_other(&accepted_diff);
                Ok(None)
            },
        }
    }

    /// Applies a received diff against per-entry disk observations: the
    /// non-conflicting part moves this peer's snapshot and becomes the
    /// accepted subset and the disk plan; conflicting paths join the
    /// log; the peer view does not move here.
    pub fn apply_changes_from_other_to_disk(
        &mut self,
        diff: &FsStateDiff,
        observed: &Vec<Option<FileMetadata>>,
        store: &ContentStore,
    ) -> (r: Result<(FsStateDiff, Vec<DiskAction>), SyncError>)
        requires
            old(self).wf(),
            diff.wf(),
            store.wf(),
            observed@.len() == diff.files@.len(),
        ensures
            final(self).wf(),
            r is Ok <==> (forall|j: int|
                0 <= j < diff.files@.len() ==> spec_entry_ready(
                    #[trigger] diff.files@[j].1,
                    observed@[j],
                    store.contents_map(),
                )),
            r matches Err(e) ==> e == SyncError::MissingContent && *final(self) == *old(self),
            r matches Ok((accepted, actions)) ==> ({
                &&& final(self).this_state@ == spec_disk_apply(
                    old(self).this_state@,
                    diff.files@,
                    observed@,
                )
                &&& final(self).other_state@ == old(self).other_state@
                &&& accepted.wf()
                &&& accepted@ == diff@.remove_keys(
                    spec_disk_conflicts(diff.files@, observed@).to_set(),
                )
                &&& final(self).conflicts@.map_values(|q: FilePath| q@) == old(self).conflicts@.map_values(|q: FilePath| q@) + spec_disk_conflicts(
                    diff.files@,
                    observed@,
                )
                &&& actions@.map_values(|a: DiskAction| action_view(a)) == spec_disk_plan(
                    diff.files@,
                    observed@,
                )
            }),
    {
        let ghost pf = |q: FilePath| q@;
        match self.this_state.apply_diff_to_disk(diff, observed, store) {
            Err(e) => Err(e),
            Ok((mut confl, actions)) => {
                let accepted = filter_entries(diff, &confl);
                let ghost cs0 = self.conflicts@;
                self.conflicts.append(&mut confl);
                proof {
                    assert(self.conflicts@.map_values(pf) =~= cs0.map_values(pf)
                        + spec_disk_conflicts(diff.files@, observed@));
                }
                Ok((accepted, actions))
            },
        }
    }

    /// Handles one inbound message against disk observations: a
    /// `Changes` ingests its blobs and plans the disk actions; a
    /// `ChangesResponse` moves the peer view and plans nothing.
    /// `observed` carries one observation per diff entry of a `Changes`
    /// message and is ignored otherwise.
    pub fn handle_message_disk(
        &mut self,
        message: NodeMessage,
        observed: &Vec<Option<FileMetadata>>,
        store: &mut ContentStore,
    ) -> (r: Result<(Option<NodeMessage>, Vec<DiskAction>), SyncError>)
        requires
            old(self).wf(),
            old(store).wf(),
            message matches NodeMessage::Changes { new_content: _, diff } ==> diff.wf()
                && observed@.len() == diff.files@.len(),
            message matches NodeMessage::ChangesResponse { accepted_diff } ==> accepted_diff.wf(),
        ensures
            final(self).wf(),
            final(store).wf(),
            message matches NodeMessage::Changes { new_content, diff } ==> ({
                let ing = spec_ingest(
                    (old(store).contents_map(), old(store).journal()),
                    blob_views(new_content@),
                );
                &&& (final(store).contents_map(), final(store).journal()) == ing
                &&& (r is Ok <==> (forall|j: int|
                    0 <= j < diff.files@.len() ==> spec_entry_ready(
                        #[trigger] diff.files@[j].1,
                        observed@[j],
                        ing.0,
                    )))
                &&& (r matches Err(e) ==> e == SyncError::MissingContent && final(self).this_state@ == old(self).this_state@ && final(self).other_state@ == old(self).other_state@ && final(self).conflicts@ == old(self).conflicts@)
                &&& (r matches Ok((resp, actions)) ==> ({
                    &&& final(self).this_state@ == spec_disk_apply(
                        old(self).this_state@,
                        diff.files@,
                        observed@,
                    )
                    &&& final(self).other_state@ == old(self).other_state@
                    &&& final(self).conflicts@.map_values(|q: FilePath| q@) == old(self).conflicts@.map_values(|q: FilePath| q@) + spec_disk_conflicts(
                        diff.files@,
                        observed@,
                    )
                    &&& (resp matches Some(m) && m matches NodeMessage::ChangesResponse {
                        accepted_diff,
                    } && accepted_diff.wf() && accepted_diff@ == diff@.remove_keys(
                        spec_disk_conflicts(diff.files@, observed@).to_set(),
                    ))
                    &&& actions@.map_values(|a: DiskAction| action_view(a)) == spec_disk_plan(
                        diff.files@,
                        observed@,
                    )
                }))
            }),
            message matches NodeMessage::ChangesResponse { accepted_diff } ==> ({
                &&& *final(store) == *old(store)
                &&& final(self).other_state@ == spec_apply(
                    accepted_diff@,
                    old(self).other_state@,
                )
                &&& final(self).this_state@ == old(self).this_state@
                &&& final(self).conflicts@ == old(self).conflicts@
                &&& (r matches Ok((resp, actions)) && resp is None && actions@.len() == 0)
            }),
    {
        match message {
            NodeMessage::Changes { new_content, diff } => {
                ingest_blobs(store, &new_content);
                match self.apply_changes_from_other_to_disk(&diff, observed, store) {
                    Err(e) => Err(e),
                    Ok((accepted_diff, actions)) => Ok(
                        (Some(NodeMessage::ChangesResponse { accepted_diff }), actions),
                    ),
                }
            },
            NodeMessage::ChangesResponse { accepted_diff } => {
                self.changes_acked_by_other(&accepted_diff);
                Ok((None, Vec::new()))
            },
        }
    }

    /// Folds a batch of refresh observations into this peer's snapshot
    /// and, when anything changed, packs the combined diff and the
    /// journaled blobs into an outbound `Changes` message.  The peer
    /// view is untouched.
    pub fn refresh_requests(
        &mut self,
        observations: &Vec<RefreshObservation>,
        store: &mut ContentStore,
    ) -> (r: Option<NodeMessage>)
        requires
            old(self).wf(),
            old(store).wf(),
        ensures
            final(self).wf(),
            final(store).wf(),
            final(self).other_state@ == old(self).other_state@,
            final(self).conflicts@ == old(self).conflicts@,
            ({
                let st = refresh_fold(
                    (old(self).this_state@, Map::<Seq<u8>, FileChange>::empty()),
                    observations@,
                );
                &&& final(self).this_state@ == st.0
                &&& (st.1 == Map::<Seq<u8>, FileChange>::empty() ==> r is None && *final(store)
                    == *old(store))
                &&& (st.1 != Map::<Seq<u8>, FileChange>::empty() ==> (r matches Some(m) && m
                    matches NodeMessage::Changes { new_content, diff } && diff.wf() && diff@ == st.1
                    && blob_views(new_content@) == journal_blobs(
                    old(store).journal(),
                    old(store).contents_map(),
                ) && final(store).contents_map() == old(store).contents_map() && final(store).journal() == Seq::<ContentId>::empty()))
            }),
    {
        let ghost s0 = old(self).this_state@;
        let mut combined: Vec<(FilePath, FileChange)> = Vec::new();
        let n = observations.len();
        let mut i: usize = 0;
        while i < n
            invariant
                self.wf(),
                store.wf(),
                *store == *old(store),
                self.other_state@ == old(self).other_state@,
                self.conflicts@ == old(self).conflicts@,
                s0 == old(self).this_state@,
                n == observations@.len(),
                0 <= i <= n,
                path_keys_distinct(combined@),
                (self.this_state@, path_map(combined@)) == refresh_fold(
                    (s0, Map::<Seq<u8>, FileChange>::empty()),
                    observations@.take(i as int),
                ),
            decreases n - i,
        {
            proof {
                assert(observations@.take(i + 1).drop_last() =~= observations@.take(i as int));
                assert(observations@.take(i + 1).last() == observations@[i as int]);
            }
            let ob = &observations[i];
            match ob {
                RefreshObservation::Path { path, observed } => {
                    match self.this_state.refresh_path(path, observed) {
                        Some((fp, c)) => {
                            crate::state::pm_insert(&mut combined, fp, c);
                        },
                        None => {},
                    }
                },
                RefreshObservation::Rescan { missing, found } => {
                    let sub = self.this_state.refresh_full_rescan(missing, found);
                    let ghost comb0 = path_map(combined@);
                    let m = sub.files.len();
                    let mut t: usize = 0;
                    while t < m
                        invariant
                            sub.wf(),
                            m == sub.files@.len(),
                            0 <= t <= m,
                            path_keys_distinct(combined@),
                            path_map(combined@) == comb0.union_prefer_right(
                                path_map(sub.files@.take(t as int)),
                            ),
                        decreases m - t,
                    {
                        proof {
                            assert(sub.files@.take(t + 1).drop_last() =~= sub.files@.take(
                                t as int,
                            ));
                            assert(sub.files@.take(t + 1).last() == sub.files@[t as int]);
                            assert(comb0.union_prefer_right(
                                path_map(sub.files@.take(t as int)),
                            ).insert(sub.files@[t as int].0@, sub.files@[t as int].1)
                                =~= comb0.union_prefer_right(path_map(sub.files@.take(t + 1))));
                        }
                        let pc = sub.files[t].0.clone();
                        let cc = sub.files[t].1;
                        crate::state::pm_insert(&mut combined, pc, cc);
                        t += 1;
                    }
                    proof {
                        assert(sub.files@.take(m as int) =~= sub.files@);
                    }
                },
            }
            i += 1;
        }
        proof {
            assert(observations@.take(n as int) =~= observations@);
        }
        let ghost st = refresh_fold(
            (old(self).this_state@, Map::<Seq<u8>, FileChange>::empty()),
            observations@,
        );
        let diff = FsStateDiff { files: combined };
        if diff.is_empty() {
            proof {
                assert(st.1 =~= Map::<Seq<u8>, FileChange>::empty());
            }
            return None;
        }
        let new_content = take_new_blobs(store);
        Some(NodeMessage::Changes { new_content, diff })
    }

    /// Some received change has conflicted since this peer started.
    pub fn has_conflicts(&self) -> (r: bool)
        ensures
            r == (self.conflicts@.len() != 0),
    {
        self.conflicts.len() != 0
    }

    /// The peer believes both trees hold the same files.
    pub fn is_settle(&self) -> (r: bool)
        requires
            self.wf(),
        ensures
            r == (self.this_state@ == self.other_state@),
    {
        self.this_state.same_as(&self.other_state)
    }
}

/// Law (journal of first insertions): after ingesting any list of blobs
/// into a store with a drained journal, the journal holds exactly the
/// digests that were not in the store before and arrived in the list,
/// each once; and the store then holds every digest of the list.
pub proof fn lemma_ingest_journal(m: Map<ContentId, Seq<u8>>, blobs: Seq<Seq<u8>>)
    ensures
        ({
            let r = spec_ingest((m, Seq::<ContentId>::empty()), blobs);
            &&& (forall|id: ContentId|
                #![trigger r.0.contains_key(id)]
                r.0.contains_key(id) <==> (m.contains_key(id) || exists|b: int|
                    0 <= b < blobs.len() && digest_of(blobs[b]) == id))
            &&& (forall|id: ContentId|
                #![trigger r.1.contains(id)]
                r.1.contains(id) <==> (!m.contains_key(id) && exists|b: int|
                    0 <= b < blobs.len() && digest_of(blobs[b]) == id))
            &&& (forall|t1: int, t2: int| 0 <= t1 < t2 < r.1.len() ==> r.1[t1] != r.1[t2])
        }),
    decreases blobs.len(),
{
    let r = spec_ingest((m, Seq::<ContentId>::empty()), blobs);
    if blobs.len() > 0 {
        lemma_ingest_journal(m, blobs.drop_last());
        let prev = spec_ingest((m, Seq::<ContentId>::empty()), blobs.drop_last());
        let last_id = digest_of(blobs.last());
        assert forall|id: ContentId|
            #![trigger r.0.contains_key(id)]
            r.0.contains_key(id) <==> (m.contains_key(id) || exists|b: int|
                0 <= b < blobs.len() && digest_of(blobs[b]) == id) by {
            if r.0.contains_key(id) {
                if id != last_id {
                    assert(prev.0.contains_key(id));
                    if !m.contains_key(id) {
                        let b = choose|b: int|
                            0 <= b < blobs.drop_last().len() && digest_of(
                                blobs.drop_last()[b],
                            ) == id;
                        assert(digest_of(blobs[b]) == id);
                    }
                } else {
                    assert(digest_of(blobs[blobs.len() - 1]) == id);
                }
            }
            if !m.contains_key(id) && exists|b: int|
                0 <= b < blobs.len() && digest_of(blobs[b]) == id {
                let b = choose|b: int| 0 <= b < blobs.len() && digest_of(blobs[b]) == id;
                if b < blobs.len() - 1 {
                    assert(digest_of(blobs.drop_last()[b]) == id);
                    assert(prev.0.contains_key(id));
                }
            }
        }
        assert forall|id: ContentId|
            #![trigger r.1.contains(id)]
            r.1.contains(id) <==> (!m.contains_key(id) && exists|b: int|
                0 <= b < blobs.len() && digest_of(blobs[b]) == id) by {
            if r.1.contains(id) {
                let t = choose|t: int| 0 <= t < r.1.len() && r.1[t] == id;
                if t < prev.1.len() {
                    assert(prev.1.contains(id));
                    let b = choose|b: int|
                        0 <= b < blobs.drop_last().len() && digest_of(blobs.drop_last()[b]) == id;
                    assert(digest_of(blobs[b]) == id);
                } else {
                    assert(id == last_id && !prev.0.contains_key(last_id));
                    assert(digest_of(blobs[blobs.len() - 1]) == id);
                }
            }
            if !m.contains_key(id) && exists|b: int|
                0 <= b < blobs.len() && digest_of(blobs[b]) == id {
                let b = choose|b: int| 0 <= b < blobs.len() && digest_of(blobs[b]) == id;
                if b < blobs.len() - 1 {
                    assert(digest_of(blobs.drop_last()[b]) == id);
                    assert(prev.1.contains(id));
                    let t = choose|t: int| 0 <= t < prev.1.len() && prev.1[t] == id;
                    assert(r.1[t] == id);
                } else {
                    if prev.0.contains_key(id) {
                        assert(prev.1.contains(id));
                        let t = choose|t: int| 0 <= t < prev.1.len() && prev.1[t] == id;
                        assert(r.1[t] == id);
                    } else {
                        assert(r.1[r.1.len() - 1] == id);
                    }
                }
            }
        }
        assert forall|t1: int, t2: int|
            0 <= t1 < t2 < r.1.len() implies r.1[t1] != r.1[t2] by {
            if t2 == r.1.len() - 1 && r.1.len() > prev.1.len() {
                assert(!prev.0.contains_key(last_id));
                assert(r.1[t1] == prev.1[t1]);
                if prev.1[t1] == last_id {
                    assert(prev.1.contains(last_id));
                    let b = choose|b: int|
                        0 <= b < blobs.drop_last().len() && digest_of(blobs.drop_last()[b])
                            == last_id;
                    assert(prev.0.contains_key(last_id));
                }
            } else {
                assert(r.1[t1] == prev.1[t1]);
                assert(r.1[t2] == prev.1[t2]);
            }
        }
    }
}

/// A path a diff does not touch reads the same in base and target.
pub proof fn lemma_diff_omits_agreeing(
    s: Map<Seq<u8>, FileMetadata>,
    t: Map<Seq<u8>, FileMetadata>,
    k: Seq<u8>,
)
    requires
        !spec_diff(s, t).contains_key(k),
    ensures
        key_opt(t, k) == key_opt(s, k) || (key_opt(s, k) matches Some(o) && key_opt(t, k)
            matches Some(n) && o.content_hash == n.content_hash),
{
}

/// Law (disjoint edits): when two peers edit disjoint path sets from a
/// common snapshot, each peer's diff applies over the other's snapshot
/// without conflict, and the two applications meet in the same
/// snapshot.
pub proof fn lemma_disjoint_edits_converge(
    s: Map<Seq<u8>, FileMetadata>,
    sa: Map<Seq<u8>, FileMetadata>,
    sb: Map<Seq<u8>, FileMetadata>,
)
    requires
        spec_diff(s, sa).dom().disjoint(spec_diff(s, sb).dom()),
    ensures
        spec_conflict_set(spec_diff(s, sa), sb).is_empty(),
        spec_conflict_set(spec_diff(s, sb), sa).is_empty(),
        spec_apply(spec_diff(s, sa), sb) == spec_apply(spec_diff(s, sb), sa),
{
    let da = spec_diff(s, sa);
    let db = spec_diff(s, sb);
    assert forall|k: Seq<u8>| da.contains_key(k) implies !spec_conflicts(
        da[k],
        key_opt(sb, k),
    ) by {
        assert(!db.contains_key(k));
        lemma_diff_omits_agreeing(s, sb, k);
    }
    assert forall|k: Seq<u8>| db.contains_key(k) implies !spec_conflicts(
        db[k],
        key_opt(sa, k),
    ) by {
        assert(!da.contains_key(k));
        lemma_diff_omits_agreeing(s, sa, k);
    }
    assert(spec_conflict_set(da, sb) =~= Set::<Seq<u8>>::empty());
    assert(spec_conflict_set(db, sa) =~= Set::<Seq<u8>>::empty());
    assert forall|k: Seq<u8>|
        #![trigger spec_apply(da, sb).contains_key(k)]
        crate::state::spec_apply_at(da, sb, k) == crate::state::spec_apply_at(db, sa, k) by {
        if da.contains_key(k) {
            assert(!db.contains_key(k));
            lemma_diff_omits_agreeing(s, sb, k);
        } else if db.contains_key(k) {
            lemma_diff_omits_agreeing(s, sa, k);
        } else {
            lemma_diff_omits_agreeing(s, sa, k);
            lemma_diff_omits_agreeing(s, sb, k);
        }
    }
    assert(spec_apply(da, sb) =~= spec_apply(db, sa));
}

/// Law (disjoint exchange settles): from a common snapshot `s`, peers
/// holding `sa` and `sb` with disjoint edits exchange one `Changes` and
/// one `ChangesResponse` each; every application is conflict-free, both
/// accepted sets are whole diffs, and afterwards each peer's snapshot
/// equals its peer view, the same on both sides.
pub proof fn lemma_disjoint_exchange_settles(
    s: Map<Seq<u8>, FileMetadata>,
    sa: Map<Seq<u8>, FileMetadata>,
    sb: Map<Seq<u8>, FileMetadata>,
)
    requires
        spec_diff(s, sa).dom().disjoint(spec_diff(s, sb).dom()),
    ensures
        ({
            let da = spec_diff(s, sa);
            let db = spec_diff(s, sb);
            &&& spec_conflict_set(da, sb).is_empty()
            &&& spec_conflict_set(db, sa).is_empty()
            &&& spec_conflict_set(da, s).is_empty()
            &&& spec_conflict_set(db, s).is_empty()
            &&& spec_accepted(da, sb) == da
            &&& spec_accepted(db, sa) == db
            &&& spec_apply(db, sa) == spec_apply(da, spec_apply(db, s))
            &&& spec_apply(da, sb) == spec_apply(db, spec_apply(da, s))
            &&& spec_apply(db, sa) == spec_apply(da, sb)
        }),
{
    let da = spec_diff(s, sa);
    let db = spec_diff(s, sb);
    lemma_disjoint_edits_converge(s, sa, sb);
    crate::state::lemma_diff_then_apply(s, sa);
    crate::state::lemma_diff_then_apply(s, sb);
    assert(spec_accepted(da, sb) =~= da);
    assert(spec_accepted(db, sa) =~= db);
    assert(spec_apply(db, spec_apply(da, s)) == spec_apply(db, sa));
    assert(spec_apply(da, spec_apply(db, s)) == spec_apply(da, sb));
}

/// Law (same-content create converges): when both peers create the same
/// path with identical content, each one's diff is accepted whole by the
/// other and changes nothing there, so the peers converge without
/// conflict.
pub proof fn lemma_same_create_converges(s: Map<Seq<u8>, FileMetadata>, k: Seq<u8>, m: FileMetadata)
    requires
        !s.contains_key(k),
    ensures
        ({
            let sa = s.insert(k, m);
            let d = spec_diff(s, sa);
            &&& spec_conflict_set(d, sa).is_empty()
            &&& spec_apply(d, sa) == sa
            &&& spec_accepted(d, sa) == d
        }),
{
    let sa = s.insert(k, m);
    let d = spec_diff(s, sa);
    assert forall|x: Seq<u8>| d.contains_key(x) implies !spec_conflicts(
        d[x],
        key_opt(sa, x),
    ) by {
        assert(x == k);
    }
    assert(spec_conflict_set(d, sa) =~= Set::<Seq<u8>>::empty());
    assert(spec_accepted(d, sa) =~= d);
    assert forall|x: Seq<u8>|
        #![trigger spec_apply(d, sa).contains_key(x)]
        crate::state::spec_apply_at(d, sa, x) == key_opt(sa, x) by {}
    assert(spec_apply(d, sa) =~= sa);
}

/// Law (divergent writes conflict): when both peers write different
/// content to the same path, neither content matching what stood there
/// before, each peer's change conflicts on the other's snapshot, both
/// accepted sets exclude the path, and each side keeps its own value.
pub proof fn lemma_divergent_writes_conflict(
    s: Map<Seq<u8>, FileMetadata>,
    k: Seq<u8>,
    m1: FileMetadata,
    m2: FileMetadata,
)
    requires
        m1.content_hash != m2.content_hash,
        key_opt(s, k) matches Some(o) ==> o.content_hash != m1.content_hash && o.content_hash
            != m2.content_hash,
    ensures
        ({
            let sa = s.insert(k, m1);
            let sb = s.insert(k, m2);
            let da = spec_diff(s, sa);
            let db = spec_diff(s, sb);
            &&& da.contains_key(k) && db.contains_key(k)
            &&& spec_conflict_set(da, sb).contains(k)
            &&& spec_conflict_set(db, sa).contains(k)
            &&& !spec_accepted(da, sb).contains_key(k)
            &&& !spec_accepted(db, sa).contains_key(k)
            &&& spec_apply(da, sb) == sb
            &&& spec_apply(db, sa) == sa
            &&& spec_apply(da, sb)[k].content_hash != spec_apply(db, sa)[k].content_hash
        }),
{
    let sa = s.insert(k, m1);
    let sb = s.insert(k, m2);
    let da = spec_diff(s, sa);
    let db = spec_diff(s, sb);
    assert(spec_conflicts(da[k], key_opt(sb, k)));
    assert(spec_conflicts(db[k], key_opt(sa, k)));
    assert forall|x: Seq<u8>|
        #![trigger spec_apply(da, sb).contains_key(x)]
        crate::state::spec_apply_at(da, sb, x) == key_opt(sb, x) by {
        if x != k {
            assert(!da.contains_key(x));
        }
    }
    assert(spec_apply(da, sb) =~= sb);
    assert forall|x: Seq<u8>|
        #![trigger spec_apply(db, sa).contains_key(x)]
        crate::state::spec_apply_at(db, sa, x) == key_opt(sa, x) by {
        if x != k {
            assert(!db.contains_key(x));
        }
    }
    assert(spec_apply(db, sa) =~= sa);
}

} // verus!
