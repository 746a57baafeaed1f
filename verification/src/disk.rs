//! Applying a diff against observed on-disk state, as a plan of disk
//! actions the caller performs.

use vstd::prelude::*;

use crate::path::FilePath;
use crate::state::spec_conflicts;
use crate::state::FileChange;
use crate::state::FsState;
use crate::state::FsStateDiff;
use crate::store::ContentId;
use crate::store::ContentStore;
use crate::store::FileMetadata;
use crate::store::SyncError;

verus! {

/// One action the caller must perform on disk to realize a change.
#[derive(Debug)]
pub enum DiskAction {
    /// Delete the file at `path`; a file already gone is tolerated.
    Delete { path: FilePath },
    /// Write the blob stored under `content` to `path`, creating parent
    /// directories as needed.
    Write { path: FilePath, content: ContentId },
}

/// An action as a plain value: its path and the content to write, or
/// `None` for a deletion.
pub open spec fn action_view(a: DiskAction) -> (Seq<u8>, Option<ContentId>) {
    match a {
        DiskAction::Delete { path } => (path@, None),
        DiskAction::Write { path, content } => (path@, Some(content)),
    }
}

/// The content a change installs, if any.
pub open spec fn spec_new_content(c: FileChange) -> Option<ContentId> {
    match c {
        FileChange::Removed { .. } => None,
        FileChange::Created { meta } => Some(meta.content_hash),
        FileChange::Modified { new_meta, .. } => Some(new_meta.content_hash),
    }
}

/// An entry can be acted on: it conflicts (and is skipped), or the blob
/// it installs, if any, is in the store.
pub open spec fn spec_entry_ready(
    c: FileChange,
    ob: Option<FileMetadata>,
    store: Map<ContentId, Seq<u8>>,
) -> bool {
    spec_conflicts(c, ob) || match spec_new_content(c) {
        Some(id) => store.contains_key(id),
        None => true,
    }
}

/// The conflicting paths of a diff's entries against the observations
/// made for them, in entry order.
pub open spec fn spec_disk_conflicts(
    entries: Seq<(FilePath, FileChange)>,
    obs: Seq<Option<FileMetadata>>,
) -> Seq<Seq<u8>>
    recommends
        obs.len() == entries.len(),
    decreases entries.len(),
{
    if entries.len() == 0 {
        Seq::empty()
    } else {
        let rest = spec_disk_conflicts(entries.drop_last(), obs.drop_last());
        if spec_conflicts(entries.last().1, obs.last()) {
            rest.push(entries.last().0@)
        } else {
            rest
        }
    }
}

/// The snapshot after folding in every entry that did not conflict with
/// its observation.
pub open spec fn spec_disk_apply(
    s: Map<Seq<u8>, FileMetadata>,
    entries: Seq<(FilePath, FileChange)>,
    obs: Seq<Option<FileMetadata>>,
) -> Map<Seq<u8>, FileMetadata>
    recommends
        obs.len() == entries.len(),
    decreases entries.len(),
{
    if entries.len() == 0 {
        s
    } else {
        let prev = spec_disk_apply(s, entries.drop_last(), obs.drop_last());
        if spec_conflicts(entries.last().1, obs.last()) {
            prev
        } else {
            match entries.last().1 {
                FileChange::Removed { .. } => prev.remove(entries.last().0@),
                FileChange::Created { meta } => prev.insert(entries.last().0@, meta),
                FileChange::Modified { new_meta, .. } => prev.insert(entries.last().0@, new_meta),
            }
        }
    }
}

/// The disk actions for every entry that did not conflict with its
/// observation, in entry order, as plain values.
pub open spec fn spec_disk_plan(
    entries: Seq<(FilePath, FileChange)>,
    obs: Seq<Option<FileMetadata>>,
) -> Seq<(Seq<u8>, Option<ContentId>)>
    recommends
        obs.len() == entries.len(),
    decreases entries.len(),
{
    if entries.len() == 0 {
        Seq::empty()
    } else {
        let rest = spec_disk_plan(entries.drop_last(), obs.drop_last());
        if spec_conflicts(entries.last().1, obs.last()) {
            rest
        } else {
            rest.push((entries.last().0@, spec_new_content(entries.last().1)))
        }
    }
}

impl FsState {
    /// Applies `diff` over this snapshot against per-entry observations
    /// of the disk, returning the conflicting paths and the disk actions
    /// to perform.  `observed[j]` is what the disk held at the path of
    /// entry `j` of the diff.  Fails with `MissingContent`, changing
    /// nothing, when a non-conflicting entry installs a blob the store
    /// does not hold.
    pub fn apply_diff_to_disk(
        &mut self,
        diff: &FsStateDiff,
        observed: &Vec<Option<FileMetadata>>,
        store: &ContentStore,
    ) -> (r: Result<(Vec<FilePath>, Vec<DiskAction>), SyncError>)
        requires
            old(self).wf(),
            diff.wf(),
            store.wf(),
            observed@.len() == diff.files@.len(),
        ensures
            r is Ok <==> (forall|j: int|
                0 <= j < diff.files@.len() ==> spec_entry_ready(
                    #[trigger] diff.files@[j].1,
                    observed@[j],
                    store.contents_map(),
                )),
            r matches Err(e) ==> e == SyncError::MissingContent && *final(self) == *old(self),
            r matches Ok((conflicts, actions)) ==> final(self).wf() && final(self)@
                == spec_disk_apply(old(self)@, diff.files@, observed@) && conflicts@.map_values(
                |p: FilePath| p@,
            ) == spec_disk_conflicts(diff.files@, observed@) && actions@.map_values(
                |a: DiskAction| action_view(a),
            ) == spec_disk_plan(diff.files@, observed@) && (forall|t: int|
                0 <= t < actions@.len() ==> ((#[trigger] action_view(actions@[t])).1 matches Some(
                    id,
                ) ==> store.contents_map().contains_key(id))),
    {
        let n = diff.files.len();
        let mut j: usize = 0;
        while j < n
            invariant
                diff.wf(),
                store.wf(),
                n == diff.files@.len(),
                observed@.len() == n,
                0 <= j <= n,
                *self == *old(self),
                forall|jj: int|
                    0 <= jj < j ==> spec_entry_ready(
                        #[trigger] diff.files@[jj].1,
                        observed@[jj],
                        store.contents_map(),
                    ),
            decreases n - j,
        {
            let c = diff.files[j].1;
            let ob = observed[j];
            if !c.conflicts(ob) {
                match c {
                    FileChange::Removed { .. } => {},
                    FileChange::Created { meta } => {
                        if !store.has(&meta.content_hash) {
                            return Err(SyncError::MissingContent);
                        }
                    },
                    FileChange::Modified { new_meta, .. } => {
                        if !store.has(&new_meta.content_hash) {
                            return Err(SyncError::MissingContent);
                        }
                    },
                }
            }
            j += 1;
        }
        let ghost s0 = old(self)@;
        let mut conflicts: Vec<FilePath> = Vec::new();
        let mut actions: Vec<DiskAction> = Vec::new();
        let ghost pf = |p: FilePath| p@;
        let ghost avf = |a: DiskAction| action_view(a);
        let mut i: usize = 0;
        while i < n
            invariant
                self.wf(),
                diff.wf(),
                store.wf(),
                n == diff.files@.len(),
                observed@.len() == n,
                0 <= i <= n,
                s0 == old(self)@,
                pf == (|p: FilePath| p@),
                avf == (|a: DiskAction| action_view(a)),
                self@ == spec_disk_apply(s0, diff.files@.take(i as int), observed@.take(i as int)),
                conflicts@.map_values(pf) == spec_disk_conflicts(
                    diff.files@.take(i as int),
                    observed@.take(i as int),
                ),
                actions@.map_values(avf) == spec_disk_plan(
                    diff.files@.take(i as int),
                    observed@.take(i as int),
                ),
                forall|jj: int|
                    0 <= jj < n ==> spec_entry_ready(
                        #[trigger] diff.files@[jj].1,
                        observed@[jj],
                        store.contents_map(),
                    ),
                forall|t: int|
                    0 <= t < actions@.len() ==> ((#[trigger] action_view(actions@[t])).1 matches Some(
                        id,
                    ) ==> store.contents_map().contains_key(id)),
            decreases n - i,
        {
            let p = &diff.files[i].0;
            let c = diff.files[i].1;
            let ob = observed[i];
            proof {
                assert(diff.files@.take(i + 1).drop_last() =~= diff.files@.take(i as int));
                assert(observed@.take(i + 1).drop_last() =~= observed@.take(i as int));
                assert(diff.files@.take(i + 1).last() == diff.files@[i as int]);
                assert(observed@.take(i + 1).last() == observed@[i as int]);
            }
            if c.conflicts(ob) {
                let ghost cs0 = conflicts@;
                conflicts.push(p.clone());
                proof {
                    assert(conflicts@.map_values(pf) =~= cs0.map_values(pf).push(p@));
                }
            } else {
                let ghost as0 = actions@;
                match c {
                    FileChange::Removed { .. } => {
                        self.remove_file(p);
                        actions.push(DiskAction::Delete { path: p.clone() });
                    },
                    FileChange::Created { meta } => {
                        self.insert_file(p.clone(), meta.content_hash);
                        actions.push(
                            DiskAction::Write { path: p.clone(), content: meta.content_hash },
                        );
                    },
                    FileChange::Modified { new_meta, .. } => {
                        self.insert_file(p.clone(), new_meta.content_hash);
                        actions.push(
                            DiskAction::Write { path: p.clone(), content: new_meta.content_hash },
                        );
                    },
                }
                proof {
                    assert(actions@.map_values(avf) =~= as0.map_values(avf).push(
                        (p@, spec_new_content(c)),
                    ));
                    assert(spec_entry_ready(c, observed@[i as int], store.contents_map()));
                }
            }
            i += 1;
        }
        proof {
            assert(diff.files@.take(n as int) =~= diff.files@);
            assert(observed@.take(n as int) =~= observed@);
        }
        Ok((conflicts, actions))
    }
}

} // verus!
