//! Snapshots of a file tree and diffs between them.

use vstd::prelude::*;

use crate::path::FilePath;
use crate::store::ContentId;
use crate::store::FileMetadata;

verus! {

/// One change to one path.
#[derive(Clone, Copy, PartialEq, Eq, Structural, Debug)]
pub enum FileChange {
    Removed { old_meta: FileMetadata },
    Created { meta: FileMetadata },
    Modified { old_meta: FileMetadata, new_meta: FileMetadata },
}

/// The finite map held by a sequence of (path, value) entries; a later
/// entry with the same path wins.
pub open spec fn path_map<V>(s: Seq<(FilePath, V)>) -> Map<Seq<u8>, V>
    decreases s.len(),
{
    if s.len() == 0 {
        Map::empty()
    } else {
        path_map(s.drop_last()).insert(s.last().0@, s.last().1)
    }
}

/// No two entries name the same path.
pub open spec fn path_keys_distinct<V>(s: Seq<(FilePath, V)>) -> bool {
    forall|i: int, j: int| 0 <= i < j < s.len() ==> s[i].0@ != s[j].0@
}

/// A path is in the map exactly when some entry names it.
pub proof fn lemma_path_map_contains<V>(s: Seq<(FilePath, V)>, k: Seq<u8>)
    ensures
        path_map(s).contains_key(k) <==> exists|i: int| 0 <= i < s.len() && s[i].0@ == k,
    decreases s.len(),
{
    if s.len() > 0 {
        lemma_path_map_contains(s.drop_last(), k);
        if path_map(s).contains_key(k) {
            if s.last().0@ == k {
                assert(s[s.len() - 1].0@ == k);
            } else {
                let i = choose|i: int| 0 <= i < s.drop_last().len() && s.drop_last()[i].0@ == k;
                assert(s[i].0@ == k);
            }
        }
        if exists|i: int| 0 <= i < s.len() && s[i].0@ == k {
            let i = choose|i: int| 0 <= i < s.len() && s[i].0@ == k;
            if i < s.len() - 1 {
                assert(s.drop_last()[i].0@ == k);
            }
        }
    }
}

/// With distinct paths, each entry's value is the map's value at its path.
pub proof fn lemma_path_map_index<V>(s: Seq<(FilePath, V)>, i: int)
    requires
        path_keys_distinct(s),
        0 <= i < s.len(),
    ensures
        path_map(s).contains_key(s[i].0@),
        path_map(s)[s[i].0@] == s[i].1,
    decreases s.len(),
{
    if i < s.len() - 1 {
        lemma_path_map_index(s.drop_last(), i);
        assert(s.drop_last()[i] == s[i]);
        assert(s.last().0@ != s[i].0@);
    }
}

/// Updating the entry that names a path updates the map at that path.
pub proof fn lemma_path_map_update<V>(s: Seq<(FilePath, V)>, i: int, e: (FilePath, V))
    requires
        path_keys_distinct(s),
        0 <= i < s.len(),
        s[i].0@ == e.0@,
    ensures
        path_map(s.update(i, e)) == path_map(s).insert(e.0@, e.1),
    decreases s.len(),
{
    if i == s.len() - 1 {
        assert(s.update(i, e).drop_last() =~= s.drop_last());
        assert(s.update(i, e).last() == e);
        assert(path_map(s.update(i, e)) =~= path_map(s).insert(e.0@, e.1));
    } else {
        lemma_path_map_update(s.drop_last(), i, e);
        assert(s.update(i, e).drop_last() =~= s.drop_last().update(i, e));
        assert(s.update(i, e).last() == s.last());
        assert(s.last().0@ != e.0@);
        assert(path_map(s.update(i, e)) =~= path_map(s).insert(e.0@, e.1));
    }
}

/// Dropping the entry that names a path removes that path from the map.
pub proof fn lemma_path_map_remove_idx<V>(s: Seq<(FilePath, V)>, i: int)
    requires
        path_keys_distinct(s),
        0 <= i < s.len(),
    ensures
        path_map(s.remove(i)) == path_map(s).remove(s[i].0@),
    decreases s.len(),
{
    lemma_path_map_contains(s.drop_last(), s[i].0@);
    if i == s.len() - 1 {
        assert(s.remove(i) =~= s.drop_last());
        assert(!path_map(s.drop_last()).contains_key(s[i].0@));
        assert(path_map(s.drop_last()) =~= path_map(s).remove(s[i].0@));
    } else {
        lemma_path_map_remove_idx(s.drop_last(), i);
        assert(s.remove(i).drop_last() =~= s.drop_last().remove(i));
        assert(s.remove(i).last() == s.last());
        assert(s.remove(i).len() > 0);
        assert(s.last().0@ != s[i].0@);
        assert(path_map(s.remove(i)) == path_map(s.remove(i).drop_last()).insert(
            s.last().0@,
            s.last().1,
        ));
        assert(path_map(s.remove(i)) =~= path_map(s).remove(s[i].0@));
    }
}

/// With distinct paths the map has exactly one key per entry.
pub proof fn lemma_path_map_len<V>(s: Seq<(FilePath, V)>)
    requires
        path_keys_distinct(s),
    ensures
        path_map(s).dom().finite(),
        path_map(s).dom().len() == s.len(),
    decreases s.len(),
{
    if s.len() > 0 {
        lemma_path_map_len(s.drop_last());
        lemma_path_map_contains(s.drop_last(), s.last().0@);
        assert(!path_map(s.drop_last()).contains_key(s.last().0@));
        assert(path_map(s).dom() =~= path_map(s.drop_last()).dom().insert(s.last().0@));
    }
}

/// Index of the entry naming `p`, if any.
fn pm_find<V>(entries: &Vec<(FilePath, V)>, p: &FilePath) -> (r: Option<usize>)
    ensures
        match r {
            Some(i) => i < entries@.len() && entries@[i as int].0@ == p@,
            None => forall|i: int| 0 <= i < entries@.len() ==> entries@[i].0@ != p@,
        },
{
    let n = entries.len();
    let mut i: usize = 0;
    while i < n
        invariant
            n == entries@.len(),
            0 <= i <= n,
            forall|j: int| 0 <= j < i ==> entries@[j].0@ != p@,
        decreases n - i,
    {
        if entries[i].0.eq_path(p) {
            return Some(i);
        }
        i += 1;
    }
    None
}

/// The value stored under `p`, if any.
fn pm_get<'a, V>(entries: &'a Vec<(FilePath, V)>, p: &FilePath) -> (r: Option<&'a V>)
    requires
        path_keys_distinct(entries@),
    ensures
        match r {
            Some(v) => path_map(entries@).contains_key(p@) && *v == path_map(entries@)[p@],
            None => !path_map(entries@).contains_key(p@),
        },
{
    proof {
        lemma_path_map_contains(entries@, p@);
    }
    match pm_find(entries, p) {
        Some(i) => {
            proof {
                lemma_path_map_index(entries@, i as int);
            }
            Some(&entries[i].1)
        },
        None => None,
    }
}

/// Binds `p` to `v`, replacing any earlier binding.
pub(crate) fn pm_insert<V>(entries: &mut Vec<(FilePath, V)>, p: FilePath, v: V)
    requires
        path_keys_distinct(old(entries)@),
    ensures
        path_keys_distinct(final(entries)@),
        path_map(final(entries)@) == path_map(old(entries)@).insert(p@, v),
{
    match pm_find(entries, &p) {
        Some(i) => {
            proof {
                lemma_path_map_update(entries@, i as int, (p, v));
            }
            let ghost s0 = entries@;
            entries.set(i, (p, v));
            proof {
                assert forall|a: int, b: int|
                    0 <= a < b < entries@.len() implies entries@[a].0@ != entries@[b].0@ by {
                    assert(s0[a].0@ != s0[b].0@);
                    assert(entries@[a].0@ == if a == i { s0[a].0@ } else { s0[a].0@ });
                }
            }
        },
        None => {
            entries.push((p, v));
            proof {
                let s = entries@;
                assert(s.drop_last() =~= old(entries)@);
                assert(s.last().0@ == p@);
            }
        },
    }
}

/// Drops any binding of `p`.
fn pm_remove<V>(entries: &mut Vec<(FilePath, V)>, p: &FilePath)
    requires
        path_keys_distinct(old(entries)@),
    ensures
        path_keys_distinct(final(entries)@),
        path_map(final(entries)@) == path_map(old(entries)@).remove(p@),
{
    proof {
        lemma_path_map_contains(entries@, p@);
    }
    match pm_find(entries, p) {
        Some(i) => {
            proof {
                lemma_path_map_remove_idx(entries@, i as int);
            }
            let ghost s0 = entries@;
            let _ = entries.remove(i);
            proof {
                assert forall|a: int, b: int|
                    0 <= a < b < entries@.len() implies entries@[a].0@ != entries@[b].0@ by {
                    assert(entries@[a] == if a < i { s0[a] } else { s0[a + 1] });
                    assert(entries@[b] == if b < i { s0[b] } else { s0[b + 1] });
                }
            }
        },
        None => {
            proof {
                assert(path_map(entries@) =~= path_map(entries@).remove(p@));
            }
        },
    }
}

/// The metadata a snapshot map records at `k`, if any.
pub open spec fn key_opt(m: Map<Seq<u8>, FileMetadata>, k: Seq<u8>) -> Option<FileMetadata> {
    if m.contains_key(k) {
        Some(m[k])
    } else {
        None
    }
}

/// The change, if any, that carries `base` to `target` at path `k`.
pub open spec fn spec_change_at(
    base: Map<Seq<u8>, FileMetadata>,
    target: Map<Seq<u8>, FileMetadata>,
    k: Seq<u8>,
) -> Option<FileChange> {
    match (key_opt(base, k), key_opt(target, k)) {
        (Some(o), Some(n)) => if o.content_hash != n.content_hash {
            Some(FileChange::Modified { old_meta: o, new_meta: n })
        } else {
            None
        },
        (Some(o), None) => Some(FileChange::Removed { old_meta: o }),
        (None, Some(n)) => Some(FileChange::Created { meta: n }),
        (None, None) => None,
    }
}

/// The diff that carries `base` to `target`: for every path in either
/// snapshot, a change where the contents differ, nothing where they agree.
pub open spec fn spec_diff(
    base: Map<Seq<u8>, FileMetadata>,
    target: Map<Seq<u8>, FileMetadata>,
) -> Map<Seq<u8>, FileChange> {
    Map::new(
        |k: Seq<u8>| spec_change_at(base, target, k) is Some,
        |k: Seq<u8>| spec_change_at(base, target, k).unwrap(),
    )
}

/// The conflict predicate: whether `c` may not be applied over an observed
/// current state `cur`.  A missing file conflicts with a modification; a
/// change whose outcome or precondition matches the observed content does
/// not conflict.
pub open spec fn spec_conflicts(c: FileChange, cur: Option<FileMetadata>) -> bool {
    match (cur, c) {
        (Some(m), FileChange::Removed { old_meta }) => m.content_hash != old_meta.content_hash,
        (None, FileChange::Removed { .. }) => false,
        (None, FileChange::Created { .. }) => false,
        (Some(m), FileChange::Created { meta }) => m.content_hash != meta.content_hash,
        (Some(m), FileChange::Modified { old_meta, new_meta }) => m.content_hash
            != old_meta.content_hash && m.content_hash != new_meta.content_hash,
        (None, FileChange::Modified { .. }) => true,
    }
}

/// What a snapshot records at `k` after applying diff `d` over it: a
/// non-conflicting change takes effect, everything else stays.
pub open spec fn spec_apply_at(
    d: Map<Seq<u8>, FileChange>,
    s: Map<Seq<u8>, FileMetadata>,
    k: Seq<u8>,
) -> Option<FileMetadata> {
    if d.contains_key(k) && !spec_conflicts(d[k], key_opt(s, k)) {
        match d[k] {
            FileChange::Removed { .. } => None,
            FileChange::Created { meta } => Some(meta),
            FileChange::Modified { new_meta, .. } => Some(new_meta),
        }
    } else {
        key_opt(s, k)
    }
}

/// The snapshot after applying diff `d` over snapshot `s`.
pub open spec fn spec_apply(
    d: Map<Seq<u8>, FileChange>,
    s: Map<Seq<u8>, FileMetadata>,
) -> Map<Seq<u8>, FileMetadata> {
    Map::new(
        |k: Seq<u8>| spec_apply_at(d, s, k) is Some,
        |k: Seq<u8>| spec_apply_at(d, s, k).unwrap(),
    )
}

/// The paths of `d` whose change conflicts with snapshot `s`.
pub open spec fn spec_conflict_set(
    d: Map<Seq<u8>, FileChange>,
    s: Map<Seq<u8>, FileMetadata>,
) -> Set<Seq<u8>> {
    d.dom().filter(|k: Seq<u8>| spec_conflicts(d[k], key_opt(s, k)))
}

/// The conflicting paths of a diff's entries against snapshot `s`, in
/// entry order.
pub open spec fn spec_conflict_seq(
    entries: Seq<(FilePath, FileChange)>,
    s: Map<Seq<u8>, FileMetadata>,
) -> Seq<Seq<u8>>
    decreases entries.len(),
{
    if entries.len() == 0 {
        Seq::empty()
    } else {
        let rest = spec_conflict_seq(entries.drop_last(), s);
        if spec_conflicts(entries.last().1, key_opt(s, entries.last().0@)) {
            rest.push(entries.last().0@)
        } else {
            rest
        }
    }
}

/// The conflicting paths in entry order are exactly the conflict set.
pub proof fn lemma_conflict_seq_set(entries: Seq<(FilePath, FileChange)>, s: Map<Seq<u8>, FileMetadata>)
    requires
        path_keys_distinct(entries),
    ensures
        forall|k: Seq<u8>|
            spec_conflict_seq(entries, s).contains(k) <==> spec_conflict_set(
                path_map(entries),
                s,
            ).contains(k),
    decreases entries.len(),
{
    if entries.len() > 0 {
        let rest = entries.drop_last();
        let k0 = entries.last().0@;
        let c0 = entries.last().1;
        lemma_conflict_seq_set(rest, s);
        lemma_path_map_contains(rest, k0);
        assert(!path_map(rest).contains_key(k0));
        assert forall|k: Seq<u8>|
            spec_conflict_seq(entries, s).contains(k) <==> spec_conflict_set(
                path_map(entries),
                s,
            ).contains(k) by {
            let sq = spec_conflict_seq(entries, s);
            let rq = spec_conflict_seq(rest, s);
            if spec_conflicts(c0, key_opt(s, k0)) {
                assert(sq == rq.push(k0));
                if sq.contains(k) {
                    let i = choose|i: int| 0 <= i < sq.len() && sq[i] == k;
                    if i < rq.len() {
                        assert(rq.contains(k));
                    }
                }
                if rq.contains(k) {
                    let i = choose|i: int| 0 <= i < rq.len() && rq[i] == k;
                    assert(sq[i] == k);
                }
                if k == k0 {
                    assert(sq[sq.len() - 1] == k);
                }
            } else {
                assert(sq == rq);
            }
        }
    }
}

/// The same change read in the other direction: creations become
/// removals, removals creations, and modifications swap old and new.
pub open spec fn spec_swap_change(c: FileChange) -> FileChange {
    match c {
        FileChange::Removed { old_meta } => FileChange::Created { meta: old_meta },
        FileChange::Created { meta } => FileChange::Removed { old_meta: meta },
        FileChange::Modified { old_meta, new_meta } => FileChange::Modified {
            old_meta: new_meta,
            new_meta: old_meta,
        },
    }
}

/// A diff with every change read in the other direction.
pub open spec fn spec_swap_diff(d: Map<Seq<u8>, FileChange>) -> Map<Seq<u8>, FileChange> {
    Map::new(|k: Seq<u8>| d.contains_key(k), |k: Seq<u8>| spec_swap_change(d[k]))
}

/// Law: the diff of a snapshot against itself is empty.
pub proof fn lemma_diff_self_identity(s: Map<Seq<u8>, FileMetadata>)
    ensures
        spec_diff(s, s) == Map::<Seq<u8>, FileChange>::empty(),
{
    assert(spec_diff(s, s) =~= Map::<Seq<u8>, FileChange>::empty());
}

/// Law: applying `diff(s, t)` over `s` yields `t`, and nothing conflicts.
pub proof fn lemma_diff_then_apply(s: Map<Seq<u8>, FileMetadata>, t: Map<Seq<u8>, FileMetadata>)
    ensures
        spec_apply(spec_diff(s, t), s) == t,
        spec_conflict_set(spec_diff(s, t), s) == Set::<Seq<u8>>::empty(),
{
    let d = spec_diff(s, t);
    assert forall|k: Seq<u8>| !spec_conflict_set(d, s).contains(k) by {
        if d.contains_key(k) {
            assert(!spec_conflicts(d[k], key_opt(s, k)));
        }
    }
    assert(spec_conflict_set(d, s) =~= Set::<Seq<u8>>::empty());
    assert forall|k: Seq<u8>|
        #![trigger spec_apply(d, s).contains_key(k)]
        key_opt(spec_apply(d, s), k) == key_opt(t, k) by {
        assert(spec_apply_at(d, s, k) == key_opt(t, k));
    }
    assert(spec_apply(d, s) =~= t);
}

/// Law: swapping `diff(s, t)` gives `diff(t, s)`.
pub proof fn lemma_diff_symmetry(s: Map<Seq<u8>, FileMetadata>, t: Map<Seq<u8>, FileMetadata>)
    ensures
        spec_swap_diff(spec_diff(s, t)) == spec_diff(t, s),
{
    assert(spec_swap_diff(spec_diff(s, t)) =~= spec_diff(t, s));
}

/// Law: applying a diff a second time over its own result changes
/// nothing, whatever the diff and the starting snapshot.
pub proof fn lemma_apply_idempotent(d: Map<Seq<u8>, FileChange>, s: Map<Seq<u8>, FileMetadata>)
    ensures
        spec_apply(d, spec_apply(d, s)) == spec_apply(d, s),
{
    let once = spec_apply(d, s);
    assert forall|k: Seq<u8>|
        #![trigger spec_apply(d, once).contains_key(k)]
        spec_apply_at(d, once, k) == spec_apply_at(d, s, k) by {
        if d.contains_key(k) {
            assert(key_opt(once, k) == spec_apply_at(d, s, k));
        }
    }
    assert(spec_apply(d, once) =~= once);
}

/// Law: when nothing in a diff conflicts with a snapshot, applying the
/// diff records no conflicting paths at all.
pub proof fn lemma_conflict_seq_empty(
    entries: Seq<(FilePath, FileChange)>,
    s: Map<Seq<u8>, FileMetadata>,
)
    requires
        path_keys_distinct(entries),
        spec_conflict_set(path_map(entries), s).is_empty(),
    ensures
        spec_conflict_seq(entries, s) == Seq::<Seq<u8>>::empty(),
    decreases entries.len(),
{
    if entries.len() > 0 {
        let k = entries.last().0@;
        let c = entries.last().1;
        lemma_path_map_index(entries, entries.len() - 1);
        assert(!spec_conflicts(c, key_opt(s, k))) by {
            if spec_conflicts(c, key_opt(s, k)) {
                assert(spec_conflict_set(path_map(entries), s).contains(k));
            }
        }
        assert forall|x: Seq<u8>|
            !spec_conflict_set(path_map(entries.drop_last()), s).contains(x) by {
            if spec_conflict_set(path_map(entries.drop_last()), s).contains(x) {
                lemma_path_map_contains(entries.drop_last(), x);
                let j = choose|j: int|
                    0 <= j < entries.drop_last().len() && entries.drop_last()[j].0@ == x;
                lemma_path_map_index(entries.drop_last(), j);
                lemma_path_map_index(entries, j);
                assert(entries[j] == entries.drop_last()[j]);
                assert(spec_conflict_set(path_map(entries), s).contains(x));
            }
        }
        assert(spec_conflict_set(path_map(entries.drop_last()), s) =~= Set::<Seq<u8>>::empty());
        lemma_conflict_seq_empty(entries.drop_last(), s);
    }
}

impl FileChange {
    /// Whether this change may not be applied over the observed current
    /// state of its path.
    pub fn conflicts(&self, current_metadata: Option<FileMetadata>) -> (r: bool)
        ensures
            r == spec_conflicts(*self, current_metadata),
    {
        match (current_metadata, self) {
            (Some(current_meta), FileChange::Removed { old_meta }) => current_meta.content_hash
                != old_meta.content_hash,
            (None, FileChange::Removed { .. }) => false,
            (None, FileChange::Created { .. }) => false,
            (Some(current_meta), FileChange::Created { meta }) => current_meta.content_hash
                != meta.content_hash,
            (Some(current_meta), FileChange::Modified { old_meta, new_meta }) => {
                current_meta.content_hash != old_meta.content_hash && current_meta.content_hash
                    != new_meta.content_hash
            },
            (None, FileChange::Modified { .. }) => true,
        }
    }
}

/// Entry lists equal pairwise in path view and value hold the same map.
pub proof fn lemma_path_map_congruence<V>(s1: Seq<(FilePath, V)>, s2: Seq<(FilePath, V)>)
    requires
        s1.len() == s2.len(),
        forall|t: int| 0 <= t < s1.len() ==> (#[trigger] s1[t]).0@ == s2[t].0@ && s1[t].1 == s2[t].1,
    ensures
        path_map(s1) == path_map(s2),
    decreases s1.len(),
{
    if s1.len() > 0 {
        lemma_path_map_congruence(s1.drop_last(), s2.drop_last());
        assert(s1[s1.len() - 1].0@ == s2[s1.len() - 1].0@);
        assert(path_map(s1) =~= path_map(s2));
    }
}

/// Checks that the entries name distinct paths.
pub(crate) fn pm_check_distinct<V>(entries: &Vec<(FilePath, V)>) -> (r: bool)
    ensures
        r == path_keys_distinct(entries@),
{
    let n = entries.len();
    let mut i: usize = 0;
    while i < n
        invariant
            n == entries@.len(),
            0 <= i <= n,
            forall|a: int, b: int| 0 <= a < b < entries@.len() && a < i ==> entries@[a].0@ != entries@[b].0@,
        decreases n - i,
    {
        let mut j: usize = i + 1;
        while j < n
            invariant
                n == entries@.len(),
                0 <= i < j <= n,
                forall|b: int| i < b < j ==> entries@[i as int].0@ != entries@[b].0@,
            decreases n - j,
        {
            if entries[i].0.eq_path(&entries[j].0) {
                return false;
            }
            j += 1;
        }
        i += 1;
    }
    true
}

/// A snapshot: what one peer believes is on one disk, as a map from
/// relative path to file metadata.
#[derive(Debug)]
pub struct FsState {
    pub files: Vec<(FilePath, FileMetadata)>,
}

impl View for FsState {
    type V = Map<Seq<u8>, FileMetadata>;

    open spec fn view(&self) -> Map<Seq<u8>, FileMetadata> {
        path_map(self.files@)
    }
}

/// A diff: the changes that carry one snapshot to another, as a map from
/// relative path to change.
#[derive(Debug)]
pub struct FsStateDiff {
    pub files: Vec<(FilePath, FileChange)>,
}

impl View for FsStateDiff {
    type V = Map<Seq<u8>, FileChange>;

    open spec fn view(&self) -> Map<Seq<u8>, FileChange> {
        path_map(self.files@)
    }
}

impl Clone for FsState {
    /// The copy records the same files, and is well formed exactly when
    /// the original is.
    fn clone(&self) -> (r: Self)
        ensures
            r@ == self@,
            r.wf() == self.wf(),
    {
        let n = self.files.len();
        let mut files: Vec<(FilePath, FileMetadata)> = Vec::new();
        let mut i: usize = 0;
        while i < n
            invariant
                n == self.files@.len(),
                0 <= i <= n,
                files@.len() == i,
                forall|t: int|
                    0 <= t < i ==> (#[trigger] files@[t]).0@ == self.files@[t].0@ && files@[t].1
                        == self.files@[t].1,
            decreases n - i,
        {
            let p = self.files[i].0.clone();
            let m = self.files[i].1;
            files.push((p, m));
            i += 1;
        }
        proof {
            lemma_path_map_congruence(files@, self.files@);
            if path_keys_distinct(self.files@) {
                assert forall|a: int, b: int|
                    0 <= a < b < files@.len() implies files@[a].0@ != files@[b].0@ by {
                    assert(self.files@[a].0@ != self.files@[b].0@);
                }
            }
            if path_keys_distinct(files@) {
                assert forall|a: int, b: int|
                    0 <= a < b < self.files@.len() implies self.files@[a].0@
                    != self.files@[b].0@ by {
                    assert(files@[a].0@ != files@[b].0@);
                }
            }
        }
        FsState { files }
    }
}

impl FsState {
    /// Entries name distinct paths.
    pub open spec fn wf(&self) -> bool {
        path_keys_distinct(self.files@)
    }

    /// A snapshot of nothing.
    pub fn empty() -> (r: FsState)
        ensures
            r.wf(),
            r@ == Map::<Seq<u8>, FileMetadata>::empty(),
    {
        FsState { files: Vec::new() }
    }

    /// The metadata recorded for `p`, if any.
    pub fn get_meta(&self, p: &FilePath) -> (r: Option<FileMetadata>)
        requires
            self.wf(),
        ensures
            match r {
                Some(m) => self@.contains_key(p@) && m == self@[p@],
                None => !self@.contains_key(p@),
            },
    {
        match pm_get(&self.files, p) {
            Some(m) => Some(*m),
            None => None,
        }
    }

    /// Records `path` as holding content `content`.
    pub fn insert_file(&mut self, path: FilePath, content: ContentId)
        requires
            old(self).wf(),
        ensures
            final(self).wf(),
            final(self)@ == old(self)@.insert(path@, FileMetadata { content_hash: content }),
    {
        pm_insert(&mut self.files, path, FileMetadata { content_hash: content });
    }

    /// Forgets any record of `path`.
    pub fn remove_file(&mut self, path: &FilePath)
        requires
            old(self).wf(),
        ensures
            final(self).wf(),
            final(self)@ == old(self)@.remove(path@),
    {
        pm_remove(&mut self.files, path);
    }

    /// Number of files recorded.
    pub fn len(&self) -> (r: usize)
        requires
            self.wf(),
        ensures
            r == self@.dom().len(),
    {
        proof {
            lemma_path_map_len(self.files@);
        }
        self.files.len()
    }

    /// Checks well-formedness: the entries name distinct paths.
    pub fn check_wf(&self) -> (r: bool)
        ensures
            r == self.wf(),
    {
        pm_check_distinct(&self.files)
    }

    /// The two snapshots record the same files with the same contents.
    pub fn same_as(&self, other: &FsState) -> (r: bool)
        requires
            self.wf(),
            other.wf(),
        ensures
            r == (self@ == other@),
    {
        proof {
            lemma_path_map_len(self.files@);
            lemma_path_map_len(other.files@);
        }
        if self.files.len() != other.files.len() {
            proof {
                assert(self@.dom().len() != other@.dom().len());
                assert(self@ != other@);
            }
            return false;
        }
        let n = self.files.len();
        let mut i: usize = 0;
        while i < n
            invariant
                self.wf(),
                other.wf(),
                n == self.files@.len(),
                0 <= i <= n,
                forall|j: int|
                    0 <= j < i ==> other@.contains_key(#[trigger] self.files@[j].0@)
                        && other@[self.files@[j].0@] == self.files@[j].1,
            decreases n - i,
        {
            let p = &self.files[i].0;
            let m = self.files[i].1;
            proof {
                lemma_path_map_index(self.files@, i as int);
            }
            match other.get_meta(p) {
                Some(m2) => {
                    if m != m2 {
                        proof {
                            assert(self@[p@] == m);
                            assert(other@[p@] == m2);
                        }
                        return false;
                    }
                },
                None => {
                    proof {
                        assert(self@.contains_key(p@));
                        assert(!other@.contains_key(p@));
                    }
                    return false;
                },
            }
            i += 1;
        }
        proof {
            assert forall|k: Seq<u8>| #![trigger self@.dom().contains(k)]
                self@.dom().contains(k) implies other@.dom().contains(k) && other@[k]
                == self@[k] by {
                assert(self@.contains_key(k));
                lemma_path_map_contains(self.files@, k);
                let j = choose|j: int| 0 <= j < self.files@.len() && self.files@[j].0@ == k;
                lemma_path_map_index(self.files@, j);
                assert(other@.contains_key(k));
            }
            assert(self@.dom().subset_of(other@.dom()));
            assert forall|k: Seq<u8>| #![trigger other@.dom().contains(k)]
                other@.dom().contains(k) implies self@.dom().contains(k) by {
                if !self@.dom().contains(k) {
                    self@.dom().lemma_subset_not_in_lt(other@.dom(), k);
                }
            }
            assert(self@ =~= other@);
        }
        true
    }
}

impl FsState {
    /// The diff that carries this snapshot to `next`.
    pub fn diff(&self, next: &FsState) -> (r: FsStateDiff)
        requires
            self.wf(),
            next.wf(),
        ensures
            r.wf(),
            r@ == spec_diff(self@, next@),
    {
        let ghost bm = self@;
        let ghost tm = next@;
        let ghost dm = spec_diff(self@, next@);
        let mut files: Vec<(FilePath, FileChange)> = Vec::new();
        let n = self.files.len();
        let mut i: usize = 0;
        while i < n
            invariant
                self.wf(),
                next.wf(),
                bm == self@,
                tm == next@,
                dm == spec_diff(bm, tm),
                n == self.files@.len(),
                0 <= i <= n,
                path_keys_distinct(files@),
                forall|k: Seq<u8>| #![auto]
                    path_map(files@).contains_key(k) ==> dm.contains_key(k) && path_map(files@)[k]
                        == dm[k],
                forall|k: Seq<u8>| #![auto]
                    path_map(files@).contains_key(k) ==> exists|j: int|
                        0 <= j < i && self.files@[j].0@ == k,
                forall|j: int|
                    0 <= j < i ==> (dm.contains_key(#[trigger] self.files@[j].0@)
                        <==> path_map(files@).contains_key(self.files@[j].0@)),
            decreases n - i,
        {
            let p = &self.files[i].0;
            let m = self.files[i].1;
            proof {
                lemma_path_map_index(self.files@, i as int);
                lemma_path_map_contains(files@, p@);
            }
            let ghost files0 = files@;
            let changed: Option<FileChange> = match next.get_meta(p) {
                Some(m2) => {
                    if m.content_hash != m2.content_hash {
                        Some(FileChange::Modified { old_meta: m, new_meta: m2 })
                    } else {
                        None
                    }
                },
                None => Some(FileChange::Removed { old_meta: m }),
            };
            match changed {
                Some(c) => {
                    let pc = p.clone();
                    files.push((pc, c));
                    proof {
                        assert(files@.drop_last() =~= files0);
                        assert(path_map(files@) == path_map(files0).insert(p@, c));
                        assert(dm.contains_key(p@) && dm[p@] == c);
                        assert forall|a: int, b: int|
                            0 <= a < b < files@.len() implies files@[a].0@ != files@[b].0@ by {
                            if b == files@.len() - 1 {
                                assert(path_map(files0).contains_key(files0[a].0@)) by {
                                    lemma_path_map_index(files0, a);
                                }
                                let j = choose|j: int|
                                    0 <= j < i && self.files@[j].0@ == files0[a].0@;
                                assert(self.files@[j].0@ != self.files@[i as int].0@);
                            }
                        }
                        assert forall|k: Seq<u8>| #![auto]
                            path_map(files@).contains_key(k) implies exists|j: int|
                            0 <= j < i + 1 && self.files@[j].0@ == k by {
                            if k == p@ {
                                assert(self.files@[i as int].0@ == k);
                            } else {
                                let j = choose|j: int| 0 <= j < i && self.files@[j].0@ == k;
                                assert(0 <= j < i + 1 && self.files@[j].0@ == k);
                            }
                        }
                    }
                },
                None => {
                    proof {
                        assert(!dm.contains_key(p@));
                        assert forall|k: Seq<u8>| #![auto]
                            path_map(files@).contains_key(k) implies exists|j: int|
                            0 <= j < i + 1 && self.files@[j].0@ == k by {
                            let j = choose|j: int| 0 <= j < i && self.files@[j].0@ == k;
                            assert(0 <= j < i + 1 && self.files@[j].0@ == k);
                        }
                    }
                },
            }
            i += 1;
        }
        let nn = next.files.len();
        let mut l: usize = 0;
        while l < nn
            invariant
                self.wf(),
                next.wf(),
                bm == self@,
                tm == next@,
                dm == spec_diff(bm, tm),
                n == self.files@.len(),
                nn == next.files@.len(),
                0 <= l <= nn,
                path_keys_distinct(files@),
                forall|k: Seq<u8>| #![auto]
                    path_map(files@).contains_key(k) ==> dm.contains_key(k) && path_map(files@)[k]
                        == dm[k],
                forall|j: int|
                    0 <= j < n ==> (dm.contains_key(#[trigger] self.files@[j].0@)
                        <==> path_map(files@).contains_key(self.files@[j].0@)),
                forall|j: int|
                    0 <= j < l ==> (dm.contains_key(#[trigger] next.files@[j].0@)
                        <==> path_map(files@).contains_key(next.files@[j].0@)),
                forall|k: Seq<u8>| #![auto]
                    path_map(files@).contains_key(k) ==> (exists|j: int|
                        0 <= j < n && self.files@[j].0@ == k) || (exists|j: int|
                        0 <= j < l && next.files@[j].0@ == k),
            decreases nn - l,
        {
            let p = &next.files[l].0;
            let m2 = next.files[l].1;
            proof {
                lemma_path_map_index(next.files@, l as int);
                lemma_path_map_contains(files@, p@);
                lemma_path_map_contains(self.files@, p@);
            }
            let ghost files0 = files@;
            match self.get_meta(p) {
                Some(_) => {
                    proof {
                        assert forall|k: Seq<u8>| #![auto]
                            path_map(files@).contains_key(k) implies (exists|j: int|
                            0 <= j < n && self.files@[j].0@ == k) || (exists|j: int|
                            0 <= j < l + 1 && next.files@[j].0@ == k) by {}
                        assert(dm.contains_key(p@) <==> path_map(files@).contains_key(p@)) by {
                            let j = choose|j: int|
                                0 <= j < self.files@.len() && self.files@[j].0@ == p@;
                            assert(dm.contains_key(self.files@[j].0@) <==> path_map(
                                files@,
                            ).contains_key(self.files@[j].0@));
                        }
                    }
                },
                None => {
                    let c = FileChange::Created { meta: m2 };
                    let pc = p.clone();
                    files.push((pc, c));
                    proof {
                        assert(files@.drop_last() =~= files0);
                        assert(path_map(files@) == path_map(files0).insert(p@, c));
                        assert(dm.contains_key(p@) && dm[p@] == c);
                        assert forall|a: int, b: int|
                            0 <= a < b < files@.len() implies files@[a].0@ != files@[b].0@ by {
                            if b == files@.len() - 1 {
                                assert(path_map(files0).contains_key(files0[a].0@)) by {
                                    lemma_path_map_index(files0, a);
                                }
                                if exists|j: int| 0 <= j < n && self.files@[j].0@ == files0[a].0@ {
                                    let j = choose|j: int|
                                        0 <= j < n && self.files@[j].0@ == files0[a].0@;
                                    assert(bm.contains_key(files0[a].0@)) by {
                                        lemma_path_map_index(self.files@, j);
                                    }
                                } else {
                                    let j = choose|j: int|
                                        0 <= j < l && next.files@[j].0@ == files0[a].0@;
                                    assert(next.files@[j].0@ != next.files@[l as int].0@);
                                }
                            }
                        }
                        assert forall|k: Seq<u8>| #![auto]
                            path_map(files@).contains_key(k) implies (exists|j: int|
                            0 <= j < n && self.files@[j].0@ == k) || (exists|j: int|
                            0 <= j < l + 1 && next.files@[j].0@ == k) by {
                            if k == p@ {
                                assert(next.files@[l as int].0@ == k);
                            }
                        }
                    }
                },
            }
            l += 1;
        }
        proof {
            assert forall|k: Seq<u8>| #![auto] dm.contains_key(k) implies path_map(
                files@,
            ).contains_key(k) by {
                lemma_path_map_contains(self.files@, k);
                lemma_path_map_contains(next.files@, k);
                if bm.contains_key(k) {
                    let j = choose|j: int| 0 <= j < self.files@.len() && self.files@[j].0@ == k;
                    assert(dm.contains_key(self.files@[j].0@) <==> path_map(files@).contains_key(
                        self.files@[j].0@,
                    ));
                } else {
                    assert(tm.contains_key(k));
                    let j = choose|j: int| 0 <= j < next.files@.len() && next.files@[j].0@ == k;
                    assert(dm.contains_key(next.files@[j].0@) <==> path_map(files@).contains_key(
                        next.files@[j].0@,
                    ));
                }
            }
            assert(path_map(files@) =~= dm);
        }
        FsStateDiff { files }
    }
}

impl FsState {
    /// Applies `diff` over this snapshot in memory.  Every non-conflicting
    /// change takes effect; the conflicting paths are returned in diff
    /// order and their entries leave the snapshot untouched.
    pub fn apply_diff(&mut self, diff: &FsStateDiff) -> (r: Vec<FilePath>)
        requires
            old(self).wf(),
            diff.wf(),
        ensures
            final(self).wf(),
            final(self)@ == spec_apply(diff@, old(self)@),
            r@.map_values(|p: FilePath| p@) == spec_conflict_seq(diff.files@, old(self)@),
            forall|k: Seq<u8>|
                r@.map_values(|p: FilePath| p@).contains(k) <==> spec_conflict_set(
                    diff@,
                    old(self)@,
                ).contains(k),
    {
        let ghost s0 = old(self)@;
        let ghost pf = |p: FilePath| p@;
        let mut conflicts: Vec<FilePath> = Vec::new();
        let n = diff.files.len();
        let mut j: usize = 0;
        while j < n
            invariant
                self.wf(),
                diff.wf(),
                n == diff.files@.len(),
                0 <= j <= n,
                pf == (|p: FilePath| p@),
                self@ == spec_apply(path_map(diff.files@.take(j as int)), s0),
                conflicts@.map_values(pf) == spec_conflict_seq(diff.files@.take(j as int), s0),
            decreases n - j,
        {
            let ghost pm = path_map(diff.files@.take(j as int));
            let p = &diff.files[j].0;
            let c = diff.files[j].1;
            let ghost k = p@;
            proof {
                lemma_path_map_contains(diff.files@.take(j as int), k);
                assert forall|jj: int| 0 <= jj < j implies diff.files@.take(j as int)[jj].0@ != k by {
                    assert(diff.files@[jj].0@ != diff.files@[j as int].0@);
                }
                assert(!pm.contains_key(k));
                assert(spec_apply_at(pm, s0, k) == key_opt(s0, k));
                assert(key_opt(self@, k) == key_opt(s0, k));
                assert(diff.files@.take(j + 1).drop_last() =~= diff.files@.take(j as int));
                assert(diff.files@.take(j + 1).last() == diff.files@[j as int]);
                assert(path_map(diff.files@.take(j + 1)) == pm.insert(k, c));
            }
            let cur = self.get_meta(p);
            proof {
                assert(cur == key_opt(s0, k));
            }
            if c.conflicts(cur) {
                let ghost cs0 = conflicts@;
                conflicts.push(p.clone());
                proof {
                    assert(conflicts@.map_values(pf) =~= cs0.map_values(pf).push(k));
                    assert(spec_apply(pm.insert(k, c), s0) =~= spec_apply(pm, s0));
                }
            } else {
                match c {
                    FileChange::Removed { .. } => {
                        self.remove_file(p);
                        proof {
                            assert(spec_apply(pm.insert(k, c), s0) =~= spec_apply(pm, s0).remove(
                                k,
                            ));
                        }
                    },
                    FileChange::Created { meta } => {
                        self.insert_file(p.clone(), meta.content_hash);
                        proof {
                            assert(spec_apply(pm.insert(k, c), s0) =~= spec_apply(pm, s0).insert(
                                k,
                                meta,
                            ));
                        }
                    },
                    FileChange::Modified { new_meta, .. } => {
                        self.insert_file(p.clone(), new_meta.content_hash);
                        proof {
                            assert(spec_apply(pm.insert(k, c), s0) =~= spec_apply(pm, s0).insert(
                                k,
                                new_meta,
                            ));
                        }
                    },
                }
            }
            j += 1;
        }
        proof {
            assert(diff.files@.take(n as int) =~= diff.files@);
            lemma_conflict_seq_set(diff.files@, s0);
        }
        conflicts
    }
}

/// What an observer found at one path on disk: a regular file with the
/// given metadata, nothing, or something that is not a regular file.
#[derive(Clone, Copy, PartialEq, Eq, Structural, Debug)]
pub enum PathObservation {
    Present { meta: FileMetadata },
    Absent,
    NonFile,
}

/// One snapshot-and-diff pair, as mutated by a refresh fold.
pub open spec fn rescan_missing_step(
    st: (Map<Seq<u8>, FileMetadata>, Map<Seq<u8>, FileChange>),
    k: Seq<u8>,
) -> (Map<Seq<u8>, FileMetadata>, Map<Seq<u8>, FileChange>) {
    if st.0.contains_key(k) {
        (st.0.remove(k), st.1.insert(k, FileChange::Removed { old_meta: st.0[k] }))
    } else {
        st
    }
}

/// Folds removals of missing paths over a snapshot-and-diff pair.
pub open spec fn rescan_missing(
    st: (Map<Seq<u8>, FileMetadata>, Map<Seq<u8>, FileChange>),
    miss: Seq<Seq<u8>>,
) -> (Map<Seq<u8>, FileMetadata>, Map<Seq<u8>, FileChange>)
    decreases miss.len(),
{
    if miss.len() == 0 {
        st
    } else {
        rescan_missing_step(rescan_missing(st, miss.drop_last()), miss.last())
    }
}

/// One found file folded over a snapshot-and-diff pair: a new path is a
/// creation, changed contents are a modification, and unchanged contents
/// leave both maps alone.
pub open spec fn rescan_found_step(
    st: (Map<Seq<u8>, FileMetadata>, Map<Seq<u8>, FileChange>),
    e: (Seq<u8>, FileMetadata),
) -> (Map<Seq<u8>, FileMetadata>, Map<Seq<u8>, FileChange>) {
    match key_opt(st.0, e.0) {
        Some(o) => if o.content_hash != e.1.content_hash {
            (st.0.insert(e.0, e.1), st.1.insert(e.0, FileChange::Modified { old_meta: o, new_meta: e.1 }))
        } else {
            st
        },
        None => (st.0.insert(e.0, e.1), st.1.insert(e.0, FileChange::Created { meta: e.1 })),
    }
}

/// Folds found files over a snapshot-and-diff pair.
pub open spec fn rescan_found(
    st: (Map<Seq<u8>, FileMetadata>, Map<Seq<u8>, FileChange>),
    found: Seq<(Seq<u8>, FileMetadata)>,
) -> (Map<Seq<u8>, FileMetadata>, Map<Seq<u8>, FileChange>)
    decreases found.len(),
{
    if found.len() == 0 {
        st
    } else {
        rescan_found_step(rescan_found(st, found.drop_last()), found.last())
    }
}

impl FsState {
    /// Reconciles the snapshot with what an observer found at one path,
    /// returning the change, if any, that the observation implies.
    pub fn refresh_path(&mut self, file_path: &FilePath, observed: &PathObservation) -> (r: Option<
        (FilePath, FileChange),
    >)
        requires
            old(self).wf(),
        ensures
            final(self).wf(),
            match *observed {
                PathObservation::Present { meta } => if key_opt(old(self)@, file_path@) == Some(
                    meta,
                ) {
                    final(self)@ == old(self)@ && r is None
                } else {
                    final(self)@ == old(self)@.insert(file_path@, meta) && (r matches Some(pc)
                        && pc.0@ == file_path@ && pc.1 == match key_opt(old(self)@, file_path@) {
                        Some(o) => FileChange::Modified { old_meta: o, new_meta: meta },
                        None => FileChange::Created { meta },
                    })
                },
                PathObservation::Absent => if old(self)@.contains_key(file_path@) {
                    final(self)@ == old(self)@.remove(file_path@) && (r matches Some(pc) && pc.0@
                        == file_path@ && pc.1 == (FileChange::Removed {
                        old_meta: old(self)@[file_path@],
                    }))
                } else {
                    final(self)@ == old(self)@ && r is None
                },
                PathObservation::NonFile => final(self)@ == old(self)@ && r is None,
            },
    {
        match observed {
            PathObservation::Present { meta } => {
                let new_meta = *meta;
                match self.get_meta(file_path) {
                    Some(old_meta) => {
                        if old_meta.content_hash != new_meta.content_hash {
                            self.insert_file(file_path.clone(), new_meta.content_hash);
                            Some(
                                (
                                    file_path.clone(),
                                    FileChange::Modified { old_meta, new_meta },
                                ),
                            )
                        } else {
                            proof {
                                assert(old_meta == new_meta);
                            }
                            None
                        }
                    },
                    None => {
                        self.insert_file(file_path.clone(), new_meta.content_hash);
                        Some((file_path.clone(), FileChange::Created { meta: new_meta }))
                    },
                }
            },
            PathObservation::Absent => {
                match self.get_meta(file_path) {
                    Some(old_meta) => {
                        self.remove_file(file_path);
                        Some((file_path.clone(), FileChange::Removed { old_meta }))
                    },
                    None => None,
                }
            },
            PathObservation::NonFile => None,
        }
    }

    /// The recorded paths that have `prefix` as a byte prefix.
    pub fn entries_under_prefix(&self, prefix: &FilePath) -> (r: Vec<FilePath>)
        requires
            self.wf(),
        ensures
            forall|t: int|
                0 <= t < r@.len() ==> self@.contains_key(#[trigger] r@[t]@)
                    && crate::path::spec_is_prefix(prefix@, r@[t]@),
            forall|k: Seq<u8>|
                #![trigger self@.contains_key(k), crate::path::spec_is_prefix(prefix@, k)]
                self@.contains_key(k) && crate::path::spec_is_prefix(prefix@, k) ==> exists|t: int|
                    0 <= t < r@.len() && r@[t]@ == k,
    {
        let mut out: Vec<FilePath> = Vec::new();
        let n = self.files.len();
        let mut i: usize = 0;
        while i < n
            invariant
                self.wf(),
                n == self.files@.len(),
                0 <= i <= n,
                forall|t: int|
                    0 <= t < out@.len() ==> (exists|j: int|
                        0 <= j < n && self.files@[j].0@ == #[trigger] out@[t]@)
                        && crate::path::spec_is_prefix(prefix@, out@[t]@),
                forall|j: int|
                    0 <= j < i && crate::path::spec_is_prefix(
                        prefix@,
                        #[trigger] self.files@[j].0@,
                    ) ==> exists|t: int| 0 <= t < out@.len() && out@[t]@ == self.files@[j].0@,
            decreases n - i,
        {
            let p = &self.files[i].0;
            let ghost out0 = out@;
            if p.starts_with(prefix) {
                out.push(p.clone());
                proof {
                    assert forall|t: int|
                        0 <= t < out@.len() implies (exists|j: int|
                        0 <= j < n && self.files@[j].0@ == #[trigger] out@[t]@)
                        && crate::path::spec_is_prefix(prefix@, out@[t]@) by {
                        if t < out0.len() {
                            assert(out@[t] == out0[t]);
                        } else {
                            assert(self.files@[i as int].0@ == out@[t]@);
                        }
                    }
                    assert forall|j: int|
                        0 <= j < i + 1 && crate::path::spec_is_prefix(
                            prefix@,
                            #[trigger] self.files@[j].0@,
                        ) implies exists|t: int|
                        0 <= t < out@.len() && out@[t]@ == self.files@[j].0@ by {
                        if j < i {
                            let t = choose|t: int|
                                0 <= t < out0.len() && out0[t]@ == self.files@[j].0@;
                            assert(out@[t]@ == self.files@[j].0@);
                        } else {
                            assert(out@[out@.len() - 1]@ == self.files@[j].0@);
                        }
                    }
                }
            }
            i += 1;
        }
        proof {
            assert forall|t: int|
                0 <= t < out@.len() implies self@.contains_key(#[trigger] out@[t]@)
                && crate::path::spec_is_prefix(prefix@, out@[t]@) by {
                let j = choose|j: int| 0 <= j < n && self.files@[j].0@ == out@[t]@;
                lemma_path_map_index(self.files@, j);
            }
            assert forall|k: Seq<u8>|
                #![trigger self@.contains_key(k), crate::path::spec_is_prefix(prefix@, k)]
                self@.contains_key(k) && crate::path::spec_is_prefix(prefix@, k) implies exists|
                t: int,
            |
                0 <= t < out@.len() && out@[t]@ == k by {
                lemma_path_map_contains(self.files@, k);
                let j = choose|j: int| 0 <= j < self.files@.len() && self.files@[j].0@ == k;
                assert(crate::path::spec_is_prefix(prefix@, self.files@[j].0@));
            }
        }
        out
    }

    /// Reconciles the snapshot after a subtree rescan: the `missing`
    /// paths no longer exist and leave the snapshot, then every `found`
    /// file is folded in; the returned diff holds the implied changes.
    pub fn refresh_full_rescan(
        &mut self,
        missing: &Vec<FilePath>,
        found: &Vec<(FilePath, FileMetadata)>,
    ) -> (r: FsStateDiff)
        requires
            old(self).wf(),
        ensures
            final(self).wf(),
            r.wf(),
            ({
                let st = rescan_found(
                    rescan_missing(
                        (old(self)@, Map::empty()),
                        missing@.map_values(|p: FilePath| p@),
                    ),
                    found@.map_values(|e: (FilePath, FileMetadata)| (e.0@, e.1)),
                );
                final(self)@ == st.0 && r@ == st.1
            }),
    {
        let ghost pf = |p: FilePath| p@;
        let ghost ef = |e: (FilePath, FileMetadata)| (e.0@, e.1);
        let ghost s0 = old(self)@;
        let mut dfiles: Vec<(FilePath, FileChange)> = Vec::new();
        let n = missing.len();
        let mut i: usize = 0;
        while i < n
            invariant
                self.wf(),
                n == missing@.len(),
                0 <= i <= n,
                pf == (|p: FilePath| p@),
                s0 == old(self)@,
                path_keys_distinct(dfiles@),
                (self@, path_map(dfiles@)) == rescan_missing(
                    (s0, Map::<Seq<u8>, FileChange>::empty()),
                    missing@.map_values(pf).take(i as int),
                ),
            decreases n - i,
        {
            let p = &missing[i];
            proof {
                assert(missing@.map_values(pf).take(i + 1).drop_last() =~= missing@.map_values(
                    pf,
                ).take(i as int));
                assert(missing@.map_values(pf).take(i + 1).last() == p@);
            }
            match self.get_meta(p) {
                Some(old_meta) => {
                    self.remove_file(p);
                    pm_insert(&mut dfiles, p.clone(), FileChange::Removed { old_meta });
                },
                None => {},
            }
            i += 1;
        }
        proof {
            assert(missing@.map_values(pf).take(n as int) =~= missing@.map_values(pf));
        }
        let ghost st1 = rescan_missing((s0, Map::<Seq<u8>, FileChange>::empty()), missing@.map_values(pf));
        let m = found.len();
        let mut l: usize = 0;
        while l < m
            invariant
                self.wf(),
                m == found@.len(),
                0 <= l <= m,
                pf == (|p: FilePath| p@),
                ef == (|e: (FilePath, FileMetadata)| (e.0@, e.1)),
                path_keys_distinct(dfiles@),
                st1 == rescan_missing(
                    (old(self)@, Map::<Seq<u8>, FileChange>::empty()),
                    missing@.map_values(pf),
                ),
                (self@, path_map(dfiles@)) == rescan_found(st1, found@.map_values(ef).take(l as int)),
            decreases m - l,
        {
            let p = &found[l].0;
            let fm = found[l].1;
            proof {
                assert(found@.map_values(ef).take(l + 1).drop_last() =~= found@.map_values(
                    ef,
                ).take(l as int));
                assert(found@.map_values(ef).take(l + 1).last() == (p@, fm));
            }
            match self.get_meta(p) {
                Some(old_meta) => {
                    if old_meta.content_hash != fm.content_hash {
                        self.insert_file(p.clone(), fm.content_hash);
                        pm_insert(
                            &mut dfiles,
                            p.clone(),
                            FileChange::Modified { old_meta, new_meta: fm },
                        );
                    }
                },
                None => {
                    self.insert_file(p.clone(), fm.content_hash);
                    pm_insert(&mut dfiles, p.clone(), FileChange::Created { meta: fm });
                },
            }
            l += 1;
        }
        proof {
            assert(found@.map_values(ef).take(m as int) =~= found@.map_values(ef));
        }
        FsStateDiff { files: dfiles }
    }
}

impl FsStateDiff {
    /// Entries name distinct paths.
    pub open spec fn wf(&self) -> bool {
        path_keys_distinct(self.files@)
    }

    /// A diff that changes nothing.
    pub fn empty() -> (r: FsStateDiff)
        ensures
            r.wf(),
            r@ == Map::<Seq<u8>, FileChange>::empty(),
    {
        FsStateDiff { files: Vec::new() }
    }

    /// Checks well-formedness: the entries name distinct paths.
    pub fn check_wf(&self) -> (r: bool)
        ensures
            r == self.wf(),
    {
        pm_check_distinct(&self.files)
    }

    /// The diff changes nothing.
    pub fn is_empty(&self) -> (r: bool)
        requires
            self.wf(),
        ensures
            r == (self@ == Map::<Seq<u8>, FileChange>::empty()),
    {
        proof {
            lemma_path_map_len(self.files@);
            if self.files@.len() == 0 {
                assert(self@ =~= Map::<Seq<u8>, FileChange>::empty());
            } else {
                lemma_path_map_index(self.files@, 0);
            }
        }
        self.files.len() == 0
    }

    /// Number of changed paths.
    pub fn len(&self) -> (r: usize)
        requires
            self.wf(),
        ensures
            r == self@.dom().len(),
    {
        proof {
            lemma_path_map_len(self.files@);
        }
        self.files.len()
    }

    /// The change recorded for `p`, if any.
    pub fn get(&self, p: &FilePath) -> (r: Option<FileChange>)
        requires
            self.wf(),
        ensures
            match r {
                Some(c) => self@.contains_key(p@) && c == self@[p@],
                None => !self@.contains_key(p@),
            },
    {
        match pm_get(&self.files, p) {
            Some(c) => Some(*c),
            None => None,
        }
    }
}

} // verus!
