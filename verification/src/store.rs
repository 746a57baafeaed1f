//! Content identifiers and the content-addressed blob store.

use vstd::prelude::*;

verus! {

/// A 32-byte BLAKE3 digest of a file's exact contents, held as four words.
/// Equal identifiers stand for byte-identical contents.
#[derive(Clone, Copy, PartialEq, Eq, Structural, Debug)]
pub struct ContentId {
    pub w0: u64,
    pub w1: u64,
    pub w2: u64,
    pub w3: u64,
}

/// What a snapshot records for one file.  Today that is only the content
/// identifier; the reconciliation algebra depends on nothing else.
#[derive(Clone, Copy, PartialEq, Eq, Structural, Debug)]
pub struct FileMetadata {
    pub content_hash: ContentId,
}

/// The errors the core reports to its caller.
#[derive(Clone, Copy, PartialEq, Eq, Structural, Debug)]
pub enum SyncError {
    /// A snapshot or diff referenced a content identifier absent from the store.
    MissingContent,
    /// A message arrived that the current protocol state does not admit.
    ProtocolError,
}

impl SyncError {
    /// A short description for reporting.
    pub fn message(&self) -> (r: &'static str)
        ensures
            *self is MissingContent ==> r@ == "content not found in content store"@,
            *self is ProtocolError ==> r@ == "unexpected message for current protocol state"@,
    {
        match self {
            SyncError::MissingContent => "content not found in content store",
            SyncError::ProtocolError => "unexpected message for current protocol state",
        }
    }
}

/// The BLAKE3 digest of a byte string.  The digest is a function of the
/// bytes alone; its value is not stated here.
pub uninterp spec fn digest_of(bytes: Seq<u8>) -> ContentId;

/// Relies on iroh_blake3::hash: the 32-byte digest depends on the input
/// bytes alone; its words are carried over in little-endian order.
#[verifier::external_body]
fn blake3_digest(content: &Vec<u8>) -> (r: ContentId)
    ensures
        r == digest_of(content@),
{
    let b = *iroh_blake3::hash(content.as_slice()).as_bytes();
    ContentId {
        w0: u64::from_le_bytes(b[0..8].try_into().unwrap()),
        w1: u64::from_le_bytes(b[8..16].try_into().unwrap()),
        w2: u64::from_le_bytes(b[16..24].try_into().unwrap()),
        w3: u64::from_le_bytes(b[24..32].try_into().unwrap()),
    }
}

/// The finite map held by a sequence of (id, blob) entries; a later entry
/// with the same id wins.
pub open spec fn store_map(s: Seq<(ContentId, Vec<u8>)>) -> Map<ContentId, Seq<u8>>
    decreases s.len(),
{
    if s.len() == 0 {
        Map::empty()
    } else {
        store_map(s.drop_last()).insert(s.last().0, s.last().1@)
    }
}

/// No two entries carry the same id.
pub open spec fn store_keys_distinct(s: Seq<(ContentId, Vec<u8>)>) -> bool {
    forall|i: int, j: int| 0 <= i < j < s.len() ==> s[i].0 != s[j].0
}

/// An id is in the map exactly when some entry carries it.
pub proof fn lemma_store_map_contains(s: Seq<(ContentId, Vec<u8>)>, id: ContentId)
    ensures
        store_map(s).contains_key(id) <==> exists|i: int| 0 <= i < s.len() && s[i].0 == id,
    decreases s.len(),
{
    if s.len() > 0 {
        lemma_store_map_contains(s.drop_last(), id);
        if store_map(s).contains_key(id) {
            if s.last().0 == id {
                assert(s[s.len() - 1].0 == id);
            } else {
                let i = choose|i: int| 0 <= i < s.drop_last().len() && s.drop_last()[i].0 == id;
                assert(s[i].0 == id);
            }
        }
        if exists|i: int| 0 <= i < s.len() && s[i].0 == id {
            let i = choose|i: int| 0 <= i < s.len() && s[i].0 == id;
            if i < s.len() - 1 {
                assert(s.drop_last()[i].0 == id);
            }
        }
    }
}

/// With distinct ids, each entry's blob is the map's value at its id.
pub proof fn lemma_store_map_index(s: Seq<(ContentId, Vec<u8>)>, i: int)
    requires
        store_keys_distinct(s),
        0 <= i < s.len(),
    ensures
        store_map(s).contains_key(s[i].0),
        store_map(s)[s[i].0] == s[i].1@,
    decreases s.len(),
{
    if i == s.len() - 1 {
    } else {
        lemma_store_map_index(s.drop_last(), i);
        assert(s.drop_last()[i] == s[i]);
        assert(s.last().0 != s[i].0);
    }
}

/// Updating the entry that carries an id updates the map at that id.
pub proof fn lemma_store_map_update(s: Seq<(ContentId, Vec<u8>)>, i: int, e: (ContentId, Vec<u8>))
    requires
        store_keys_distinct(s),
        0 <= i < s.len(),
        s[i].0 == e.0,
    ensures
        store_map(s.update(i, e)) == store_map(s).insert(e.0, e.1@),
    decreases s.len(),
{
    if i == s.len() - 1 {
        assert(s.update(i, e).drop_last() =~= s.drop_last());
        assert(s.update(i, e).last() == e);
        assert(store_map(s.update(i, e)) =~= store_map(s).insert(e.0, e.1@));
    } else {
        lemma_store_map_update(s.drop_last(), i, e);
        assert(s.update(i, e).drop_last() =~= s.drop_last().update(i, e));
        assert(s.update(i, e).last() == s.last());
        assert(s.last().0 != e.0);
        assert(store_map(s.update(i, e)) =~= store_map(s).insert(e.0, e.1@));
    }
}

/// Dropping the entry that carries an id removes that id from the map.
pub proof fn lemma_store_map_remove_idx(s: Seq<(ContentId, Vec<u8>)>, i: int)
    requires
        store_keys_distinct(s),
        0 <= i < s.len(),
    ensures
        store_map(s.remove(i)) == store_map(s).remove(s[i].0),
    decreases s.len(),
{
    lemma_store_map_contains(s.drop_last(), s[i].0);
    if i == s.len() - 1 {
        assert(s.remove(i) =~= s.drop_last());
        assert(!store_map(s.drop_last()).contains_key(s[i].0));
        assert(store_map(s.drop_last()) =~= store_map(s).remove(s[i].0));
    } else {
        lemma_store_map_remove_idx(s.drop_last(), i);
        assert(s.remove(i).drop_last() =~= s.drop_last().remove(i));
        assert(s.remove(i).last() == s.last());
        assert(s.remove(i).len() > 0);
        assert(s.last().0 != s[i].0);
        assert(store_map(s.remove(i)) == store_map(s.remove(i).drop_last()).insert(
            s.last().0,
            s.last().1@,
        ));
        assert(store_map(s.remove(i)) =~= store_map(s).remove(s[i].0));
    }
}

/// Filtering a sequence of distinct ids keeps them distinct, and every
/// survivor satisfies the predicate and comes from the sequence.
pub proof fn lemma_journal_filter(s: Seq<ContentId>, pred: spec_fn(ContentId) -> bool)
    requires
        forall|i: int, j: int| 0 <= i < j < s.len() ==> s[i] != s[j],
    ensures
        forall|t: int|
            0 <= t < s.filter(pred).len() ==> pred(#[trigger] s.filter(pred)[t]) && s.contains(
                s.filter(pred)[t],
            ),
        forall|t1: int, t2: int|
            0 <= t1 < t2 < s.filter(pred).len() ==> s.filter(pred)[t1] != s.filter(pred)[t2],
    decreases s.len(),
{
    reveal(Seq::filter);
    if s.len() > 0 {
        let sub = s.drop_last();
        lemma_journal_filter(sub, pred);
        assert forall|t: int|
            0 <= t < s.filter(pred).len() implies pred(#[trigger] s.filter(pred)[t]) && s.contains(
            s.filter(pred)[t]) by {
            if t < sub.filter(pred).len() {
                assert(s.filter(pred)[t] == sub.filter(pred)[t]);
                let l = choose|l: int| 0 <= l < sub.len() && sub[l] == sub.filter(pred)[t];
                assert(s[l] == s.filter(pred)[t]);
            } else {
                assert(s.filter(pred)[t] == s.last());
                assert(s[s.len() - 1] == s.last());
            }
        }
        assert forall|t1: int, t2: int|
            0 <= t1 < t2 < s.filter(pred).len() implies s.filter(pred)[t1] != s.filter(pred)[t2] by {
            if t2 < sub.filter(pred).len() {
                assert(s.filter(pred)[t1] == sub.filter(pred)[t1]);
                assert(s.filter(pred)[t2] == sub.filter(pred)[t2]);
            } else {
                assert(s.filter(pred)[t1] == sub.filter(pred)[t1]);
                assert(s.filter(pred)[t2] == s.last());
                assert(sub.contains(sub.filter(pred)[t1]));
                let l = choose|l: int| 0 <= l < sub.len() && sub[l] == sub.filter(pred)[t1];
                assert(s[l] != s[s.len() - 1]);
            }
        }
    }
}

/// The content-addressed blob store: a map from content id to blob bytes,
/// plus a journal of the ids first inserted since the last drain.
#[derive(Debug)]
pub struct ContentStore {
    pub contents: Vec<(ContentId, Vec<u8>)>,
    pub new_contents: Vec<ContentId>,
}

impl Default for ContentStore {
    /// An empty store.
    fn default() -> (r: ContentStore)
        ensures
            r.wf(),
            r.contents_map() == Map::<ContentId, Seq<u8>>::empty(),
            r.journal() == Seq::<ContentId>::empty(),
    {
        ContentStore::new()
    }
}

impl ContentStore {
    /// The blobs the store holds, as a map from id to bytes.
    pub open spec fn contents_map(&self) -> Map<ContentId, Seq<u8>> {
        store_map(self.contents@)
    }

    /// The journal: ids first inserted since the last drain, oldest first.
    pub open spec fn journal(&self) -> Seq<ContentId> {
        self.new_contents@
    }

    /// Entry ids are distinct, journal ids are distinct, and every
    /// journaled id is resolvable in the store.
    pub open spec fn wf(&self) -> bool {
        &&& store_keys_distinct(self.contents@)
        &&& (forall|i: int, j: int|
            0 <= i < j < self.new_contents@.len() ==> self.new_contents@[i] != self.new_contents@[j])
        &&& (forall|i: int|
            0 <= i < self.new_contents@.len() ==> self.contents_map().contains_key(
                self.new_contents@[i],
            ))
    }

    /// An empty store.
    pub fn new() -> (r: ContentStore)
        ensures
            r.wf(),
            r.contents_map() == Map::<ContentId, Seq<u8>>::empty(),
            r.journal() == Seq::<ContentId>::empty(),
    {
        ContentStore { contents: Vec::new(), new_contents: Vec::new() }
    }

    /// Index of the entry carrying `id`, if any.
    fn find(&self, id: &ContentId) -> (r: Option<usize>)
        ensures
            match r {
                Some(i) => i < self.contents@.len() && self.contents@[i as int].0 == *id,
                None => forall|i: int| 0 <= i < self.contents@.len() ==> self.contents@[i].0 != *id,
            },
    {
        let n = self.contents.len();
        let mut i: usize = 0;
        while i < n
            invariant
                n == self.contents@.len(),
                0 <= i <= n,
                forall|j: int| 0 <= j < i ==> self.contents@[j].0 != *id,
            decreases n - i,
        {
            if self.contents[i].0 == *id {
                return Some(i);
            }
            i += 1;
        }
        None
    }

    /// The store holds a blob for `id`.
    pub fn has(&self, id: &ContentId) -> (r: bool)
        ensures
            r == self.contents_map().contains_key(*id),
    {
        proof {
            lemma_store_map_contains(self.contents@, *id);
        }
        self.find(id).is_some()
    }

    /// Stores `content` under an externally supplied `id`, journaling the
    /// id when it was not present before.  A present id keeps its place;
    /// its blob is replaced.
    pub fn insert(&mut self, id: ContentId, content: Vec<u8>)
        requires
            old(self).wf(),
        ensures
            final(self).wf(),
            final(self).contents_map() == old(self).contents_map().insert(id, content@),
            final(self).journal() == if old(self).contents_map().contains_key(id) {
                old(self).journal()
            } else {
                old(self).journal().push(id)
            },
    {
        proof {
            lemma_store_map_contains(self.contents@, id);
        }
        match self.find(&id) {
            Some(i) => {
                proof {
                    lemma_store_map_update(self.contents@, i as int, (id, content));
                }
                self.contents.set(i, (id, content));
                proof {
                    assert forall|a: int, b: int|
                        0 <= a < b < self.contents@.len() implies self.contents@[a].0
                        != self.contents@[b].0 by {
                        assert(old(self).contents@[a].0 != old(self).contents@[b].0);
                    }
                    assert forall|k: int|
                        0 <= k < self.new_contents@.len() implies self.contents_map().contains_key(
                        self.new_contents@[k]) by {
                        assert(old(self).contents_map().contains_key(self.new_contents@[k]));
                    }
                }
            },
            None => {
                self.contents.push((id, content));
                self.new_contents.push(id);
                proof {
                    let s = self.contents@;
                    assert(s.drop_last() =~= old(self).contents@);
                    assert(s.last() == (id, content));
                    assert forall|k: int|
                        0 <= k < self.new_contents@.len() implies self.contents_map().contains_key(
                        self.new_contents@[k]) by {
                        if k < self.new_contents@.len() - 1 {
                            assert(old(self).contents_map().contains_key(self.new_contents@[k]));
                        }
                    }
                    assert forall|a: int, b: int|
                        0 <= a < b < self.new_contents@.len() implies self.new_contents@[a]
                        != self.new_contents@[b] by {
                        if b == self.new_contents@.len() - 1 {
                            lemma_store_map_contains(old(self).contents@, self.new_contents@[a]);
                        }
                    }
                }
            },
        }
    }

    /// Computes the digest of `content`, stores the blob under it, and
    /// returns the digest.  Journals the digest on first insertion.
    pub fn add(&mut self, content: Vec<u8>) -> (r: ContentId)
        requires
            old(self).wf(),
        ensures
            final(self).wf(),
            r == digest_of(content@),
            final(self).contents_map() == old(self).contents_map().insert(r, content@),
            final(self).journal() == if old(self).contents_map().contains_key(r) {
                old(self).journal()
            } else {
                old(self).journal().push(r)
            },
    {
        let id = blake3_digest(&content);
        self.insert(id, content);
        id
    }

    /// The blob stored under `id`; fails with `MissingContent` when absent.
    pub fn get(&self, id: &ContentId) -> (r: Result<&Vec<u8>, SyncError>)
        requires
            self.wf(),
        ensures
            self.contents_map().contains_key(*id) ==> (r matches Ok(b) && b@
                == self.contents_map().index(*id)),
            !self.contents_map().contains_key(*id) ==> (r matches Err(e) && e
                == SyncError::MissingContent),
    {
        proof {
            lemma_store_map_contains(self.contents@, *id);
        }
        match self.find(id) {
            Some(i) => {
                proof {
                    lemma_store_map_index(self.contents@, i as int);
                }
                Ok(&self.contents[i].1)
            },
            None => Err(SyncError::MissingContent),
        }
    }

    /// Drops the blob stored under `id`, if any, and forgets the id from
    /// the journal so that every journaled id stays resolvable.
    pub fn remove(&mut self, id: &ContentId)
        requires
            old(self).wf(),
        ensures
            final(self).wf(),
            final(self).contents_map() == old(self).contents_map().remove(*id),
            final(self).journal() == old(self).journal().filter(|j: ContentId| j != *id),
    {
        proof {
            lemma_store_map_contains(self.contents@, *id);
        }
        match self.find(id) {
            Some(i) => {
                proof {
                    lemma_store_map_remove_idx(self.contents@, i as int);
                }
                let _ = self.contents.remove(i);
                proof {
                    let s0 = old(self).contents@;
                    assert forall|a: int, b: int|
                        0 <= a < b < self.contents@.len() implies self.contents@[a].0
                        != self.contents@[b].0 by {
                        assert(self.contents@[a] == if a < i { s0[a] } else { s0[a + 1] });
                        assert(self.contents@[b] == if b < i { s0[b] } else { s0[b + 1] });
                    }
                }
            },
            None => {
                proof {
                    assert(self.contents_map() =~= self.contents_map().remove(*id));
                }
            },
        }
        let pat = *id;
        let m = self.new_contents.len();
        let mut keep: Vec<ContentId> = Vec::new();
        let mut j: usize = 0;
        while j < m
            invariant
                m == old(self).new_contents@.len(),
                self.new_contents@ == old(self).new_contents@,
                store_map(self.contents@) == old(self).contents_map().remove(pat),
                store_keys_distinct(self.contents@),
                pat == *id,
                old(self).wf(),
                0 <= j <= m,
                keep@ == old(self).journal().take(j as int).filter(|c: ContentId| c != pat),
            decreases m - j,
        {
            let c = self.new_contents[j];
            proof {
                reveal(Seq::filter);
                assert(old(self).journal().take(j + 1).drop_last() =~= old(self).journal().take(
                    j as int,
                ));
                assert(old(self).journal().take(j + 1).last() == c);
            }
            if !(c == pat) {
                keep.push(c);
            }
            proof {
                reveal(Seq::filter);
                assert(keep@ == old(self).journal().take(j + 1).filter(|c: ContentId| c != pat));
            }
            j += 1;
        }
        proof {
            let pred = |c: ContentId| c != pat;
            assert(old(self).journal().take(m as int) =~= old(self).journal());
            lemma_journal_filter(old(self).journal(), pred);
            assert forall|t: int|
                0 <= t < keep@.len() implies store_map(self.contents@).contains_key(
                keep@[t]) by {
                assert(pred(keep@[t]) && old(self).journal().contains(keep@[t]));
                let l = choose|l: int|
                    0 <= l < old(self).journal().len() && old(self).journal()[l] == keep@[t];
                assert(old(self).contents_map().contains_key(old(self).journal()[l]));
            }
        }
        self.new_contents = keep;
    }

    /// Returns the journal and clears it; the blobs stay.
    pub fn drain_new_contents(&mut self) -> (r: Vec<ContentId>)
        requires
            old(self).wf(),
        ensures
            final(self).wf(),
            r@ == old(self).journal(),
            final(self).journal() == Seq::<ContentId>::empty(),
            final(self).contents_map() == old(self).contents_map(),
            forall|i: int| 0 <= i < r@.len() ==> final(self).contents_map().contains_key(r@[i]),
    {
        let n = self.new_contents.len();
        let mut out: Vec<ContentId> = Vec::new();
        let mut i: usize = 0;
        while i < n
            invariant
                n == self.new_contents@.len(),
                0 <= i <= n,
                out@ == self.new_contents@.subrange(0, i as int),
                *self == *old(self),
            decreases n - i,
        {
            let id = self.new_contents[i];
            out.push(id);
            proof {
                assert(out@ =~= self.new_contents@.subrange(0, i + 1));
            }
            i += 1;
        }
        self.new_contents = Vec::new();
        proof {
            assert(out@ =~= old(self).new_contents@);
        }
        out
    }
}

} // verus!
