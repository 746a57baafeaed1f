//! The watcher adapter: classifying raw change events, coalescing
//! bursts into one refresh batch, and filtering ignored paths.

use vstd::prelude::*;

use crate::path::FilePath;

verus! {

/// Milliseconds of quiet after the last event before a window closes.
pub const DEBOUNCE_QUIET_MS: u64 = 15;

/// Milliseconds after the first event at which a window closes whatever
/// still arrives.
pub const DEBOUNCE_MAX_MS: u64 = 100;

/// An upper bound on accepted clock readings, far beyond any real one,
/// so that deadline arithmetic cannot overflow.
pub const CLOCK_LIMIT_MS: u64 = 0x1000_0000_0000_0000;

/// A request to refresh part of the snapshot from disk.
#[derive(Debug)]
pub enum RefreshRequest {
    /// Rescan the whole subtree at this path.
    FullRescan(FilePath),
    /// Re-examine this one path.
    Path(FilePath),
}

impl View for RefreshRequest {
    type V = (bool, Seq<u8>);

    open spec fn view(&self) -> (bool, Seq<u8>) {
        match self {
            RefreshRequest::FullRescan(p) => (true, p@),
            RefreshRequest::Path(p) => (false, p@),
        }
    }
}

impl Clone for RefreshRequest {
    /// The copy stands for the same request.
    fn clone(&self) -> (r: Self)
        ensures
            r@ == self@,
    {
        match self {
            RefreshRequest::FullRescan(p) => RefreshRequest::FullRescan(p.clone()),
            RefreshRequest::Path(p) => RefreshRequest::Path(p.clone()),
        }
    }
}

/// The views of a list of requests.
pub open spec fn req_views(s: Seq<RefreshRequest>) -> Seq<(bool, Seq<u8>)> {
    s.map_values(|r: RefreshRequest| r@)
}

/// Whether two requests ask for the same thing.
fn req_eq(a: &RefreshRequest, b: &RefreshRequest) -> (r: bool)
    ensures
        r == (a@ == b@),
{
    match (a, b) {
        (RefreshRequest::FullRescan(p), RefreshRequest::FullRescan(q)) => p.eq_path(q),
        (RefreshRequest::Path(p), RefreshRequest::Path(q)) => p.eq_path(q),
        _ => false,
    }
}

/// One kind of raw change event, as the core reads it.
#[derive(Clone, Copy, PartialEq, Eq, Structural, Debug)]
pub enum WatchEventKind {
    Any,
    Access,
    CreateFile,
    CreateFolder,
    Modify,
    RemoveFile,
    RemoveFolder,
    Other,
}

/// Folder creations and removals need a subtree rescan; everything else
/// that is not discarded is a single-path refresh.
pub open spec fn spec_is_rescan(k: WatchEventKind) -> bool {
    k == WatchEventKind::CreateFolder || k == WatchEventKind::RemoveFolder
}

/// Classifies one raw event: access events are discarded; folder
/// creations and removals become subtree rescans of each affected path;
/// every other kind becomes a single-path refresh of each path.
pub fn refresh_requests_for_event(kind: &WatchEventKind, paths: Vec<FilePath>) -> (r: Option<
    Vec<RefreshRequest>,
>)
    ensures
        r is None <==> *kind is Access,
        r matches Some(v) ==> v@.len() == paths@.len() && (forall|t: int|
            0 <= t < v@.len() ==> (#[trigger] v@[t])@ == (spec_is_rescan(*kind), paths@[t]@)),
{
    let is_dir: bool = match kind {
        WatchEventKind::Any => false,
        WatchEventKind::Access => {
            return None;
        },
        WatchEventKind::CreateFile => false,
        WatchEventKind::CreateFolder => true,
        WatchEventKind::Modify => false,
        WatchEventKind::RemoveFile => false,
        WatchEventKind::RemoveFolder => true,
        WatchEventKind::Other => false,
    };
    let n = paths.len();
    let mut out: Vec<RefreshRequest> = Vec::new();
    let mut i: usize = 0;
    while i < n
        invariant
            n == paths@.len(),
            0 <= i <= n,
            is_dir == spec_is_rescan(*kind),
            out@.len() == i,
            forall|t: int|
                0 <= t < i ==> (#[trigger] out@[t])@ == (spec_is_rescan(*kind), paths@[t]@),
        decreases n - i,
    {
        let p = paths[i].clone();
        if is_dir {
            out.push(RefreshRequest::FullRescan(p));
        } else {
            out.push(RefreshRequest::Path(p));
        }
        i += 1;
    }
    Some(out)
}

/// The verdict of the ignore pattern on a path read as UTF-8; a path
/// that is not valid UTF-8 counts as ignored.  The verdict depends on
/// the pattern and the path alone.
pub uninterp spec fn spec_ignored(pattern: Seq<char>, path: Seq<u8>) -> bool;

/// The ignore predicate: a compiled regular expression over path text.
pub struct IgnoreFilter {
    re: regex::Regex,
    pattern: String,
}

#[verifier::external_type_specification]
#[verifier::external_body]
pub struct ExRegex(regex::Regex);

impl IgnoreFilter {
    /// The pattern this filter was compiled from.
    pub closed spec fn pattern_view(&self) -> Seq<char> {
        self.pattern@
    }

    /// Relies on regex::Regex::new: compiles `pattern`, and keeps the
    /// pattern text beside the compiled form.  A pattern the regex
    /// crate rejects gives `None`.
    #[verifier::external_body]
    pub fn new(pattern: &str) -> (r: Option<IgnoreFilter>)
        ensures
            r matches Some(f) ==> f.pattern_view() == pattern@,
    {
        match regex::Regex::new(pattern) {
            Ok(re) => Some(IgnoreFilter { re, pattern: pattern.to_string() }),
            Err(_) => None,
        }
    }

    /// Relies on regex::Regex::is_match: whether the path, read as
    /// UTF-8, matches the pattern this filter was compiled from; a path
    /// that is not valid UTF-8 counts as ignored.
    #[verifier::external_body]
    pub fn is_ignored(&self, path: &Vec<u8>) -> (r: bool)
        ensures
            r == spec_ignored(self.pattern_view(), path@),
    {
        match core::str::from_utf8(path.as_slice()) {
            Ok(s) => self.re.is_match(s),
            Err(_) => true,
        }
    }
}

/// A batch folded into a set of pending requests: each request joins
/// the set unless an equal one is already pending.
pub open spec fn dedup_add(
    acc: Seq<(bool, Seq<u8>)>,
    xs: Seq<(bool, Seq<u8>)>,
) -> Seq<(bool, Seq<u8>)>
    decreases xs.len(),
{
    if xs.len() == 0 {
        acc
    } else {
        let prev = dedup_add(acc, xs.drop_last());
        if prev.contains(xs.last()) {
            prev
        } else {
            prev.push(xs.last())
        }
    }
}

/// An open debounce window: the distinct requests collected so far, the
/// time the window opened, and the time of the latest batch.
#[derive(Debug)]
pub struct DebounceWindow {
    pub pending: Vec<RefreshRequest>,
    pub first_ms: u64,
    pub last_ms: u64,
}

impl DebounceWindow {
    /// Pending requests are distinct and the clock readings are sane.
    pub open spec fn wf(&self) -> bool {
        &&& (forall|a: int, b: int|
            0 <= a < b < self.pending@.len() ==> self.pending@[a]@ != self.pending@[b]@)
        &&& self.first_ms <= self.last_ms
        &&& self.last_ms < CLOCK_LIMIT_MS
    }

    /// When this window closes: a quiet gap after the latest batch, but
    /// no later than the hard ceiling after the first.
    pub open spec fn spec_deadline(&self) -> int {
        vstd::math::min(
            self.last_ms + DEBOUNCE_QUIET_MS,
            self.first_ms + DEBOUNCE_MAX_MS,
        )
    }

    /// Whether any request equal to `x` is already pending.
    fn contains_req(&self, x: &RefreshRequest) -> (r: bool)
        ensures
            r == req_views(self.pending@).contains(x@),
    {
        let n = self.pending.len();
        let mut i: usize = 0;
        while i < n
            invariant
                n == self.pending@.len(),
                0 <= i <= n,
                forall|t: int| 0 <= t < i ==> req_views(self.pending@)[t] != x@,
            decreases n - i,
        {
            if req_eq(&self.pending[i], x) {
                proof {
                    assert(req_views(self.pending@)[i as int] == x@);
                }
                return true;
            }
            i += 1;
        }
        proof {
            if req_views(self.pending@).contains(x@) {
                let t = choose|t: int|
                    0 <= t < req_views(self.pending@).len() && req_views(self.pending@)[t] == x@;
                assert(req_views(self.pending@)[t] != x@);
            }
        }
        false
    }

    /// Opens a window at `now_ms` holding the first batch, deduplicated.
    pub fn open(batch: Vec<RefreshRequest>, now_ms: u64) -> (r: DebounceWindow)
        requires
            now_ms < CLOCK_LIMIT_MS,
        ensures
            r.wf(),
            r.first_ms == now_ms,
            r.last_ms == now_ms,
            req_views(r.pending@) == dedup_add(Seq::<(bool, Seq<u8>)>::empty(), req_views(batch@)),
    {
        let mut w = DebounceWindow { pending: Vec::new(), first_ms: now_ms, last_ms: now_ms };
        proof {
            assert(req_views(w.pending@) =~= Seq::<(bool, Seq<u8>)>::empty());
        }
        w.absorb(batch, now_ms);
        w
    }

    /// Folds one more batch arriving at `now_ms` into the window,
    /// deduplicating with set semantics.
    pub fn absorb(&mut self, batch: Vec<RefreshRequest>, now_ms: u64)
        requires
            old(self).wf(),
            old(self).last_ms <= now_ms < CLOCK_LIMIT_MS,
        ensures
            final(self).wf(),
            final(self).first_ms == old(self).first_ms,
            final(self).last_ms == now_ms,
            req_views(final(self).pending@) == dedup_add(
                req_views(old(self).pending@),
                req_views(batch@),
            ),
    {
        let n = batch.len();
        let mut i: usize = 0;
        while i < n
            invariant
                self.wf(),
                self.first_ms == old(self).first_ms,
                self.last_ms == old(self).last_ms,
                n == batch@.len(),
                0 <= i <= n,
                req_views(self.pending@) == dedup_add(
                    req_views(old(self).pending@),
                    req_views(batch@).take(i as int),
                ),
            decreases n - i,
        {
            proof {
                assert(req_views(batch@).take(i + 1).drop_last() =~= req_views(batch@).take(
                    i as int,
                ));
                assert(req_views(batch@).take(i + 1).last() == batch@[i as int]@);
            }
            let x = batch[i].clone();
            if !self.contains_req(&x) {
                let ghost p0 = self.pending@;
                self.pending.push(x);
                proof {
                    assert(req_views(self.pending@) =~= req_views(p0).push(batch@[i as int]@));
                    assert forall|a: int, b: int|
                        0 <= a < b < self.pending@.len() implies self.pending@[a]@
                        != self.pending@[b]@ by {
                        if b == self.pending@.len() - 1 {
                            assert(req_views(p0)[a] == self.pending@[a]@);
                        }
                    }
                }
            }
            i += 1;
        }
        proof {
            assert(req_views(batch@).take(n as int) =~= req_views(batch@));
        }
        self.last_ms = now_ms;
    }

    /// The clock reading at which the window closes.
    pub fn deadline_ms(&self) -> (r: u64)
        requires
            self.wf(),
        ensures
            r == self.spec_deadline(),
    {
        let quiet = self.last_ms + DEBOUNCE_QUIET_MS;
        let ceiling = self.first_ms + DEBOUNCE_MAX_MS;
        if quiet < ceiling {
            quiet
        } else {
            ceiling
        }
    }

    /// Whether the window is closed at `now_ms`.
    pub fn should_deliver(&self, now_ms: u64) -> (r: bool)
        requires
            self.wf(),
        ensures
            r == (now_ms >= self.spec_deadline()),
    {
        let quiet = self.last_ms + DEBOUNCE_QUIET_MS;
        let ceiling = self.first_ms + DEBOUNCE_MAX_MS;
        let deadline = if quiet < ceiling {
            quiet
        } else {
            ceiling
        };
        now_ms >= deadline
    }

    /// Closes the window: the surviving requests, in arrival order, are
    /// exactly those whose paths the ignore filter does not reject.
    pub fn deliver(self, filter: &IgnoreFilter) -> (r: Vec<RefreshRequest>)
        requires
            self.wf(),
        ensures
            req_views(r@) == req_views(self.pending@).filter(
                |v: (bool, Seq<u8>)| !spec_ignored(filter.pattern_view(), v.1),
            ),
    {
        let ghost pred = |v: (bool, Seq<u8>)| !spec_ignored(filter.pattern_view(), v.1);
        let n = self.pending.len();
        let mut out: Vec<RefreshRequest> = Vec::new();
        let mut i: usize = 0;
        while i < n
            invariant
                n == self.pending@.len(),
                0 <= i <= n,
                pred == (|v: (bool, Seq<u8>)| !spec_ignored(filter.pattern_view(), v.1)),
                req_views(out@) == req_views(self.pending@).take(i as int).filter(pred),
            decreases n - i,
        {
            proof {
                reveal(Seq::filter);
                assert(req_views(self.pending@).take(i + 1).drop_last() =~= req_views(
                    self.pending@,
                ).take(i as int));
                assert(req_views(self.pending@).take(i + 1).last() == self.pending@[i as int]@);
            }
            let ignored = match &self.pending[i] {
                RefreshRequest::FullRescan(p) => filter.is_ignored(p.as_bytes()),
                RefreshRequest::Path(p) => filter.is_ignored(p.as_bytes()),
            };
            if !ignored {
                let ghost o0 = out@;
                out.push(self.pending[i].clone());
                proof {
                    assert(req_views(out@) =~= req_views(o0).push(self.pending@[i as int]@));
                }
            }
            i += 1;
        }
        proof {
            assert(req_views(self.pending@).take(n as int) =~= req_views(self.pending@));
        }
        out
    }
}

} // verus!
