//! Event classification, debouncing, ignore filtering, paths, and the
//! retry policy.

use fync::DebounceWindow;
use fync::FilePath;
use fync::IgnoreFilter;
use fync::RefreshRequest;
use fync::RetryState;
use fync::WatchEventKind;
use fync::watch::refresh_requests_for_event;

fn fp(s: &str) -> FilePath {
    FilePath::new(s.as_bytes().to_vec())
}

fn req_path(r: &RefreshRequest) -> &FilePath {
    match r {
        RefreshRequest::FullRescan(p) => p,
        RefreshRequest::Path(p) => p,
    }
}

#[test]
fn events_classify_into_rescans_paths_or_nothing() {
    // Folder creation: every path becomes a subtree rescan.
    let reqs = refresh_requests_for_event(
        &WatchEventKind::CreateFolder,
        vec![fp("/r/a"), fp("/r/b")],
    )
    .unwrap();
    assert_eq!(reqs.len(), 2);
    assert!(matches!(&reqs[0], RefreshRequest::FullRescan(p) if *p == fp("/r/a")));
    assert!(matches!(&reqs[1], RefreshRequest::FullRescan(p) if *p == fp("/r/b")));

    // Folder removal rescans too.
    let reqs =
        refresh_requests_for_event(&WatchEventKind::RemoveFolder, vec![fp("/r/a")]).unwrap();
    assert!(matches!(&reqs[0], RefreshRequest::FullRescan(_)));

    // Everything else that survives is a single-path refresh.
    for kind in [
        WatchEventKind::Any,
        WatchEventKind::CreateFile,
        WatchEventKind::Modify,
        WatchEventKind::RemoveFile,
        WatchEventKind::Other,
    ] {
        let reqs = refresh_requests_for_event(&kind, vec![fp("/r/f.txt")]).unwrap();
        assert_eq!(reqs.len(), 1);
        assert!(matches!(&reqs[0], RefreshRequest::Path(p) if *p == fp("/r/f.txt")));
    }

    // Access events are discarded.
    assert!(refresh_requests_for_event(&WatchEventKind::Access, vec![fp("/r/f.txt")]).is_none());
}

#[test]
fn a_burst_of_events_collapses_to_one_delivery() {
    let filter = IgnoreFilter::new("\\.git").unwrap();
    // Twenty events on two distinct paths arrive within five
    // milliseconds of the first.
    let mut w = DebounceWindow::open(vec![RefreshRequest::Path(fp("/r/a.txt"))], 0);
    for i in 1..20u64 {
        let t = (i * 5) / 20;
        let path = if i % 2 == 0 { fp("/r/a.txt") } else { fp("/r/b.txt") };
        assert!(!w.should_deliver(t));
        w.absorb(vec![RefreshRequest::Path(path)], t);
    }
    // The window stays open through the burst and closes after the
    // quiet gap.
    assert!(!w.should_deliver(5));
    assert!(!w.should_deliver(18));
    assert!(w.should_deliver(19));
    // One delivery carries exactly the two distinct paths.
    let delivered = w.deliver(&filter);
    assert_eq!(delivered.len(), 2);
    assert_eq!(*req_path(&delivered[0]), fp("/r/a.txt"));
    assert_eq!(*req_path(&delivered[1]), fp("/r/b.txt"));
}

#[test]
fn the_window_closes_at_the_hard_ceiling() {
    // Batches that keep arriving cannot hold the window open past the
    // ceiling after the first event.
    let mut w = DebounceWindow::open(vec![RefreshRequest::Path(fp("/r/a.txt"))], 0);
    let mut t = 0u64;
    while t < 95 {
        t += 10;
        w.absorb(vec![RefreshRequest::Path(fp("/r/a.txt"))], t);
    }
    assert!(!w.should_deliver(99));
    assert!(w.should_deliver(100));
}

#[test]
fn ignored_paths_never_reach_delivery() {
    let filter = IgnoreFilter::new("\\.git").unwrap();
    let mut w = DebounceWindow::open(vec![RefreshRequest::Path(fp("/r/.git/config"))], 0);
    w.absorb(vec![RefreshRequest::Path(fp("/r/src/main.rs"))], 1);
    w.absorb(vec![RefreshRequest::FullRescan(fp("/r/.git/objects"))], 2);
    // A path that is not valid UTF-8 counts as ignored.
    w.absorb(vec![RefreshRequest::Path(FilePath::new(vec![0xff, 0xfe]))], 3);
    let delivered = w.deliver(&filter);
    assert_eq!(delivered.len(), 1);
    assert_eq!(*req_path(&delivered[0]), fp("/r/src/main.rs"));
}

#[test]
fn a_malformed_ignore_pattern_is_refused() {
    assert!(IgnoreFilter::new("(").is_none());
    assert!(IgnoreFilter::new("\\.git").is_some());
}

#[test]
fn retry_counts_attempts_and_resets_after_sustained_uptime() {
    let mut r = RetryState::new();
    assert_eq!(r.attempt, 1);
    // Nine further short-lived failures still retry.
    for _ in 0..9 {
        assert!(r.on_failure(false));
    }
    assert_eq!(r.attempt, 10);
    // The tenth failure in a row gives up.
    assert!(!r.on_failure(false));

    // A sustained connection resets the count.
    let mut r = RetryState::new();
    for _ in 0..9 {
        assert!(r.on_failure(false));
    }
    assert!(r.on_failure(true));
    assert_eq!(r.attempt, 1);
}

#[test]
fn relative_paths_strip_and_rejoin_around_the_root() {
    let root = fp("/home/user/tree");
    let inside = fp("/home/user/tree/dir/file.txt");
    let rel = FilePath::from_root_and_path(&inside, &root).unwrap();
    assert_eq!(rel, fp("dir/file.txt"));
    assert_eq!(rel.to_absolute(&root), inside);

    // The root itself maps to the empty relative path.
    let at_root = FilePath::from_root_and_path(&root, &root).unwrap();
    assert_eq!(at_root, fp(""));

    // A path outside the root, or one that only shares a name prefix,
    // is refused.
    assert!(FilePath::from_root_and_path(&fp("/home/user/other/f"), &root).is_none());
    assert!(FilePath::from_root_and_path(&fp("/home/user/treeish/f"), &root).is_none());

    assert!(inside.starts_with(&root));
    assert!(!root.starts_with(&inside));
}
