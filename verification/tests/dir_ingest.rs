use mempal::dir_ingest::{DirAction, DirEvent, DirIngest, DirStep, EntryKind};
use mempal::ingest::{IngestError, IngestStats};
use std::path::{Path, PathBuf};

fn go(state: DirIngest, event: DirEvent) -> (DirIngest, DirAction) {
    match state.advance(event) {
        Some(DirStep::Continue { state, action }) => (state, action),
        other => panic!("unexpected {other:?}"),
    }
}

fn entry(path: &str, kind: EntryKind) -> DirEvent {
    DirEvent::Entry {
        path: PathBuf::from(path),
        kind,
    }
}

fn counts(files: usize, chunks: usize, skipped: usize) -> IngestStats {
    IngestStats {
        files,
        chunks,
        skipped,
        lock_wait_ms: Some(9),
    }
}

#[test]
fn directory_found_last_is_listed_next() {
    let state = DirIngest::new(Path::new("/d"));
    assert_eq!(state.current(), Path::new("/d"));
    let (state, action) = go(state, DirEvent::Opened);
    assert!(matches!(action, DirAction::NextEntry));
    let (state, _) = go(state, entry("/d/x", EntryKind::Directory));
    let (state, _) = go(state, entry("/d/y", EntryKind::Directory));
    let (state, action) = go(state, DirEvent::Exhausted);
    assert!(matches!(action, DirAction::OpenDir));
    assert_eq!(state.current(), Path::new("/d/y"));
    let (state, _) = go(state, DirEvent::Opened);
    let (state, _) = go(state, DirEvent::Exhausted);
    assert_eq!(state.current(), Path::new("/d/x"));
    let (state, _) = go(state, DirEvent::Opened);
    match state.advance(DirEvent::Exhausted) {
        Some(DirStep::Finish { stats }) => assert_eq!(stats, IngestStats::default()),
        other => panic!("unexpected {other:?}"),
    }
}

#[test]
fn skipped_directories_and_other_entries_are_left_alone() {
    let (mut state, _) = go(DirIngest::new(Path::new("/d")), DirEvent::Opened);
    for event in [
        entry("/d/.git", EntryKind::Directory),
        entry("/d/target", EntryKind::Directory),
        entry("/d/node_modules", EntryKind::Directory),
        entry("/d/socket", EntryKind::Other),
    ] {
        let (next, action) = go(state, event);
        assert!(matches!(action, DirAction::NextEntry));
        state = next;
    }
    assert!(matches!(
        state.advance(DirEvent::Exhausted),
        Some(DirStep::Finish { .. })
    ));
}

#[test]
fn counts_of_files_are_added() {
    let (mut state, _) = go(DirIngest::new(Path::new("/d")), DirEvent::Opened);
    for stats in [counts(1, 2, 3), counts(1, 0, 4)] {
        let (next, action) = go(state, entry("/d/target", EntryKind::File));
        assert!(matches!(action, DirAction::IngestFile { path } if path == Path::new("/d/target")));
        assert!(next.has_room_for(&stats));
        let (next, _) = go(next, DirEvent::FileIngested { stats });
        state = next;
    }
    assert!(state.has_room_for(&counts(usize::MAX - 2, 0, 0)));
    assert!(!state.has_room_for(&counts(usize::MAX - 1, 0, 0)));
    assert!(!state.has_room_for(&counts(0, usize::MAX - 1, 0)));
    assert!(!state.has_room_for(&counts(0, 0, usize::MAX - 6)));
    match state.advance(DirEvent::Exhausted) {
        Some(DirStep::Finish { stats }) => assert_eq!(
            stats,
            IngestStats {
                files: 2,
                chunks: 2,
                skipped: 7,
                lock_wait_ms: None
            }
        ),
        other => panic!("unexpected {other:?}"),
    }
}

#[test]
fn unreadable_directories_and_entries_fail() {
    let state = DirIngest::new(Path::new("/d"));
    match state.advance(DirEvent::Failed) {
        Some(DirStep::Fail {
            error: IngestError::ReadDir { path },
        }) => assert_eq!(path, PathBuf::from("/d")),
        other => panic!("unexpected {other:?}"),
    }
    let (state, _) = go(DirIngest::new(Path::new("/d")), DirEvent::Opened);
    match state.advance(DirEvent::Failed) {
        Some(DirStep::Fail {
            error: IngestError::ReadDirEntry { path },
        }) => assert_eq!(path, PathBuf::from("/d")),
        other => panic!("unexpected {other:?}"),
    }
}

#[test]
fn walk_refuses_events_it_does_not_await() {
    assert!(DirIngest::new(Path::new("/d")).advance(DirEvent::Exhausted).is_none());
    let (state, _) = go(DirIngest::new(Path::new("/d")), DirEvent::Opened);
    assert!(state.advance(DirEvent::Opened).is_none());
    let (state, _) = go(DirIngest::new(Path::new("/d")), DirEvent::Opened);
    let (state, _) = go(state, entry("/d/f", EntryKind::File));
    assert!(state.advance(DirEvent::Failed).is_none());
}

#[test]
fn error_of_a_file_is_that_of_the_walk() {
    let (state, _) = go(DirIngest::new(Path::new("/d")), DirEvent::Opened);
    let (state, _) = go(state, entry("/d/f", EntryKind::File));
    let error = IngestError::EmbedChunks {
        path: PathBuf::from("/d/f"),
    };
    match state.advance(DirEvent::FileFailed { error }) {
        Some(DirStep::Fail {
            error: IngestError::EmbedChunks { path },
        }) => assert_eq!(path, PathBuf::from("/d/f")),
        other => panic!("unexpected {other:?}"),
    }
    assert!(DirIngest::new(Path::new("/d"))
        .advance(DirEvent::FileFailed {
            error: IngestError::Lock
        })
        .is_none());
}

/// What the directories of a small tree hold.
fn listing(dir: &Path) -> Vec<(&'static str, EntryKind)> {
    match dir.to_str() {
        Some("/d") => vec![
            ("/d/a.md", EntryKind::File),
            ("/d/x", EntryKind::Directory),
            ("/d/.git", EntryKind::Directory),
            ("/d/socket", EntryKind::Other),
            ("/d/y", EntryKind::Directory),
            ("/d/target", EntryKind::File),
        ],
        Some("/d/x") => vec![
            ("/d/x/z", EntryKind::Directory),
            ("/d/x/b.md", EntryKind::File),
            ("/d/x/node_modules", EntryKind::Directory),
        ],
        Some("/d/x/z") => vec![("/d/x/z/c.md", EntryKind::File)],
        Some("/d/y") => vec![("/d/y/target", EntryKind::Directory)],
        other => panic!("{other:?} is not to be listed"),
    }
}

#[test]
fn walk_ingests_every_file_of_a_tree_once() {
    let mut state = DirIngest::new(Path::new("/d"));
    let mut action = DirAction::OpenDir;
    let mut left = vec![];
    let mut opened = vec![];
    let mut files = vec![];
    let stats = loop {
        let event = match action {
            DirAction::OpenDir => {
                opened.push(state.current().to_path_buf());
                left = listing(state.current());
                left.reverse();
                DirEvent::Opened
            }
            DirAction::NextEntry => match left.pop() {
                Some((path, kind)) => entry(path, kind),
                None => DirEvent::Exhausted,
            },
            DirAction::IngestFile { path } => {
                files.push(path);
                DirEvent::FileIngested {
                    stats: counts(1, 2, 3),
                }
            }
        };
        match state.advance(event) {
            Some(DirStep::Continue {
                state: next,
                action: asked,
            }) => {
                state = next;
                action = asked;
            }
            Some(DirStep::Finish { stats }) => break stats,
            other => panic!("unexpected {other:?}"),
        }
    };
    let paths = |names: &[&str]| names.iter().map(PathBuf::from).collect::<Vec<PathBuf>>();
    assert_eq!(opened, paths(&["/d", "/d/y", "/d/x", "/d/x/z"]));
    assert_eq!(
        files,
        paths(&["/d/a.md", "/d/target", "/d/x/b.md", "/d/x/z/c.md"])
    );
    assert_eq!(
        stats,
        IngestStats {
            files: 4,
            chunks: 8,
            skipped: 12,
            lock_wait_ms: None
        }
    );
}
