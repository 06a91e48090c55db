use mempal::file_ingest::{Action, Event, FileIngest, Step};
use mempal::ingest::{
    chunk_plan, source_type_for, ChunkPlan, Drawer, IngestError, IngestOptions, IngestStats,
    SourceType,
};
use mempal::detect::Format;
use mempal::normalize::NormalizeError;
use std::path::{Path, PathBuf};

const DB: &str = "/home/palace.db";

/// What a run of an ingest asked for, and how it ended.
struct Run {
    asked: Vec<String>,
    drawers: Vec<Drawer>,
    slots: Vec<usize>,
    texts: Vec<String>,
    end: Step,
}

impl Run {
    fn stats(&self) -> IngestStats {
        match &self.end {
            Step::Finish { stats } => *stats,
            other => panic!("unexpected {other:?}"),
        }
    }

    fn error(self) -> IngestError {
        match self.end {
            Step::Fail { error } => error,
            other => panic!("unexpected {other:?}"),
        }
    }
}

/// Runs an ingest of chunks that are their own drawer ids, against a list of
/// stored ids. The action named `fails` fails.
struct Script<'a> {
    content: &'a [u8],
    options: IngestOptions<'a>,
    chunks: &'a [&'a str],
    stored: &'a [&'a str],
    vectors: Option<usize>,
    fails: &'a str,
}

impl<'a> Script<'a> {
    fn new(chunks: &'a [&'a str], stored: &'a [&'a str]) -> Self {
        Script {
            content: b"some words",
            options: IngestOptions::default(),
            chunks,
            stored,
            vectors: None,
            fails: "",
        }
    }

    fn run(&self) -> Run {
        let mut run = Run {
            asked: vec![],
            drawers: vec![],
            slots: vec![],
            texts: vec![],
            end: Step::Endless,
        };
        let mut state = FileIngest::new(
            DB.as_ref(),
            Path::new("/root/doc.md"),
            "wing",
            &self.options,
        );
        let mut event = Event::FileRead {
            bytes: self.content.to_vec(),
        };
        let mut routed = String::new();
        if self.fails == "read" {
            event = Event::Failed;
        }
        loop {
            let action = match state.advance(event).expect("event is awaited") {
                Step::Continue {
                    state: next,
                    action,
                } => {
                    state = next;
                    action
                }
                end => {
                    run.end = end;
                    return run;
                }
            };
            let (name, answer) = match action {
                Action::RouteRoom { text, wing } => {
                    assert_eq!(wing, "wing");
                    let room = format!("room of {text}");
                    routed = room.clone();
                    ("route", Event::RoomRouted { room })
                }
                Action::Chunk { .. } => {
                    let texts = self.chunks.iter().map(|id| format!("text {id}")).collect();
                    ("chunk", Event::Chunked { texts })
                }
                Action::NameDrawers { wing, room, texts } => {
                    assert_eq!(wing, "wing");
                    assert_eq!(room, self.options.room.unwrap_or(&routed));
                    let ids = texts.iter().map(|text| text["text ".len()..].to_string());
                    ("name", Event::DrawersNamed { ids: ids.collect() })
                }
                Action::AcquireLock {
                    home,
                    source_file,
                    timeout_secs,
                } => {
                    assert_eq!(home, PathBuf::from("/home"));
                    assert_eq!(source_file, "doc.md");
                    assert_eq!(timeout_secs, 5);
                    ("lock", Event::LockAcquired { wait_ms: 7 })
                }
                Action::CheckDrawer { drawer_id } => {
                    let found = self.stored.contains(&drawer_id.as_str());
                    ("check", Event::DrawerChecked { found })
                }
                Action::Embed { texts } => {
                    let vectors = self.vectors.unwrap_or(texts.len());
                    run.texts = texts;
                    ("embed", Event::Embedded { vectors })
                }
                Action::Stamp => {
                    let added_at = format!("time {}", run.drawers.len());
                    ("stamp", Event::Stamped { added_at })
                }
                Action::InsertDrawer { drawer } => {
                    run.drawers.push(drawer);
                    ("drawer", Event::DrawerInserted)
                }
                Action::InsertVector { drawer_id, slot } => {
                    assert_eq!(drawer_id, run.drawers[slot].id);
                    run.slots.push(slot);
                    ("vector", Event::VectorInserted)
                }
            };
            run.asked.push(name.to_string());
            event = if name == self.fails { Event::Failed } else { answer };
        }
    }
}

fn stats(chunks: usize, skipped: usize, lock_wait_ms: Option<u64>) -> IngestStats {
    IngestStats {
        files: 1,
        chunks,
        skipped,
        lock_wait_ms,
    }
}

#[test]
fn whole_course_of_an_ingest() {
    let run = Script::new(&["a", "b"], &[]).run();
    assert_eq!(
        run.asked,
        [
            "route", "chunk", "name", "lock", "check", "check", "embed", "stamp", "drawer",
            "vector", "stamp", "drawer", "vector"
        ]
    );
    assert_eq!(run.stats(), stats(2, 0, Some(7)));
    assert_eq!(run.texts, ["text a", "text b"]);
    assert_eq!(run.slots, [0, 1]);
    let drawer = &run.drawers[1];
    assert_eq!(drawer.id, "b");
    assert_eq!(drawer.content, "text b");
    assert_eq!(drawer.wing, "wing");
    assert_eq!(drawer.room.as_deref(), Some("room of some words"));
    assert_eq!(drawer.source_file.as_deref(), Some("doc.md"));
    assert_eq!(drawer.source_type, SourceType::Project);
    assert_eq!(drawer.added_at, "time 1");
    assert_eq!(drawer.chunk_index, Some(1));
    assert_eq!(drawer.importance, 0);
}

#[test]
fn duplicate_chunks_are_stored_once() {
    let run = Script::new(&["a", "b", "a", "c", "b"], &["c"]).run();
    assert_eq!(run.stats(), stats(2, 3, Some(7)));
    let ids: Vec<&str> = run.drawers.iter().map(|d| d.id.as_str()).collect();
    assert_eq!(ids, ["a", "b"]);
    let indices: Vec<Option<i64>> = run.drawers.iter().map(|d| d.chunk_index).collect();
    assert_eq!(indices, [Some(0), Some(1)]);
}

#[test]
fn later_chunks_keep_their_index() {
    let run = Script::new(&["x", "y", "z"], &["x", "y"]).run();
    assert_eq!(run.drawers.len(), 1);
    assert_eq!(run.drawers[0].id, "z");
    assert_eq!(run.drawers[0].chunk_index, Some(2));
    assert_eq!(run.slots, [0]);
    assert_eq!(run.texts, ["text z"]);
}

#[test]
fn second_ingest_finds_everything_stored() {
    let chunks = ["a", "b", "a"];
    let first = Script::new(&chunks, &["b"]).run();
    let mut stored = vec!["b".to_string()];
    stored.extend(first.drawers.iter().map(|d| d.id.clone()));
    let stored: Vec<&str> = stored.iter().map(String::as_str).collect();
    let second = Script::new(&chunks, &stored).run();
    assert_eq!(second.stats(), stats(0, 3, Some(7)));
    assert_eq!(second.asked, ["route", "chunk", "name", "lock", "check", "check", "check"]);
}

#[test]
fn second_ingest_skips_what_the_first_counted() {
    let chunks = ["a", "b", "a", "c", "d"];
    let first = Script::new(&chunks, &["c"]).run();
    assert_eq!(first.stats(), stats(3, 2, Some(7)));
    let ids: Vec<&str> = first.drawers.iter().map(|d| d.id.as_str()).collect();
    assert_eq!(ids, ["a", "b", "d"]);
    let mut stored = vec!["c"];
    stored.extend(ids);
    let second = Script::new(&chunks, &stored).run();
    assert_eq!(second.stats(), stats(0, 5, Some(7)));
    assert!(second.drawers.is_empty());
}

#[test]
fn dry_run_counts_as_the_run_does() {
    let chunks = ["a", "b", "a", "c", "b", "d"];
    for stored in [vec![], vec!["c"], vec!["a", "b", "c", "d"]] {
        let run = Script::new(&chunks, &stored).run();
        let mut script = Script::new(&chunks, &stored);
        script.options.dry_run = true;
        let dry = script.run();
        assert_eq!(dry.stats().files, run.stats().files);
        assert_eq!(dry.stats().chunks, run.stats().chunks);
        assert_eq!(dry.stats().skipped, run.stats().skipped);
        assert_eq!(dry.stats().lock_wait_ms, None);
        assert_eq!(run.drawers.len(), run.stats().chunks);
        assert!(dry.drawers.is_empty());
    }
}

#[test]
fn lock_that_is_not_free_in_time_stores_nothing() {
    let mut script = Script::new(&["a"], &[]);
    script.fails = "lock";
    let run = script.run();
    assert_eq!(run.asked, ["route", "chunk", "name", "lock"]);
    assert!(run.drawers.is_empty());
    assert!(matches!(run.error(), IngestError::Lock));
}

#[test]
fn dry_run_takes_no_lock_and_writes_nothing() {
    let mut script = Script::new(&["a", "b", "a"], &["b"]);
    script.options.dry_run = true;
    let run = script.run();
    assert_eq!(run.asked, ["route", "chunk", "name", "check", "check", "check"]);
    assert_eq!(run.stats(), stats(1, 2, None));
    assert!(run.drawers.is_empty());
}

#[test]
fn given_room_needs_no_routing() {
    let mut script = Script::new(&["a"], &[]);
    script.options.room = Some("attic");
    let run = script.run();
    assert_eq!(run.asked[0], "chunk");
    assert_eq!(run.drawers[0].room.as_deref(), Some("attic"));
}

#[test]
fn source_root_names_the_source() {
    let options = IngestOptions {
        room: Some("r"),
        source_root: Some(Path::new("/")),
        dry_run: false,
    };
    let state = FileIngest::new(DB.as_ref(), Path::new("/root/doc.md"), "w", &options);
    let Some(Step::Continue { state, .. }) = state.accept_text(Format::PlainText, "t".into())
    else {
        panic!("text is awaited");
    };
    let texts = vec!["t".to_string()];
    let Some(Step::Continue { state, .. }) = state.advance(Event::Chunked { texts }) else {
        panic!("texts are awaited");
    };
    let ids = vec!["d".to_string()];
    match state.advance(Event::DrawersNamed { ids }) {
        Some(Step::Continue {
            action: Action::AcquireLock { source_file, .. },
            ..
        }) => assert_eq!(source_file, "root/doc.md"),
        other => panic!("unexpected {other:?}"),
    }
}

#[test]
fn blank_files_and_empty_chunkings_are_done_at_once() {
    let mut script = Script::new(&["a"], &[]);
    script.content = b" \n\xc2\xa0\t";
    let run = script.run();
    assert!(run.asked.is_empty());
    assert_eq!(run.stats(), stats(0, 0, None));
    let run = Script::new(&[], &[]).run();
    assert_eq!(run.asked, ["route", "chunk"]);
    assert_eq!(run.stats(), stats(0, 0, None));
}

#[test]
fn bytes_that_are_no_text_are_replaced() {
    let mut script = Script::new(&["a"], &[]);
    script.content = b"caf\xc3\xa9 \xff!";
    let run = script.run();
    assert_eq!(
        run.drawers[0].room.as_deref(),
        Some("room of caf\u{e9} \u{fffd}!")
    );
}

#[test]
fn missing_vectors_leave_chunks_out() {
    let mut script = Script::new(&["a", "b", "c"], &[]);
    script.vectors = Some(2);
    assert_eq!(script.run().stats(), stats(2, 0, Some(7)));
    script.vectors = Some(0);
    assert_eq!(script.run().stats(), stats(0, 0, Some(7)));
    script.vectors = Some(9);
    assert_eq!(script.run().stats(), stats(3, 0, Some(7)));
}

#[test]
fn each_failure_has_its_error() {
    let fail = |name: &str| {
        let chunks = ["a", "b"];
        let mut script = Script::new(&chunks, &[]);
        script.fails = name;
        script.run().error()
    };
    let path = PathBuf::from("/root/doc.md");
    assert!(matches!(fail("read"), IngestError::ReadFile { path: p } if p == path));
    assert!(matches!(fail("route"), IngestError::LoadTaxonomy { wing } if wing == "wing"));
    assert!(matches!(fail("lock"), IngestError::Lock));
    assert!(matches!(fail("check"), IngestError::CheckDrawer { drawer_id } if drawer_id == "a"));
    assert!(matches!(fail("embed"), IngestError::EmbedChunks { path: p } if p == path));
    assert!(matches!(fail("drawer"), IngestError::InsertDrawer { drawer_id } if drawer_id == "a"));
    assert!(matches!(fail("vector"), IngestError::InsertVector { drawer_id } if drawer_id == "a"));
}

#[test]
fn unsupported_contents_fail_to_normalize() {
    let mut script = Script::new(&["a"], &[]);
    script.content = b"{\"messages\":5}";
    match script.run().error() {
        IngestError::Normalize {
            path,
            source: NormalizeError::UnsupportedChatGptShape,
        } => assert_eq!(path, PathBuf::from("/root/doc.md")),
        other => panic!("unexpected {other:?}"),
    }
}

#[test]
fn endless_conversation_ends_the_ingest() {
    let mut script = Script::new(&["a"], &[]);
    script.content = br#"{"mapping":{"a":{"children":["a"]}}}"#;
    assert!(matches!(script.run().end, Step::Endless));
}

#[test]
fn conversations_are_cut_by_turns() {
    let windows = ChunkPlan::Windows {
        window: 800,
        overlap: 100,
    };
    assert_eq!(chunk_plan(Format::PlainText), windows);
    assert_eq!(source_type_for(Format::PlainText), SourceType::Project);
    for format in [
        Format::ClaudeJsonl,
        Format::ChatGptJson,
        Format::CodexJsonl,
        Format::SlackJson,
    ] {
        assert_eq!(chunk_plan(format), ChunkPlan::Turns);
        assert_eq!(source_type_for(format), SourceType::Conversation);
    }
}

#[test]
fn conversation_text_reaches_the_chunks() {
    let options = IngestOptions {
        room: Some("r"),
        ..IngestOptions::default()
    };
    let state = FileIngest::new(DB.as_ref(), Path::new("a.json"), "w", &options);
    let bytes = br#"[{"role":"user","content":"q"}]"#.to_vec();
    match state.advance(Event::FileRead { bytes }) {
        Some(Step::Continue {
            state,
            action: Action::Chunk { text, plan },
        }) => {
            assert_eq!(text, "> q");
            assert_eq!(plan, ChunkPlan::Turns);
            let texts = vec!["x".to_string(), "y".to_string()];
            match state.advance(Event::Chunked { texts }) {
                Some(Step::Continue {
                    action: Action::NameDrawers { wing, room, texts },
                    ..
                }) => {
                    assert_eq!(wing, "w");
                    assert_eq!(room, "r");
                    assert_eq!(texts, ["x", "y"]);
                }
                other => panic!("unexpected {other:?}"),
            }
        }
        other => panic!("unexpected {other:?}"),
    }
}

#[test]
fn events_that_are_not_awaited_are_refused() {
    let new = || FileIngest::new(DB.as_ref(), Path::new("a"), "w", &IngestOptions::default());
    assert!(new().advance(Event::VectorInserted).is_none());
    assert!(new().advance(Event::DrawerChecked { found: true }).is_none());
    let Some(Step::Continue { state, .. }) = new().accept_text(Format::PlainText, "t".into())
    else {
        panic!("text is awaited");
    };
    assert!(state.accept_text(Format::PlainText, "t".into()).is_none());
}

#[test]
fn every_text_needs_one_id() {
    let options = IngestOptions {
        room: Some("r"),
        ..IngestOptions::default()
    };
    let named = |count: usize| {
        let state = FileIngest::new(DB.as_ref(), Path::new("a"), "w", &options);
        let Some(Step::Continue { state, .. }) = state.accept_text(Format::PlainText, "t".into())
        else {
            panic!("text is awaited");
        };
        let texts = vec!["x".to_string(), "y".to_string()];
        let Some(Step::Continue { state, .. }) = state.advance(Event::Chunked { texts }) else {
            panic!("texts are awaited");
        };
        state.advance(Event::DrawersNamed {
            ids: vec!["d".to_string(); count],
        })
    };
    assert!(named(1).is_none());
    assert!(named(2).is_some());
    assert!(named(3).is_none());
}

#[test]
fn long_waits_keep_their_low_bits() {
    let options = IngestOptions {
        room: Some("r"),
        ..IngestOptions::default()
    };
    let state = FileIngest::new(DB.as_ref(), Path::new("a"), "w", &options);
    let mut step = state.accept_text(Format::PlainText, "t".into());
    for event in [
        Event::Chunked {
            texts: vec!["t".to_string()],
        },
        Event::DrawersNamed {
            ids: vec!["d".to_string()],
        },
        Event::LockAcquired {
            wait_ms: (1u128 << 64) + 3,
        },
        Event::DrawerChecked { found: true },
    ] {
        let Some(Step::Continue { state, .. }) = step else {
            panic!("ingest goes on");
        };
        step = state.advance(event);
    }
    match step {
        Some(Step::Finish { stats: done }) => assert_eq!(done, stats(0, 1, Some(3))),
        other => panic!("unexpected {other:?}"),
    }
}

/// Two ingests at the same file, the lock of which is free or taken.
struct Shared {
    stored: Vec<String>,
    vectors: Vec<(String, usize)>,
    holder: Option<usize>,
}

impl Shared {
    /// What comes of the action, unless it has to wait for the lock.
    fn answer(&mut self, who: usize, action: &Action) -> Option<Event> {
        Some(match action {
            Action::RouteRoom { .. } => Event::RoomRouted { room: "r".into() },
            Action::Chunk { text, .. } => Event::Chunked {
                texts: vec![text.clone(), "more".into()],
            },
            Action::NameDrawers { wing, room, texts } => Event::DrawersNamed {
                ids: texts.iter().map(|t| format!("{wing}/{room}/{t}")).collect(),
            },
            Action::AcquireLock { .. } => {
                if self.holder.is_some() {
                    return None;
                }
                self.holder = Some(who);
                Event::LockAcquired {
                    wait_ms: who as u128,
                }
            }
            Action::CheckDrawer { drawer_id } => Event::DrawerChecked {
                found: self.stored.contains(drawer_id),
            },
            Action::Embed { texts } => Event::Embedded {
                vectors: texts.len(),
            },
            Action::Stamp => Event::Stamped {
                added_at: "now".into(),
            },
            Action::InsertDrawer { drawer } => {
                let room = drawer.room.as_deref().expect("a room");
                assert_eq!(drawer.id, format!("{}/{room}/{}", drawer.wing, drawer.content));
                self.stored.push(drawer.id.clone());
                Event::DrawerInserted
            }
            Action::InsertVector { drawer_id, slot } => {
                self.vectors.push((drawer_id.clone(), *slot));
                Event::VectorInserted
            }
        })
    }
}

#[test]
fn two_ingests_of_a_source_store_its_drawers_once() {
    // Turns are taken by the bits of `order`, then by whoever can go on.
    for order in 0..512usize {
        let mut shared = Shared {
            stored: vec![],
            vectors: vec![],
            holder: None,
        };
        let new = || {
            let options = IngestOptions::default();
            let state = FileIngest::new(DB.as_ref(), Path::new("/root/doc.md"), "w", &options);
            let bytes = b"hello P9-B test content".to_vec();
            match state.advance(Event::FileRead { bytes }) {
                Some(Step::Continue { state, action }) => Some((state, action)),
                other => panic!("unexpected {other:?}"),
            }
        };
        let mut runs = [new(), new()];
        let mut done: Vec<IngestStats> = vec![];
        let mut turn = 0;
        while done.len() < 2 {
            let who = if turn < 9 { order >> turn & 1 } else { turn % 2 };
            turn += 1;
            let Some((state, action)) = runs[who].take() else {
                continue;
            };
            let Some(event) = shared.answer(who, &action) else {
                runs[who] = Some((state, action));
                continue;
            };
            match state.advance(event) {
                Some(Step::Continue { state, action }) => runs[who] = Some((state, action)),
                Some(Step::Finish { stats }) => {
                    assert_eq!(stats.lock_wait_ms, Some(who as u64));
                    shared.holder = None;
                    done.push(stats);
                }
                other => panic!("unexpected {other:?}"),
            }
        }
        assert_eq!((done[0].chunks, done[0].skipped), (2, 0));
        assert_eq!((done[1].chunks, done[1].skipped), (0, 2));
        let ids = ["w/r/hello P9-B test content", "w/r/more"];
        assert_eq!(shared.stored, ids);
        let vectors: Vec<(String, usize)> = vec![(ids[0].into(), 0), (ids[1].into(), 1)];
        assert_eq!(shared.vectors, vectors);
    }
}

#[test]
fn failures_before_storing_leave_the_store_alone() {
    for name in ["read", "route", "lock", "check", "embed"] {
        let mut script = Script::new(&["a", "b"], &[]);
        script.fails = name;
        let run = script.run();
        assert!(run.drawers.is_empty(), "{name}");
        assert!(run.slots.is_empty(), "{name}");
        assert!(run.asked.iter().filter(|asked| *asked == "embed").count() <= 1);
    }
    let mut script = Script::new(&["a", "b"], &[]);
    script.fails = "drawer";
    let run = script.run();
    assert_eq!(run.drawers.len(), 1);
    assert!(run.slots.is_empty());
}
