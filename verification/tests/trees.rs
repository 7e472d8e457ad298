use cct::{
    are_supported, assert_cct_valid, build_visual_tree, covers, is_chronological,
    is_node1_parent_of_node2, is_supported, parse_hex_id, sort_by_timestamp, stop_fits,
    try_build_application_cct, visualize_tree, Diagnostic, Event, EventPhase, PhaseGroup,
    TaskKind, Trace, CCT,
};

fn ev(phase: EventPhase, ts: i64, name: &str) -> Event {
    Event {
        name: name.to_string(),
        category: String::new(),
        id: 0,
        scope: String::new(),
        phase_type: phase,
        pid: 1,
        tid: 1,
        timestamp: ts,
        duration: None,
        args: None,
    }
}

fn complete(ts: i64, dur: Option<i64>, name: &str) -> Event {
    let mut event = ev(EventPhase::Complete, ts, name);
    event.duration = dur;
    event
}

fn named(kind: &str, value: serde_json::Value) -> Event {
    let mut event = ev(EventPhase::Metadata, 0, kind);
    event.args = Some(value);
    event
}

fn object_with(key: &str, value: serde_json::Value) -> serde_json::Value {
    let mut map = serde_json::Map::new();
    map.insert(key.to_string(), value);
    serde_json::Value::Object(map)
}

#[test]
fn metadata_names_process_and_thread() {
    let tree = CCT::from_events(vec![
        named("process_name", object_with("name", serde_json::Value::String("browser".into()))),
        named("thread_name", object_with("name", serde_json::Value::String("io".into()))),
        named("other", object_with("name", serde_json::Value::String("x".into()))),
    ]);
    assert_eq!(tree.len(), 1);
    assert_eq!(tree.process_name().map(|s| s.as_str()), Some("browser"));
    assert_eq!(tree.thread_name().map(|s| s.as_str()), Some("io"));
}

#[test]
fn metadata_without_a_name_gives_the_empty_name() {
    let number = object_with("name", serde_json::Value::Bool(true));
    let other_key = object_with("label", serde_json::Value::String("io".into()));
    let tree = CCT::from_events(vec![named("process_name", number), named("thread_name", other_key)]);
    assert_eq!(tree.process_name().map(|s| s.as_str()), Some(""));
    assert_eq!(tree.thread_name().map(|s| s.as_str()), Some(""));
    let mut bare = ev(EventPhase::Metadata, 0, "process_name");
    bare.args = Some(serde_json::Value::String("name".into()));
    let tree = CCT::from_events(vec![bare, ev(EventPhase::Metadata, 1, "thread_name")]);
    assert_eq!(tree.process_name().map(|s| s.as_str()), Some(""));
    assert_eq!(tree.thread_name().map(|s| s.as_str()), Some(""));
    let none = CCT::from_events(Vec::new());
    assert!(none.process_name().is_none());
    assert!(none.thread_name().is_none());
}

#[test]
fn ignored_phases_make_no_node() {
    let tree = CCT::from_events(vec![
        ev(EventPhase::Counter, 0, "a"),
        ev(EventPhase::Sample, 1, "b"),
        ev(EventPhase::Clock, 2, "c"),
        ev(EventPhase::FlowStart, 3, "d"),
        ev(EventPhase::FlowStep, 4, "e"),
        ev(EventPhase::FlowEnd, 5, "f"),
    ]);
    assert_eq!(tree.len(), 1);
}

#[test]
fn a_close_skips_ended_complete_nodes() {
    let tree = CCT::from_events(vec![
        ev(EventPhase::SyncBegin, 0, "outer"),
        complete(1, Some(2), "x"),
        complete(1, None, "zero"),
        ev(EventPhase::SyncEnd, 5, "done"),
        ev(EventPhase::SyncInstant, 6, "after"),
    ]);
    assert_eq!(tree.len(), 5);
    assert_eq!(tree.get_node(1).stop_time(), Some(5));
    assert_eq!(tree.get_node(1).event().name, "done");
    assert_eq!(tree.get_node(2).stop_time(), Some(3));
    assert_eq!(tree.get_node(2).parent_node_id(), Some(1));
    assert_eq!(tree.get_node(3).stop_time(), Some(1));
    assert_eq!(tree.get_node(3).parent_node_id(), Some(2));
    assert_eq!(tree.get_node(4).parent_node_id(), Some(0));
    assert!(assert_cct_valid(&tree));
}

#[test]
fn the_root_is_never_taken_off_the_stack() {
    let tree = CCT::from_events(vec![
        ev(EventPhase::SyncInstant, i64::MAX, "last"),
        ev(EventPhase::SyncBegin, i64::MAX, "open"),
    ]);
    assert_eq!(tree.len(), 3);
    assert_eq!(tree.get_node(1).parent_node_id(), Some(0));
    assert_eq!(tree.get_node(2).parent_node_id(), Some(0));
}

#[test]
fn validator_rejects_a_tree_that_breaks_the_nesting() {
    let tree = CCT::from_events(vec![
        ev(EventPhase::SyncBegin, 0, "a"),
        complete(1, Some(10), "long"),
        ev(EventPhase::SyncEnd, 2, ""),
        ev(EventPhase::SyncInstant, 3, "lost"),
    ]);
    assert_eq!(tree.get_node(3).parent_node_id(), Some(0));
    assert!(covers(tree.get_node(2), tree.get_node(3)));
    assert!(!is_node1_parent_of_node2(&tree, tree.get_node(2), tree.get_node(3)));
    assert!(!assert_cct_valid(&tree));
}

#[test]
fn covers_follows_the_intervals() {
    let tree = CCT::from_events(vec![
        ev(EventPhase::SyncBegin, 0, "a"),
        ev(EventPhase::SyncInstant, 5, "i"),
        ev(EventPhase::SyncInstant, 5, "j"),
        ev(EventPhase::SyncEnd, 9, ""),
        ev(EventPhase::SyncBegin, 20, "open"),
    ]);
    let a = tree.get_node(1);
    let i = tree.get_node(2);
    let j = tree.get_node(3);
    let open = tree.get_node(4);
    assert!(covers(a, i));
    assert!(covers(a, a));
    assert!(!covers(i, a));
    assert!(!covers(i, j));
    assert!(!covers(j, i));
    assert!(!covers(i, i));
    assert!(covers(tree.root(), a));
    assert!(!covers(a, tree.root()));
    assert!(covers(open, open));
    assert!(covers(a, open));
    assert!(!covers(open, a));
    assert!(is_node1_parent_of_node2(&tree, a, i));
    assert!(is_node1_parent_of_node2(&tree, tree.root(), j));
    assert!(is_node1_parent_of_node2(&tree, i, i));
    assert!(!is_node1_parent_of_node2(&tree, i, a));
    assert!(!is_node1_parent_of_node2(&tree, a, open));
}

#[test]
fn normalize_rebases_to_the_earliest_start() {
    let mut tree = CCT::from_events(vec![
        ev(EventPhase::SyncBegin, 100, "a"),
        ev(EventPhase::SyncBegin, 110, "open"),
        complete(120, Some(30), "x"),
        ev(EventPhase::SyncInstant, 125, "i"),
    ]);
    assert!(tree.can_normalize());
    tree.normalize();
    let spans: Vec<(i64, Option<i64>, Option<usize>)> = (0..tree.len())
        .map(|k| {
            let node = tree.get_node(k);
            (node.start_time(), node.stop_time(), node.parent_node_id())
        })
        .collect();
    assert_eq!(
        spans,
        vec![
            (0, Some(50), None),
            (0, Some(50), Some(0)),
            (10, Some(50), Some(1)),
            (20, Some(50), Some(2)),
            (25, Some(25), Some(3)),
        ]
    );
}

#[test]
fn normalize_twice_is_normalize_once() {
    let mut tree = CCT::from_events(vec![
        ev(EventPhase::SyncBegin, -7, "a"),
        complete(-5, Some(3), "x"),
        ev(EventPhase::SyncBegin, 4, "open"),
        ev(EventPhase::SyncEnd, 9, ""),
    ]);
    assert!(tree.can_normalize());
    tree.normalize();
    let once: Vec<(i64, Option<i64>)> =
        (0..tree.len()).map(|k| (tree.get_node(k).start_time(), tree.get_node(k).stop_time())).collect();
    assert_eq!(once, vec![(0, Some(16)), (0, Some(16)), (2, Some(5)), (11, Some(16))]);
    assert!(tree.can_normalize());
    tree.normalize();
    let twice: Vec<(i64, Option<i64>)> =
        (0..tree.len()).map(|k| (tree.get_node(k).start_time(), tree.get_node(k).stop_time())).collect();
    assert_eq!(once, twice);
}

#[test]
fn normalize_of_the_root_alone_and_of_open_nodes() {
    let mut lone = CCT::from_events(Vec::new());
    assert!(lone.can_normalize());
    lone.normalize();
    assert_eq!(lone.root().start_time(), 0);
    assert_eq!(lone.root().stop_time(), Some(i64::MAX));

    let mut open = CCT::from_events(vec![ev(EventPhase::SyncBegin, 5, "a")]);
    assert!(open.can_normalize());
    open.normalize();
    assert_eq!(open.get_node(1).start_time(), 0);
    assert_eq!(open.get_node(1).stop_time(), Some(i64::MAX - 5));
    assert_eq!(open.root().stop_time(), Some(i64::MAX - 5));

    let early = CCT::from_events(vec![ev(EventPhase::SyncBegin, -5, "a")]);
    assert!(!early.can_normalize());
    let wide = CCT::from_events(vec![
        ev(EventPhase::SyncInstant, i64::MIN, "first"),
        ev(EventPhase::SyncInstant, i64::MAX, "last"),
    ]);
    assert!(!wide.can_normalize());
}

#[test]
fn support_depends_on_phase_and_end() {
    assert!(is_supported(&ev(EventPhase::SyncBegin, 0, "a")));
    assert!(!is_supported(&ev(EventPhase::ContextEnter, 0, "a")));
    assert!(!is_supported(&ev(EventPhase::ContextLeave, 0, "a")));
    assert!(is_supported(&complete(i64::MAX, Some(0), "x")));
    assert!(!is_supported(&complete(i64::MAX, Some(1), "x")));
    assert!(stop_fits(&complete(i64::MIN, Some(0), "x")));
    assert!(!stop_fits(&complete(i64::MIN, Some(-1), "x")));
    assert!(!stop_fits(&complete(-1, Some(i64::MIN), "x")));
    assert!(stop_fits(&complete(0, Some(i64::MIN), "x")));
    assert!(stop_fits(&complete(i64::MAX, None, "x")));
    let mut begin = ev(EventPhase::SyncBegin, i64::MAX, "b");
    begin.duration = Some(i64::MAX);
    assert!(stop_fits(&begin));
}

#[test]
fn phase_codes_read_back() {
    let all = [
        (EventPhase::SyncBegin, 'B'),
        (EventPhase::SyncEnd, 'E'),
        (EventPhase::SyncInstant, 'i'),
        (EventPhase::AsyncBegin, 'b'),
        (EventPhase::AsyncEnd, 'e'),
        (EventPhase::AsyncInstant, 'n'),
        (EventPhase::FlowStart, 's'),
        (EventPhase::FlowEnd, 'f'),
        (EventPhase::FlowStep, 't'),
        (EventPhase::ObjectCreate, 'N'),
        (EventPhase::ObjectDestroy, 'D'),
        (EventPhase::ObjectSnapshot, 'O'),
        (EventPhase::MemoryDumpGlobal, 'V'),
        (EventPhase::MemoryDumpProcess, 'v'),
        (EventPhase::ContextEnter, '('),
        (EventPhase::ContextLeave, ')'),
        (EventPhase::Metadata, 'M'),
        (EventPhase::Mark, 'R'),
        (EventPhase::Clock, 'c'),
        (EventPhase::Sample, 'P'),
        (EventPhase::Complete, 'X'),
        (EventPhase::Counter, 'C'),
    ];
    for (phase, code) in all {
        assert_eq!(phase.code(), code);
        assert_eq!(EventPhase::from_code(code), Some(phase));
    }
    assert_eq!(EventPhase::from_code('I'), Some(EventPhase::SyncInstant));
    assert_eq!(EventPhase::from_code('x'), None);
    assert_eq!(EventPhase::from_code(' '), None);
    assert_eq!(EventPhase::default(), EventPhase::Sample);
    assert_eq!(EventPhase::Mark.group(), PhaseGroup::Point);
    assert_eq!(EventPhase::Complete.group(), PhaseGroup::Complete);
    assert_eq!(EventPhase::ContextEnter.group(), PhaseGroup::Unsupported);
    assert_eq!(EventPhase::Complete.task_kind(), Some(TaskKind::Sync));
    assert_eq!(EventPhase::ObjectSnapshot.task_kind(), Some(TaskKind::Object));
    assert_eq!(EventPhase::AsyncInstant.task_kind(), Some(TaskKind::Async));
    assert_eq!(EventPhase::Mark.task_kind(), None);
    assert_eq!(EventPhase::Metadata.task_kind(), None);
}

#[test]
fn merge_exchanges_what_is_present() {
    let mut base = ev(EventPhase::SyncBegin, 1, "A");
    base.category = "cat".into();
    base.scope = "scope".into();
    base.pid = 3;
    base.tid = 4;
    base.args = Some(serde_json::Value::Bool(true));
    let mut end = ev(EventPhase::SyncEnd, 9, "");
    end.id = 5;
    end.pid = 0;
    end.tid = 8;
    end.scope = "other".into();
    end.duration = Some(2);
    base.merge(&mut end);
    assert_eq!(base.name, "A");
    assert_eq!(base.category, "cat");
    assert_eq!(base.scope, "other");
    assert_eq!(base.id, 5);
    assert_eq!(base.pid, 3);
    assert_eq!(base.tid, 8);
    assert_eq!(base.timestamp, 1);
    assert_eq!(base.duration, None);
    assert_eq!(base.phase_type, EventPhase::SyncBegin);
    assert_eq!(base.args, Some(serde_json::Value::Bool(true)));
    assert_eq!(end.scope, "scope");
    assert_eq!(end.name, "");

    let mut with_args = ev(EventPhase::SyncEnd, 9, "B");
    with_args.args = Some(serde_json::Value::Null);
    base.merge(&mut with_args);
    assert_eq!(base.name, "B");
    assert_eq!(base.args, Some(serde_json::Value::Null));
    assert_eq!(with_args.name, "A");
    assert_eq!(with_args.args, Some(serde_json::Value::Bool(true)));
    assert_eq!(Event::default().name, "");
    assert_eq!(Event::default().phase_type, EventPhase::Sample);
    assert_eq!(Event::default().args, None);
}

#[test]
fn hexadecimal_identifiers() {
    assert_eq!(parse_hex_id("0x1f"), Some(31));
    assert_eq!(parse_hex_id("0X1F"), Some(31));
    assert_eq!(parse_hex_id("ff"), Some(255));
    assert_eq!(parse_hex_id("0"), Some(0));
    assert_eq!(parse_hex_id("0x0"), Some(0));
    assert_eq!(parse_hex_id("10"), Some(16));
    assert_eq!(parse_hex_id("+a"), Some(10));
    assert_eq!(parse_hex_id("0x+a"), Some(10));
    assert_eq!(parse_hex_id("000000000000000000000000001"), Some(1));
    assert_eq!(parse_hex_id("ffffffffffffffff"), usize::from_str_radix("ffffffffffffffff", 16).ok());
    assert_eq!(parse_hex_id("10000000000000000"), None);
    assert_eq!(parse_hex_id(""), None);
    assert_eq!(parse_hex_id("0x"), None);
    assert_eq!(parse_hex_id("+"), None);
    assert_eq!(parse_hex_id("-1"), None);
    assert_eq!(parse_hex_id("0xg"), None);
    assert_eq!(parse_hex_id("12 "), None);
    assert_eq!(parse_hex_id("x12"), None);
    assert_eq!(parse_hex_id("é"), None);
    for text in ["7b", "0x7B", "+0", "0x0x1", "++1", "deadBEEF", "0Xff", "00x1"] {
        let body = if text.starts_with("0x") || text.starts_with("0X") { &text[2..] } else { text };
        assert_eq!(parse_hex_id(text), usize::from_str_radix(body, 16).ok(), "{}", text);
    }
}

#[test]
fn drawing_tree_lists_children_and_extent() {
    let tree = CCT::from_events(vec![
        ev(EventPhase::SyncBegin, 10, "a"),
        ev(EventPhase::SyncInstant, 12, "i"),
        ev(EventPhase::SyncBegin, 13, "open"),
        ev(EventPhase::SyncEnd, 14, ""),
        ev(EventPhase::SyncEnd, 20, ""),
        complete(30, Some(5), "x"),
    ]);
    let visual = build_visual_tree(&tree);
    assert_eq!(visual.len(), 5);
    let root = visual.node(0);
    assert_eq!((root.start(), root.end()), (10, 35));
    assert_eq!(root.children(), &vec![1, 4]);
    assert_eq!(visual.node(1).children(), &vec![2, 3]);
    assert_eq!(visual.node(2).children(), &Vec::<usize>::new());
    assert_eq!((visual.node(2).start(), visual.node(2).end()), (12, 12));
    assert_eq!((visual.node(3).start(), visual.node(3).end()), (13, 14));
    assert_eq!((visual.node(4).start(), visual.node(4).end()), (30, 35));
    assert_eq!(visual.node(3).id(), 3);

    let open = CCT::from_events(vec![ev(EventPhase::SyncBegin, -10, "never closed")]);
    let visual = build_visual_tree(&open);
    assert_eq!((visual.node(0).start(), visual.node(0).end()), (-10, 0));
    assert_eq!((visual.node(1).start(), visual.node(1).end()), (-10, -10));
}

#[test]
fn drawing_puts_children_under_their_parent() {
    let tree = CCT::from_events(vec![
        ev(EventPhase::SyncBegin, 0, "a"),
        ev(EventPhase::SyncInstant, 1, "i"),
        ev(EventPhase::SyncEnd, 4, ""),
        ev(EventPhase::SyncBegin, 5, "b"),
        ev(EventPhase::SyncEnd, 9, ""),
    ]);
    let visual = build_visual_tree(&tree);
    let widths = vec![20, 11, 7, 8];
    let lines = visualize_tree(&visual, &widths, 20);
    assert_eq!(
        lines,
        vec![
            "|-------#0#--------|".to_string(),
            "|---#1#----|--#3#--|".to_string(),
            "|-#2#--|   ".to_string(),
        ]
    );
    let narrow = visualize_tree(&visual, &Vec::new(), 2);
    assert_eq!(narrow, vec!["|#0#|".to_string(), "|#1#|#3#|".to_string(), "|#2#|".to_string()]);
}

#[test]
fn orphans_and_ignored_events_are_reported() {
    let (tree, notes) = CCT::from_events_with_diagnostics(vec![
        ev(EventPhase::SyncEnd, 0, "orphan"),
        ev(EventPhase::Counter, 1, "c"),
        ev(EventPhase::SyncBegin, 2, "a"),
        ev(EventPhase::SyncInstant, 3, "i"),
        ev(EventPhase::SyncEnd, 4, ""),
        ev(EventPhase::Metadata, 5, "thread_name"),
        ev(EventPhase::SyncEnd, 6, "again"),
        ev(EventPhase::FlowEnd, 7, "f"),
    ]);
    assert_eq!(tree.len(), 3);
    assert_eq!(
        notes,
        vec![
            Diagnostic::OrphanClose(0),
            Diagnostic::IgnoredPhase(1),
            Diagnostic::OrphanClose(6),
            Diagnostic::IgnoredPhase(7),
        ]
    );
    let (_, none) = CCT::from_events_with_diagnostics(vec![
        ev(EventPhase::SyncBegin, 2, "a"),
        ev(EventPhase::SyncEnd, 4, ""),
    ]);
    assert!(none.is_empty());
    assert_eq!(tree.metadata().thread_name().map(|s| s.as_str()), Some(""));
    assert!(tree.metadata().process_name().is_none());
    assert_eq!(CCT::new().len(), 1);
    assert!(CCT::new().node(1).is_none());
    assert!(CCT::new().node(0).is_some());
}

#[test]
fn sorting_is_stable() {
    let mut events = vec![
        ev(EventPhase::SyncInstant, 3, "a"),
        ev(EventPhase::SyncInstant, 1, "b"),
        ev(EventPhase::SyncInstant, 3, "c"),
        ev(EventPhase::SyncInstant, -9, "d"),
        ev(EventPhase::SyncInstant, 1, "e"),
        ev(EventPhase::SyncInstant, 3, "f"),
        ev(EventPhase::SyncInstant, i64::MAX, "g"),
        ev(EventPhase::SyncInstant, i64::MIN, "h"),
        ev(EventPhase::SyncInstant, 1, "i"),
    ];
    sort_by_timestamp(&mut events);
    let names: Vec<&str> = events.iter().map(|e| e.name.as_str()).collect();
    assert_eq!(names, vec!["h", "d", "b", "e", "i", "a", "c", "f", "g"]);
    let mut empty: Vec<Event> = Vec::new();
    sort_by_timestamp(&mut empty);
    assert!(empty.is_empty());
    let mut many: Vec<Event> =
        (0..1000).map(|k| ev(EventPhase::SyncInstant, (k * 7919) % 101, "x")).collect();
    for (k, event) in many.iter_mut().enumerate() {
        event.id = k;
    }
    let mut expected = many.clone();
    expected.sort_by_key(|e| e.timestamp);
    sort_by_timestamp(&mut many);
    assert_eq!(many, expected);
}

#[test]
fn the_trying_builders_test_their_conditions() {
    let sorted = vec![ev(EventPhase::SyncBegin, 0, "a"), ev(EventPhase::SyncEnd, 0, "")];
    assert!(is_chronological(&sorted));
    assert!(are_supported(&sorted));
    assert_eq!(CCT::try_from_events(sorted).map(|tree| tree.len()), Some(2));

    let unsorted = vec![ev(EventPhase::SyncBegin, 1, "a"), ev(EventPhase::SyncEnd, 0, "")];
    assert!(!is_chronological(&unsorted));
    assert!(CCT::try_from_events(unsorted).is_none());

    let unsupported = vec![ev(EventPhase::SyncBegin, 0, "a"), ev(EventPhase::ContextEnter, 1, "")];
    assert!(is_chronological(&unsupported));
    assert!(!are_supported(&unsupported));
    assert!(CCT::try_from_events(unsupported).is_none());

    assert!(is_chronological(&Vec::new()));
    assert!(is_chronological(&vec![ev(EventPhase::Mark, 9, "m")]));
    assert!(!is_chronological(&vec![
        ev(EventPhase::Mark, 1, "a"),
        ev(EventPhase::Mark, 2, "b"),
        ev(EventPhase::Mark, 2, "c"),
        ev(EventPhase::Mark, 1, "d"),
    ]));

    let overflowing = Trace { events: vec![complete(i64::MAX, Some(1), "x")] };
    assert!(try_build_application_cct(overflowing).is_none());
    let fine = Trace {
        events: vec![complete(5, Some(1), "x"), ev(EventPhase::ContextLeave, 0, ")")],
    };
    assert_eq!(try_build_application_cct(fine).map(|app| app.sync_tasks.len()), Some(1));

    let mut early = CCT::from_events(vec![ev(EventPhase::SyncBegin, -5, "a")]);
    assert!(!early.try_normalize());
    assert_eq!(early.get_node(1).start_time(), -5);
    assert_eq!(early.get_node(1).stop_time(), None);
    let mut closed = CCT::from_events(vec![
        ev(EventPhase::SyncBegin, -5, "a"),
        ev(EventPhase::SyncEnd, 5, ""),
    ]);
    assert!(closed.try_normalize());
    assert_eq!(closed.get_node(1).start_time(), 0);
    assert_eq!(closed.get_node(1).stop_time(), Some(10));
    assert_eq!(closed.root().stop_time(), Some(10));
}
