use cct::{
    assert_cct_valid, build_application_cct, build_application_trace, build_task_tree,
    ApplicationTrace, Diagnostic, Event, EventPhase, TaskId, TaskTable, Trace, CCT,
};

fn ev(phase: EventPhase, ts: i64, pid: i32, tid: i32, name: &str) -> Event {
    Event {
        name: name.to_string(),
        category: String::new(),
        id: 0,
        scope: String::new(),
        phase_type: phase,
        pid,
        tid,
        timestamp: ts,
        duration: None,
        args: None,
    }
}

fn async_ev(phase: EventPhase, ts: i64, scope: &str, id: usize, cat: &str) -> Event {
    Event {
        name: String::new(),
        category: cat.to_string(),
        id,
        scope: scope.to_string(),
        phase_type: phase,
        pid: 7,
        tid: 7,
        timestamp: ts,
        duration: None,
        args: None,
    }
}

fn sample_trace() -> Vec<Event> {
    let mut complete = ev(EventPhase::Complete, 40, 1, 2, "x");
    complete.duration = Some(10);
    vec![
        ev(EventPhase::SyncBegin, 0, 1, 1, "main"),
        ev(EventPhase::Metadata, 0, 1, 1, "process_name"),
        async_ev(EventPhase::AsyncBegin, 1, "s", 9, "net"),
        ev(EventPhase::SyncBegin, 2, 1, 1, "f"),
        ev(EventPhase::SyncInstant, 3, 1, 1, "tick"),
        async_ev(EventPhase::ObjectCreate, 4, "heap", 3, ""),
        ev(EventPhase::SyncEnd, 5, 1, 1, ""),
        ev(EventPhase::Counter, 6, 1, 1, "c"),
        async_ev(EventPhase::AsyncInstant, 7, "s", 9, "net"),
        complete,
        ev(EventPhase::SyncInstant, 45, 1, 2, "in"),
        async_ev(EventPhase::ObjectSnapshot, 46, "heap", 3, ""),
        async_ev(EventPhase::AsyncEnd, 50, "s", 9, "net"),
        ev(EventPhase::SyncInstant, 55, 1, 2, "out"),
        async_ev(EventPhase::ObjectDestroy, 60, "heap", 3, ""),
        ev(EventPhase::SyncEnd, 70, 1, 1, ""),
        ev(EventPhase::ContextEnter, 71, 1, 1, "ctx"),
    ]
}

fn check_all(table: &cct::TaskTable<CCT>) {
    for i in 0..table.len() {
        assert!(assert_cct_valid(table.value_at(i)));
    }
}

#[test]
fn check_cct_ordering() {
    let app_cct = build_application_cct(Trace { events: sample_trace() });
    assert_eq!(app_cct.sync_tasks.len(), 2);
    assert_eq!(app_cct.async_tasks.len(), 1);
    assert_eq!(app_cct.object_life_cycle.len(), 1);
    check_all(&app_cct.sync_tasks);
    check_all(&app_cct.async_tasks);
    check_all(&app_cct.object_life_cycle);
}

#[test]
fn end_to_end_two_nested_calls() {
    let trace = Trace {
        events: vec![
            ev(EventPhase::SyncBegin, 0, 1, 1, "f"),
            ev(EventPhase::SyncBegin, 1, 1, 1, "g"),
            ev(EventPhase::SyncEnd, 2, 1, 1, ""),
            ev(EventPhase::SyncEnd, 3, 1, 1, ""),
        ],
    };
    let app = build_application_cct(trace);
    assert_eq!(app.sync_tasks.len(), 1);
    assert_eq!(app.async_tasks.len(), 0);
    assert_eq!(app.object_life_cycle.len(), 0);
    let tree = app.sync_tasks.get(&TaskId::Sync(1, 1)).unwrap();
    assert!(app.sync_tasks.get(&TaskId::Sync(1, 2)).is_none());
    assert_eq!(tree.len(), 3);
    let f = tree.get_node(1);
    let g = tree.get_node(2);
    assert_eq!((f.event().name.as_str(), f.start_time(), f.stop_time()), ("f", 0, Some(3)));
    assert_eq!((g.event().name.as_str(), g.start_time(), g.stop_time()), ("g", 1, Some(2)));
    assert_eq!(f.parent_node_id(), Some(0));
    assert_eq!(g.parent_node_id(), Some(1));
}

#[test]
fn events_are_sorted_before_the_tree_is_built() {
    let trace = Trace {
        events: vec![
            ev(EventPhase::SyncEnd, 3, 1, 1, ""),
            ev(EventPhase::SyncBegin, 1, 1, 1, "g"),
            ev(EventPhase::SyncEnd, 2, 1, 1, ""),
            ev(EventPhase::SyncBegin, 0, 1, 1, "f"),
        ],
    };
    let app = build_application_cct(trace);
    let tree = app.sync_tasks.get(&TaskId::Sync(1, 1)).unwrap();
    assert_eq!(tree.len(), 3);
    assert_eq!(tree.get_node(1).event().name, "f");
    assert_eq!(tree.get_node(1).stop_time(), Some(3));
    assert_eq!(tree.get_node(2).event().name, "g");
    assert_eq!(tree.get_node(2).parent_node_id(), Some(1));
}

#[test]
fn events_of_one_timestamp_keep_their_order() {
    let trace = Trace {
        events: vec![
            ev(EventPhase::SyncInstant, 5, 1, 1, "late"),
            ev(EventPhase::SyncBegin, 0, 1, 1, "a"),
            ev(EventPhase::SyncInstant, 0, 1, 1, "b"),
            ev(EventPhase::SyncEnd, 0, 1, 1, ""),
        ],
    };
    let app = build_application_cct(trace);
    let tree = app.sync_tasks.get(&TaskId::Sync(1, 1)).unwrap();
    assert_eq!(tree.len(), 4);
    assert_eq!(tree.get_node(1).event().name, "a");
    assert_eq!(tree.get_node(2).event().name, "b");
    assert_eq!(tree.get_node(2).parent_node_id(), Some(1));
    assert_eq!(tree.get_node(1).stop_time(), Some(0));
    assert_eq!(tree.get_node(3).event().name, "late");
    assert_eq!(tree.get_node(3).parent_node_id(), Some(0));
}

#[test]
fn events_are_gathered_by_task() {
    let app = build_application_trace(sample_trace());
    assert_eq!(app.sync_tasks.len(), 2);
    assert_eq!(app.sync_tasks.key_at(0), &TaskId::Sync(1, 1));
    assert_eq!(app.sync_tasks.key_at(1), &TaskId::Sync(1, 2));
    assert_eq!(app.sync_tasks.value_at(0).len(), 5);
    assert_eq!(app.sync_tasks.value_at(1).len(), 3);
    let net = TaskId::Async("s".to_string(), 9, "net".to_string());
    assert_eq!(app.async_tasks.get(&net).unwrap().len(), 3);
    let other = TaskId::Async("s".to_string(), 9, "disk".to_string());
    assert!(app.async_tasks.get(&other).is_none());
    let heap = TaskId::Object("heap".to_string(), 3);
    let object = app.object_life_cycle.get(&heap).unwrap();
    assert_eq!(object.len(), 3);
    assert_eq!(object[0].timestamp, 4);
    assert_eq!(object[1].timestamp, 46);
    assert_eq!(object[2].timestamp, 60);
}

#[test]
fn metadata_and_ignored_events_reach_no_task() {
    let app = build_application_trace(vec![
        ev(EventPhase::Metadata, 0, 1, 1, "thread_name"),
        ev(EventPhase::Counter, 1, 1, 1, "c"),
        ev(EventPhase::FlowStart, 2, 1, 1, "s"),
        ev(EventPhase::ContextLeave, 3, 1, 1, ")"),
        ev(EventPhase::Mark, 4, 1, 1, "R"),
    ]);
    assert_eq!(app.sync_tasks.len(), 0);
    assert_eq!(app.async_tasks.len(), 0);
    assert_eq!(app.object_life_cycle.len(), 0);
}

#[test]
fn joining_parts_gathers_the_whole() {
    let all = sample_trace();
    let whole = build_application_trace(all.clone());
    let second = all[6..].to_vec();
    let first = all[..6].to_vec();
    let mut joined = build_application_trace(first);
    joined.append(build_application_trace(second));
    assert_eq!(joined.sync_tasks.len(), whole.sync_tasks.len());
    for i in 0..whole.sync_tasks.len() {
        let id = whole.sync_tasks.key_at(i);
        assert_eq!(joined.sync_tasks.get(id), Some(whole.sync_tasks.value_at(i)));
    }
    for i in 0..whole.async_tasks.len() {
        let id = whole.async_tasks.key_at(i);
        assert_eq!(joined.async_tasks.get(id), Some(whole.async_tasks.value_at(i)));
    }
    for i in 0..whole.object_life_cycle.len() {
        let id = whole.object_life_cycle.key_at(i);
        assert_eq!(joined.object_life_cycle.get(id), Some(whole.object_life_cycle.value_at(i)));
    }
}

#[test]
fn an_empty_trace_has_no_tasks() {
    let app = ApplicationTrace::new();
    assert_eq!(app.sync_tasks.len(), 0);
    let trees = build_application_cct(Trace { events: Vec::new() });
    assert_eq!(trees.sync_tasks.len(), 0);
    assert_eq!(trees.async_tasks.len(), 0);
    assert_eq!(trees.object_life_cycle.len(), 0);
}

#[test]
fn reports_are_given_task_by_task() {
    let app = build_application_trace(vec![
        ev(EventPhase::SyncEnd, 9, 1, 1, "b"),
        ev(EventPhase::SyncBegin, 0, 2, 2, "a"),
        ev(EventPhase::SyncEnd, 1, 1, 1, "c"),
        ev(EventPhase::SyncBegin, 5, 1, 1, "d"),
        ev(EventPhase::SyncEnd, 3, 2, 2, "e"),
    ]);
    let (trees, notes) = app.application_cct_with_diagnostics();
    assert_eq!(trees.sync_tasks.len(), 2);
    assert_eq!(notes.sync_tasks, vec![vec![Diagnostic::OrphanClose(0)], Vec::new()]);
    assert!(notes.async_tasks.is_empty());
    assert!(notes.object_life_cycle.is_empty());
    let first = trees.sync_tasks.value_at(0);
    assert_eq!(first.len(), 2);
    assert_eq!(first.get_node(1).start_time(), 5);
    assert_eq!(first.get_node(1).stop_time(), Some(9));
    assert_eq!(first.get_node(1).event().name, "b");
}

#[test]
fn a_task_is_built_from_its_events_in_any_order() {
    let (tree, notes) = build_task_tree(vec![
        ev(EventPhase::SyncEnd, 7, 1, 1, ""),
        ev(EventPhase::SyncInstant, 3, 1, 1, "i"),
        ev(EventPhase::SyncBegin, 2, 1, 1, "a"),
        ev(EventPhase::SyncEnd, 1, 1, 1, "early"),
    ]);
    assert_eq!(notes, vec![Diagnostic::OrphanClose(0)]);
    assert_eq!(tree.len(), 3);
    assert_eq!(tree.get_node(1).stop_time(), Some(7));
    assert_eq!(tree.get_node(2).parent_node_id(), Some(1));
    let table = TaskTable::from_entries(vec![(TaskId::Sync(1, 1), tree)]);
    assert_eq!(table.len(), 1);
    let mut entries = table.into_entries();
    let (id, tree) = entries.pop().unwrap();
    assert_eq!(id, TaskId::Sync(1, 1));
    assert!(assert_cct_valid(&tree));
}
