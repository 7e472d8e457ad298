use cct::cct::verify::assert_cct_valid;
use cct::cct::CCT;
use cct::trace::{Event, EventPhase};

fn event(phase: EventPhase, ts: i64, name: &str) -> Event {
    Event {
        name: name.to_string(),
        category: String::new(),
        id: 0,
        scope: String::new(),
        phase_type: phase,
        pid: 1,
        tid: 1,
        timestamp: ts,
        duration: None,
        args: None,
    }
}

#[test]
fn nested_ranges_make_nested_nodes() {
    let events = vec![
        event(EventPhase::SyncBegin, 0, "f"),
        event(EventPhase::SyncBegin, 1, "g"),
        event(EventPhase::SyncEnd, 2, ""),
        event(EventPhase::SyncEnd, 3, ""),
    ];
    let tree = CCT::from_events(events);
    assert_eq!(tree.len(), 3);
    let f = tree.get_node(1);
    let g = tree.get_node(2);
    assert_eq!(f.event().name, "f");
    assert_eq!(f.start_time(), 0);
    assert_eq!(f.stop_time(), Some(3));
    assert_eq!(f.parent_node_id(), Some(0));
    assert_eq!(g.event().name, "g");
    assert_eq!(g.start_time(), 1);
    assert_eq!(g.stop_time(), Some(2));
    assert_eq!(g.parent_node_id(), Some(1));
    assert!(assert_cct_valid(&tree));
}

#[test]
fn instant_inside_complete_is_its_child() {
    let mut complete = event(EventPhase::Complete, 10, "x");
    complete.duration = Some(5);
    let events = vec![complete, event(EventPhase::SyncInstant, 12, "i")];
    let tree = CCT::from_events(events);
    assert_eq!(tree.len(), 3);
    assert_eq!(tree.get_node(1).stop_time(), Some(15));
    assert_eq!(tree.get_node(2).parent_node_id(), Some(1));
    assert_eq!(tree.get_node(2).stop_time(), Some(12));
    assert!(assert_cct_valid(&tree));
}

#[test]
fn instant_after_complete_is_its_sibling() {
    let mut complete = event(EventPhase::Complete, 10, "x");
    complete.duration = Some(5);
    let events = vec![complete, event(EventPhase::SyncInstant, 15, "i")];
    let tree = CCT::from_events(events);
    assert_eq!(tree.get_node(2).parent_node_id(), Some(0));
}

#[test]
fn orphan_close_changes_nothing() {
    let tree = CCT::from_events(vec![event(EventPhase::SyncEnd, 5, "late")]);
    assert_eq!(tree.len(), 1);
    assert_eq!(tree.root().stop_time(), Some(i64::MAX));
    assert_eq!(tree.root().start_time(), i64::MIN);

    let with_orphan = CCT::from_events(vec![
        event(EventPhase::SyncBegin, 0, "f"),
        event(EventPhase::SyncEnd, 1, ""),
        event(EventPhase::SyncEnd, 2, ""),
        event(EventPhase::SyncInstant, 3, "i"),
    ]);
    let without = CCT::from_events(vec![
        event(EventPhase::SyncBegin, 0, "f"),
        event(EventPhase::SyncEnd, 1, ""),
        event(EventPhase::SyncInstant, 3, "i"),
    ]);
    assert_eq!(with_orphan.len(), without.len());
    for i in 0..without.len() {
        let a = with_orphan.get_node(i);
        let b = without.get_node(i);
        assert_eq!(a.start_time(), b.start_time());
        assert_eq!(a.stop_time(), b.stop_time());
        assert_eq!(a.parent_node_id(), b.parent_node_id());
        assert_eq!(a.event(), b.event());
    }
}

#[test]
fn merge_keeps_what_the_end_event_lacks() {
    let mut begin = event(EventPhase::SyncBegin, 0, "A");
    begin.id = 0;
    let mut end = event(EventPhase::SyncEnd, 4, "");
    end.id = 5;
    let tree = CCT::from_events(vec![begin, end]);
    let node = tree.get_node(1);
    assert_eq!(node.event().name, "A");
    assert_eq!(node.event().id, 5);
    assert_eq!(node.stop_time(), Some(4));
}
