//! Tests for the lineage ledger, the history records and the command event
//! constructors.

use family::{Action, BiologicalClock, CudEvent, History, Identifier, Lifespan, Lineage};

#[test]
fn new_parent_history_has_no_child() {
    let h: History<u64> = History::new_parent_history(Action::Create, Identifier(1u64), Ok(()));
    assert_eq!(h.action, Action::Create);
    assert_eq!(h.parent_identifier, Identifier(1u64));
    assert_eq!(h.child_identifier, None);
    assert_eq!(h.result, Ok(()));
}

#[test]
fn new_child_history_carries_both_identifiers() {
    let h: History<u64> =
        History::new_child_history(Action::Delete, Identifier(1u64), Identifier(2u64), Err(()));
    assert_eq!(h.action, Action::Delete);
    assert_eq!(h.parent_identifier, Identifier(1u64));
    assert_eq!(h.child_identifier, Some(Identifier(2u64)));
    assert_eq!(h.result, Err(()));
}

#[test]
fn ledger_starts_empty_and_appends_in_order() {
    let mut lineage: Lineage<u64> = Lineage::new();
    assert_eq!(lineage.histories.len(), 0);
    lineage.add_history(History::new_parent_history(Action::Create, Identifier(1u64), Ok(())));
    lineage.add_history(History::new_parent_history(Action::Delete, Identifier(1u64), Ok(())));
    assert_eq!(lineage.histories.len(), 2);
    assert_eq!(lineage.histories[0].action, Action::Create);
    assert_eq!(lineage.histories[1].action, Action::Delete);
}

#[test]
fn filters_by_parent_identifier() {
    let mut lineage: Lineage<u64> = Lineage::new();
    lineage.add_history(History::new_parent_history(Action::Create, Identifier(1u64), Ok(())));
    lineage.add_history(History::new_parent_history(Action::Create, Identifier(2u64), Ok(())));
    lineage.add_history(History::new_child_history(
        Action::Create,
        Identifier(1u64),
        Identifier(3u64),
        Err(()),
    ));
    let hits = lineage.get_histories_by_parent_identifier(&Identifier(1u64));
    assert_eq!(hits.len(), 2);
    assert_eq!(hits[0].action, Action::Create);
    assert_eq!(hits[1].child_identifier, Some(Identifier(3u64)));
}

#[test]
fn filters_by_child_identifier() {
    let mut lineage: Lineage<u64> = Lineage::new();
    lineage.add_history(History::new_parent_history(Action::Create, Identifier(3u64), Ok(())));
    lineage.add_history(History::new_child_history(
        Action::Update,
        Identifier(1u64),
        Identifier(3u64),
        Ok(()),
    ));
    let hits = lineage.get_histories_by_child_identifier(&Identifier(3u64));
    assert_eq!(hits.len(), 1);
    assert_eq!(hits[0].action, Action::Update);
}

#[test]
fn most_recent_result_by_parent_identifier_wins() {
    let mut lineage: Lineage<u64> = Lineage::new();
    assert_eq!(lineage.get_result_from_parent_identifier(&Identifier(1u64)), Err(()));
    lineage.add_history(History::new_parent_history(Action::Create, Identifier(1u64), Ok(())));
    lineage.add_history(History::new_parent_history(Action::Create, Identifier(1u64), Err(())));
    lineage.add_history(History::new_parent_history(Action::Create, Identifier(9u64), Ok(())));
    assert_eq!(lineage.get_result_from_parent_identifier(&Identifier(1u64)), Err(()));
}

#[test]
fn most_recent_result_by_child_identifier_wins() {
    let mut lineage: Lineage<u64> = Lineage::new();
    assert_eq!(lineage.get_result_from_child_identifier(&Identifier(2u64)), Err(()));
    lineage.add_history(History::new_child_history(
        Action::Delete,
        Identifier(1u64),
        Identifier(2u64),
        Err(()),
    ));
    lineage.add_history(History::new_child_history(
        Action::Create,
        Identifier(1u64),
        Identifier(2u64),
        Ok(()),
    ));
    assert_eq!(lineage.get_result_from_child_identifier(&Identifier(2u64)), Ok(()));
}

#[test]
fn clear_history_empties_the_ledger() {
    let mut lineage: Lineage<u64> = Lineage::new();
    lineage.add_history(History::new_parent_history(Action::Create, Identifier(1u64), Ok(())));
    lineage.clear_history();
    assert_eq!(lineage.histories.len(), 0);
}

#[test]
fn clear_parent_history_removes_matching_records() {
    let mut lineage: Lineage<u64> = Lineage::new();
    lineage.add_history(History::new_parent_history(Action::Create, Identifier(1u64), Ok(())));
    lineage.add_history(History::new_parent_history(Action::Create, Identifier(2u64), Ok(())));
    lineage.clear_parent_history(&Identifier(1u64));
    assert_eq!(lineage.histories.len(), 1);
    assert_eq!(lineage.histories[0].parent_identifier, Identifier(2u64));
}

#[test]
fn clear_child_history_removes_matching_records() {
    let mut lineage: Lineage<u64> = Lineage::new();
    lineage.add_history(History::new_child_history(
        Action::Create,
        Identifier(1u64),
        Identifier(2u64),
        Ok(()),
    ));
    lineage.add_history(History::new_parent_history(Action::Create, Identifier(2u64), Ok(())));
    lineage.clear_child_history(&Identifier(2u64));
    assert_eq!(lineage.histories.len(), 1);
    assert_eq!(lineage.histories[0].child_identifier, None);
}

#[test]
fn remove_history_removes_equal_records_only() {
    let mut lineage: Lineage<u64> = Lineage::new();
    lineage.add_history(History::new_parent_history(Action::Create, Identifier(1u64), Ok(())));
    lineage.add_history(History::new_parent_history(Action::Create, Identifier(1u64), Err(())));
    lineage.remove_history(History::new_parent_history(Action::Create, Identifier(1u64), Ok(())));
    assert_eq!(lineage.histories.len(), 1);
    assert_eq!(lineage.histories[0].result, Err(()));
}

#[test]
fn pop_returns_most_recent_record() {
    let mut lineage: Lineage<u64> = Lineage::new();
    assert!(lineage.pop().is_none());
    lineage.add_history(History::new_parent_history(Action::Create, Identifier(1u64), Ok(())));
    lineage.add_history(History::new_parent_history(Action::Clear, Identifier(2u64), Err(())));
    let top = lineage.pop().unwrap();
    assert_eq!(top.action, Action::Clear);
    assert_eq!(top.parent_identifier, Identifier(2u64));
    assert_eq!(lineage.histories.len(), 1);
}

#[test]
fn default_ledger_is_empty() {
    let lineage: Lineage<String> = Default::default();
    assert_eq!(lineage.histories.len(), 0);
}

#[test]
fn parent_event_constructors_carry_their_action() {
    let cases: Vec<(CudEvent<Lifespan, u64>, Action)> = vec![
        (CudEvent::create_parent(1u64, Lifespan(None)), Action::Create),
        (CudEvent::create_or_modify_parent(1u64, Lifespan(None)), Action::CreateOrModify),
        (CudEvent::update_parent(1u64, Lifespan(None)), Action::Update),
        (CudEvent::delete_parent(1u64, Lifespan(None)), Action::Delete),
        (CudEvent::clear_parent(1u64, Lifespan(None)), Action::Clear),
    ];
    for (ev, action) in &cases {
        assert_eq!(ev.get_action(), action);
        assert!(ev.get_parent_identifier().is_none());
        assert_eq!(ev.get_self_identifier(), &Identifier(1u64));
        assert_eq!(ev.get_bundle(), &Lifespan(None));
    }
}

#[test]
fn child_event_constructors_carry_both_identifiers() {
    let cases: Vec<(CudEvent<Lifespan, u64>, Action)> = vec![
        (CudEvent::create_child(1u64, 2u64, Lifespan(None)), Action::Create),
        (CudEvent::create_or_modify_child(1u64, 2u64, Lifespan(None)), Action::CreateOrModify),
        (CudEvent::update_child(1u64, 2u64, Lifespan(None)), Action::Update),
        (CudEvent::delete_child(1u64, 2u64, Lifespan(None)), Action::Delete),
        (CudEvent::clear_child(1u64, 2u64, Lifespan(None)), Action::Clear),
    ];
    for (ev, action) in &cases {
        assert_eq!(ev.get_action(), action);
        assert_eq!(ev.get_parent_identifier(), &Some(Identifier(1u64)));
        assert_eq!(ev.get_self_identifier(), &Identifier(2u64));
    }
}

#[test]
fn to_history_distinguishes_parent_and_child_events() {
    let parent_ev: CudEvent<Lifespan, u64> = CudEvent::create_parent(1u64, Lifespan(None));
    let h = parent_ev.to_history(Ok(()));
    assert_eq!(h.parent_identifier, Identifier(1u64));
    assert_eq!(h.child_identifier, None);
    assert_eq!(h.result, Ok(()));

    let child_ev: CudEvent<Lifespan, u64> = CudEvent::delete_child(1u64, 2u64, Lifespan(None));
    let h2 = child_ev.to_history(Err(()));
    assert_eq!(h2.action, Action::Delete);
    assert_eq!(h2.parent_identifier, Identifier(1u64));
    assert_eq!(h2.child_identifier, Some(Identifier(2u64)));
    assert_eq!(h2.result, Err(()));
}

#[test]
fn biological_clock_accumulates() {
    let mut clock = BiologicalClock::new();
    assert_eq!(clock.elapsed, 0);
    clock.tick(3);
    clock.tick(4);
    assert_eq!(clock.elapsed, 7);
}
