//! Scenario tests for the CRUD engine and the expiry sweeps, driven through
//! the public batch API with plain integer and string keys.

use family::{
    cud_bundle, get_entity_by_identifier, refresh_by_own_lifetime, refresh_by_parent_lifetime,
    Action, CudEvent, EntityGraph, Identifier, Lifespan, Lineage,
};

#[test]
fn create_spawns_exactly_one_entity() {
    let mut graph: EntityGraph<Lifespan, u64> = EntityGraph::new();
    let mut lineage: Lineage<u64> = Lineage::new();
    cud_bundle(
        &mut graph,
        vec![CudEvent::create_parent(7u64, Lifespan(None))],
        &mut lineage,
    );
    assert_eq!(graph.len(), 1);
    assert!(get_entity_by_identifier(&graph, &Identifier(7u64)).is_some());
    assert_eq!(lineage.histories.len(), 1);
    assert_eq!(lineage.histories[0].action, Action::Create);
    assert_eq!(lineage.histories[0].parent_identifier, Identifier(7u64));
    assert!(lineage.histories[0].child_identifier.is_none());
    assert_eq!(lineage.histories[0].result, Ok(()));
}

#[test]
fn create_twice_second_fails() {
    let mut graph: EntityGraph<Lifespan, u64> = EntityGraph::new();
    let mut lineage: Lineage<u64> = Lineage::new();
    cud_bundle(
        &mut graph,
        vec![CudEvent::create_parent(7u64, Lifespan(None))],
        &mut lineage,
    );
    cud_bundle(
        &mut graph,
        vec![CudEvent::create_parent(7u64, Lifespan(None))],
        &mut lineage,
    );
    assert_eq!(graph.len(), 1);
    assert_eq!(lineage.histories.len(), 2);
    assert_eq!(lineage.histories[0].result, Ok(()));
    assert_eq!(lineage.histories[1].result, Err(()));
}

#[test]
fn delete_absent_fails_and_changes_nothing() {
    let mut graph: EntityGraph<Lifespan, u64> = EntityGraph::new();
    let mut lineage: Lineage<u64> = Lineage::new();
    cud_bundle(
        &mut graph,
        vec![
            CudEvent::create_parent(1u64, Lifespan(None)),
            CudEvent::delete_parent(2u64, Lifespan(None)),
        ],
        &mut lineage,
    );
    assert_eq!(graph.len(), 1);
    assert_eq!(lineage.histories.len(), 2);
    assert_eq!(lineage.histories[1].action, Action::Delete);
    assert_eq!(lineage.histories[1].result, Err(()));
    assert!(get_entity_by_identifier(&graph, &Identifier(1u64)).is_some());
}

#[test]
fn update_absent_fails() {
    let mut graph: EntityGraph<Lifespan, u64> = EntityGraph::new();
    let mut lineage: Lineage<u64> = Lineage::new();
    cud_bundle(
        &mut graph,
        vec![CudEvent::update_parent(1u64, Lifespan(None))],
        &mut lineage,
    );
    assert_eq!(graph.len(), 0);
    assert_eq!(lineage.histories[0].result, Err(()));
}

#[test]
fn clear_absent_fails() {
    let mut graph: EntityGraph<Lifespan, u64> = EntityGraph::new();
    let mut lineage: Lineage<u64> = Lineage::new();
    cud_bundle(
        &mut graph,
        vec![CudEvent::clear_parent(1u64, Lifespan(None))],
        &mut lineage,
    );
    assert_eq!(graph.len(), 0);
    assert_eq!(lineage.histories[0].result, Err(()));
}

#[test]
fn child_under_absent_parent_fails_without_spawning() {
    let mut graph: EntityGraph<Lifespan, u64> = EntityGraph::new();
    let mut lineage: Lineage<u64> = Lineage::new();
    cud_bundle(
        &mut graph,
        vec![CudEvent::create_child(1u64, 2u64, Lifespan(None))],
        &mut lineage,
    );
    assert_eq!(graph.len(), 0);
    assert!(get_entity_by_identifier(&graph, &Identifier(2u64)).is_none());
    assert_eq!(lineage.histories.len(), 1);
    assert_eq!(lineage.histories[0].result, Err(()));
    assert_eq!(lineage.histories[0].parent_identifier, Identifier(1u64));
    assert_eq!(lineage.histories[0].child_identifier, Some(Identifier(2u64)));
}

#[test]
fn child_records_carry_both_identifiers() {
    let mut graph: EntityGraph<Lifespan, u64> = EntityGraph::new();
    let mut lineage: Lineage<u64> = Lineage::new();
    cud_bundle(
        &mut graph,
        vec![
            CudEvent::create_parent(1u64, Lifespan(None)),
            CudEvent::create_child(1u64, 2u64, Lifespan(None)),
        ],
        &mut lineage,
    );
    assert_eq!(graph.len(), 2);
    assert_eq!(lineage.histories[1].parent_identifier, Identifier(1u64));
    assert_eq!(lineage.histories[1].child_identifier, Some(Identifier(2u64)));
    assert_eq!(lineage.histories[1].result, Ok(()));
    // the child record is linked to the parent's handle
    let parent = get_entity_by_identifier(&graph, &Identifier(1u64)).unwrap();
    let child = get_entity_by_identifier(&graph, &Identifier(2u64)).unwrap();
    let child_at = graph.index_of_entity(child).unwrap();
    assert_eq!(graph.records()[child_at].parent, Some(parent));
}

#[test]
fn duplicate_child_create_fails() {
    let mut graph: EntityGraph<Lifespan, u64> = EntityGraph::new();
    let mut lineage: Lineage<u64> = Lineage::new();
    cud_bundle(
        &mut graph,
        vec![
            CudEvent::create_parent(1u64, Lifespan(None)),
            CudEvent::create_child(1u64, 2u64, Lifespan(None)),
            CudEvent::create_child(1u64, 2u64, Lifespan(None)),
        ],
        &mut lineage,
    );
    assert_eq!(graph.len(), 2);
    assert_eq!(lineage.histories[2].result, Err(()));
}

#[test]
fn delete_parent_removes_depth_three_tree() {
    let mut graph: EntityGraph<Lifespan, u64> = EntityGraph::new();
    let mut lineage: Lineage<u64> = Lineage::new();
    cud_bundle(
        &mut graph,
        vec![
            CudEvent::create_parent(1u64, Lifespan(None)),
            CudEvent::create_child(1u64, 2u64, Lifespan(None)),
            CudEvent::create_child(2u64, 3u64, Lifespan(None)),
            CudEvent::create_child(3u64, 4u64, Lifespan(None)),
        ],
        &mut lineage,
    );
    assert_eq!(graph.len(), 4);
    cud_bundle(
        &mut graph,
        vec![CudEvent::delete_parent(1u64, Lifespan(None))],
        &mut lineage,
    );
    assert_eq!(graph.len(), 0);
    assert_eq!(lineage.histories[4].result, Ok(()));
}

#[test]
fn delete_subtree_keeps_unrelated_entities() {
    let mut graph: EntityGraph<Lifespan, u64> = EntityGraph::new();
    let mut lineage: Lineage<u64> = Lineage::new();
    cud_bundle(
        &mut graph,
        vec![
            CudEvent::create_parent(1u64, Lifespan(None)),
            CudEvent::create_child(1u64, 2u64, Lifespan(None)),
            CudEvent::create_parent(10u64, Lifespan(None)),
            CudEvent::delete_parent(1u64, Lifespan(None)),
        ],
        &mut lineage,
    );
    assert_eq!(graph.len(), 1);
    assert!(get_entity_by_identifier(&graph, &Identifier(10u64)).is_some());
    assert!(get_entity_by_identifier(&graph, &Identifier(1u64)).is_none());
    assert!(get_entity_by_identifier(&graph, &Identifier(2u64)).is_none());
}

#[test]
fn clear_removes_descendants_keeps_entity() {
    let mut graph: EntityGraph<Lifespan, u64> = EntityGraph::new();
    let mut lineage: Lineage<u64> = Lineage::new();
    cud_bundle(
        &mut graph,
        vec![
            CudEvent::create_parent(1u64, Lifespan(None)),
            CudEvent::create_child(1u64, 2u64, Lifespan(None)),
            CudEvent::create_child(2u64, 3u64, Lifespan(None)),
            CudEvent::clear_parent(1u64, Lifespan(None)),
        ],
        &mut lineage,
    );
    assert_eq!(graph.len(), 1);
    assert!(get_entity_by_identifier(&graph, &Identifier(1u64)).is_some());
    assert!(get_entity_by_identifier(&graph, &Identifier(2u64)).is_none());
    assert!(get_entity_by_identifier(&graph, &Identifier(3u64)).is_none());
    assert_eq!(lineage.histories[3].result, Ok(()));
}

#[test]
fn child_clear_removes_grandchildren_only() {
    let mut graph: EntityGraph<Lifespan, u64> = EntityGraph::new();
    let mut lineage: Lineage<u64> = Lineage::new();
    cud_bundle(
        &mut graph,
        vec![
            CudEvent::create_parent(1u64, Lifespan(None)),
            CudEvent::create_child(1u64, 2u64, Lifespan(None)),
            CudEvent::create_child(2u64, 3u64, Lifespan(None)),
            CudEvent::clear_child(1u64, 2u64, Lifespan(None)),
        ],
        &mut lineage,
    );
    assert_eq!(graph.len(), 2);
    assert!(get_entity_by_identifier(&graph, &Identifier(2u64)).is_some());
    assert!(get_entity_by_identifier(&graph, &Identifier(3u64)).is_none());
}

#[test]
fn child_delete_keeps_parent() {
    let mut graph: EntityGraph<Lifespan, u64> = EntityGraph::new();
    let mut lineage: Lineage<u64> = Lineage::new();
    cud_bundle(
        &mut graph,
        vec![
            CudEvent::create_parent(1u64, Lifespan(None)),
            CudEvent::create_child(1u64, 2u64, Lifespan(None)),
            CudEvent::delete_child(1u64, 2u64, Lifespan(None)),
        ],
        &mut lineage,
    );
    assert_eq!(graph.len(), 1);
    assert!(get_entity_by_identifier(&graph, &Identifier(1u64)).is_some());
}

#[test]
fn create_or_modify_is_idempotent_in_effect() {
    let mut graph: EntityGraph<Lifespan, u64> = EntityGraph::new();
    let mut lineage: Lineage<u64> = Lineage::new();
    cud_bundle(
        &mut graph,
        vec![
            CudEvent::create_or_modify_parent(1u64, Lifespan(Some(5))),
            CudEvent::create_or_modify_parent(1u64, Lifespan(Some(7))),
        ],
        &mut lineage,
    );
    assert_eq!(graph.len(), 1);
    assert_eq!(lineage.histories.len(), 2);
    assert_eq!(lineage.histories[0].result, Ok(()));
    assert_eq!(lineage.histories[1].result, Ok(()));
    // the surviving entity carries the replayed payload
    assert_eq!(graph.records()[0].bundle, Lifespan(Some(7)));
}

#[test]
fn update_replaces_payload_and_resets_clock() {
    let mut graph: EntityGraph<Lifespan, u64> = EntityGraph::new();
    let mut lineage: Lineage<u64> = Lineage::new();
    cud_bundle(
        &mut graph,
        vec![CudEvent::create_parent(1u64, Lifespan(Some(10)))],
        &mut lineage,
    );
    refresh_by_own_lifetime(&mut graph, 4);
    assert_eq!(graph.records()[0].clock.elapsed, 4);
    cud_bundle(
        &mut graph,
        vec![CudEvent::update_parent(1u64, Lifespan(Some(10)))],
        &mut lineage,
    );
    assert_eq!(graph.len(), 1);
    assert_eq!(graph.records()[0].clock.elapsed, 0);
    assert_eq!(lineage.histories[1].result, Ok(()));
}

#[test]
fn own_lifetime_expiry_at_boundary() {
    let mut graph: EntityGraph<Lifespan, u64> = EntityGraph::new();
    let mut lineage: Lineage<u64> = Lineage::new();
    cud_bundle(
        &mut graph,
        vec![CudEvent::create_parent(1u64, Lifespan(Some(5)))],
        &mut lineage,
    );
    refresh_by_own_lifetime(&mut graph, 4);
    assert_eq!(graph.len(), 1);
    assert_eq!(graph.records()[0].clock.elapsed, 4);
    refresh_by_own_lifetime(&mut graph, 1);
    // accumulated time reached the declared lifetime: despawned
    assert_eq!(graph.len(), 0);
}

#[test]
fn zero_lifetime_expires_on_first_sweep() {
    let mut graph: EntityGraph<Lifespan, u64> = EntityGraph::new();
    let mut lineage: Lineage<u64> = Lineage::new();
    cud_bundle(
        &mut graph,
        vec![CudEvent::create_parent(1u64, Lifespan(Some(0)))],
        &mut lineage,
    );
    refresh_by_own_lifetime(&mut graph, 0);
    assert_eq!(graph.len(), 0);
}

#[test]
fn own_lifetime_expiry_cascades_to_children() {
    let mut graph: EntityGraph<Lifespan, u64> = EntityGraph::new();
    let mut lineage: Lineage<u64> = Lineage::new();
    cud_bundle(
        &mut graph,
        vec![
            CudEvent::create_parent(1u64, Lifespan(Some(5))),
            CudEvent::create_child(1u64, 2u64, Lifespan(None)),
            CudEvent::create_child(2u64, 3u64, Lifespan(None)),
        ],
        &mut lineage,
    );
    refresh_by_own_lifetime(&mut graph, 5);
    assert_eq!(graph.len(), 0);
}

#[test]
fn entities_without_lifetime_never_expire_on_their_own() {
    let mut graph: EntityGraph<Lifespan, u64> = EntityGraph::new();
    let mut lineage: Lineage<u64> = Lineage::new();
    cud_bundle(
        &mut graph,
        vec![CudEvent::create_parent(1u64, Lifespan(None))],
        &mut lineage,
    );
    refresh_by_own_lifetime(&mut graph, u64::MAX);
    assert_eq!(graph.len(), 1);
    assert_eq!(graph.records()[0].clock.elapsed, 0);
}

#[test]
fn parent_bound_expiry_despawns_child() {
    let mut graph: EntityGraph<Lifespan, u64> = EntityGraph::new();
    let mut lineage: Lineage<u64> = Lineage::new();
    cud_bundle(
        &mut graph,
        vec![
            CudEvent::create_parent(1u64, Lifespan(Some(5))),
            CudEvent::create_child(1u64, 2u64, Lifespan(None)),
        ],
        &mut lineage,
    );
    refresh_by_parent_lifetime(&mut graph, 6);
    assert_eq!(graph.len(), 1);
    assert!(get_entity_by_identifier(&graph, &Identifier(1u64)).is_some());
    assert!(get_entity_by_identifier(&graph, &Identifier(2u64)).is_none());
}

#[test]
fn parent_bound_expiry_skips_child_of_lifeless_parent() {
    let mut graph: EntityGraph<Lifespan, u64> = EntityGraph::new();
    let mut lineage: Lineage<u64> = Lineage::new();
    cud_bundle(
        &mut graph,
        vec![
            CudEvent::create_parent(1u64, Lifespan(None)),
            CudEvent::create_child(1u64, 2u64, Lifespan(None)),
        ],
        &mut lineage,
    );
    refresh_by_parent_lifetime(&mut graph, 100);
    assert_eq!(graph.len(), 2);
    // the skipped child's clock is not advanced either
    let child = get_entity_by_identifier(&graph, &Identifier(2u64)).unwrap();
    let at = graph.index_of_entity(child).unwrap();
    assert_eq!(graph.records()[at].clock.elapsed, 0);
}

#[test]
fn parent_bound_expiry_ticks_surviving_child() {
    let mut graph: EntityGraph<Lifespan, u64> = EntityGraph::new();
    let mut lineage: Lineage<u64> = Lineage::new();
    cud_bundle(
        &mut graph,
        vec![
            CudEvent::create_parent(1u64, Lifespan(Some(10))),
            CudEvent::create_child(1u64, 2u64, Lifespan(None)),
        ],
        &mut lineage,
    );
    refresh_by_parent_lifetime(&mut graph, 4);
    assert_eq!(graph.len(), 2);
    let child = get_entity_by_identifier(&graph, &Identifier(2u64)).unwrap();
    let at = graph.index_of_entity(child).unwrap();
    assert_eq!(graph.records()[at].clock.elapsed, 4);
}

#[test]
fn building_level_scenario() {
    // create parent "Building" (lifetime 5s), child "Level" under it, then
    // advance the clock by 6s: the parent-bound sweep despawns "Level" and
    // the ledger is untouched by the sweep.
    let mut graph: EntityGraph<Lifespan, String> = EntityGraph::new();
    let mut lineage: Lineage<String> = Lineage::new();
    cud_bundle(
        &mut graph,
        vec![
            CudEvent::create_parent("Building".to_string(), Lifespan(Some(5000))),
            CudEvent::create_child("Building".to_string(), "Level".to_string(), Lifespan(None)),
        ],
        &mut lineage,
    );
    assert_eq!(graph.len(), 2);
    let entries_before = lineage.histories.len();
    refresh_by_parent_lifetime(&mut graph, 6000);
    assert!(get_entity_by_identifier(&graph, &Identifier("Level".to_string())).is_none());
    assert!(get_entity_by_identifier(&graph, &Identifier("Building".to_string())).is_some());
    assert_eq!(lineage.histories.len(), entries_before);
}

#[test]
fn replacing_child_keeps_it_under_parent() {
    let mut graph: EntityGraph<Lifespan, u64> = EntityGraph::new();
    let mut lineage: Lineage<u64> = Lineage::new();
    cud_bundle(
        &mut graph,
        vec![
            CudEvent::create_parent(1u64, Lifespan(None)),
            CudEvent::create_child(1u64, 2u64, Lifespan(Some(3))),
            CudEvent::update_child(1u64, 2u64, Lifespan(Some(9))),
        ],
        &mut lineage,
    );
    assert_eq!(graph.len(), 2);
    let parent = get_entity_by_identifier(&graph, &Identifier(1u64)).unwrap();
    let child = get_entity_by_identifier(&graph, &Identifier(2u64)).unwrap();
    let at = graph.index_of_entity(child).unwrap();
    assert_eq!(graph.records()[at].parent, Some(parent));
    assert_eq!(graph.records()[at].bundle, Lifespan(Some(9)));
    assert_eq!(lineage.histories[2].result, Ok(()));
}

#[test]
fn in_subtree_follows_parent_edges() {
    let mut graph: EntityGraph<Lifespan, u64> = EntityGraph::new();
    let mut lineage: Lineage<u64> = Lineage::new();
    cud_bundle(
        &mut graph,
        vec![
            CudEvent::create_parent(1u64, Lifespan(None)),
            CudEvent::create_child(1u64, 2u64, Lifespan(None)),
            CudEvent::create_child(2u64, 3u64, Lifespan(None)),
            CudEvent::create_parent(9u64, Lifespan(None)),
        ],
        &mut lineage,
    );
    let a = get_entity_by_identifier(&graph, &Identifier(1u64)).unwrap();
    let c = get_entity_by_identifier(&graph, &Identifier(3u64)).unwrap();
    let other = get_entity_by_identifier(&graph, &Identifier(9u64)).unwrap();
    assert!(graph.in_subtree(a, a));
    assert!(graph.in_subtree(a, c));
    assert!(!graph.in_subtree(c, a));
    assert!(!graph.in_subtree(a, other));
}

#[test]
fn handles_are_never_reused() {
    let mut graph: EntityGraph<Lifespan, u64> = EntityGraph::new();
    let mut lineage: Lineage<u64> = Lineage::new();
    assert_eq!(graph.next_handle(), 0);
    cud_bundle(
        &mut graph,
        vec![CudEvent::create_parent(1u64, Lifespan(None))],
        &mut lineage,
    );
    let first = get_entity_by_identifier(&graph, &Identifier(1u64)).unwrap();
    cud_bundle(
        &mut graph,
        vec![
            CudEvent::delete_parent(1u64, Lifespan(None)),
            CudEvent::create_parent(1u64, Lifespan(None)),
        ],
        &mut lineage,
    );
    let second = get_entity_by_identifier(&graph, &Identifier(1u64)).unwrap();
    assert_ne!(first, second);
    assert_eq!(graph.next_handle(), 2);
}

#[test]
fn self_parenting_replacement_is_refused() {
    // an update of a child naming itself as its parent would despawn the
    // resolved parent with the child's subtree; the engine records a failure
    let mut graph: EntityGraph<Lifespan, u64> = EntityGraph::new();
    let mut lineage: Lineage<u64> = Lineage::new();
    cud_bundle(
        &mut graph,
        vec![
            CudEvent::create_parent(1u64, Lifespan(None)),
            CudEvent::update_child(1u64, 1u64, Lifespan(None)),
        ],
        &mut lineage,
    );
    assert_eq!(graph.len(), 1);
    assert_eq!(lineage.histories[1].result, Err(()));
}
