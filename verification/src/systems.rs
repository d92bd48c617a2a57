//! The engines: the CRUD processor that drains one command batch per tick,
//! and the two time-driven expiry sweeps.

use vstd::prelude::*;

use crate::functions::get_entity_by_identifier;
use crate::graph::{
    descendants_of, entity_index, has_entity, has_key, key_index, keys_unique,
    lemma_entity_index_unique, lemma_key_index_unique, lemma_removed_key_fresh,
    lemma_removed_keeps_entity, lemma_subtree_contains_self, rec_matches, remove_entities,
    subtree_of, sweep_spec, Entity, EntityGraph, EntityRecord,
};
use crate::keys::{clone_key, lawful_key};
use crate::structs::{Action, BiologicalClock, BiologicalTrait, CudEvent, History, Identifier,
    Lineage};

verus! {

/// The record a spawn appends: fresh handle, the identifier, the parent
/// edge, a zeroed clock and the bundle.
pub open spec fn spawn_rec<B, K>(
    next: u64,
    identifier: Identifier<K>,
    parent: Option<Entity>,
    bundle: B,
) -> EntityRecord<B, K> {
    EntityRecord {
        entity: Entity(next),
        identifier,
        parent,
        clock: BiologicalClock { elapsed: 0 },
        bundle,
    }
}

/// What one command does to the graph: the records and next handle after
/// the command, and whether it succeeded.
///
/// This is the engine's state table. A parent-level command is checked
/// against "does an entity with this self-identifier exist": Create demands
/// absence, Update/Delete/Clear demand presence, CreateOrModify accepts
/// both; Update and CreateOrModify replace the entity (despawning its
/// subtree and respawning it with a fresh clock), Delete despawns the
/// subtree, Clear despawns only the descendants. A child-level command
/// first resolves the parent identifier and fails outright when the parent
/// is absent; otherwise it follows the same table, spawning new children
/// under the parent. A replacement that would leave the new child under a
/// despawned parent (the resolved parent lies inside the replaced child's
/// own subtree) is refused as a precondition mismatch.
pub open spec fn cud_apply<B, K: PartialEq>(
    s: Seq<EntityRecord<B, K>>,
    next: u64,
    ev: CudEvent<B, K>,
) -> (Seq<EntityRecord<B, K>>, u64, bool) {
    let self_id = ev.self_identifier_spec();
    let key = self_id.0;
    let bundle = ev.bundle_spec();
    match ev.parent_identifier_spec() {
        None => if has_key(s, key) {
            let e = s[key_index(s, key)].entity;
            match ev.action_spec() {
                Action::CreateOrModify | Action::Update => (
                    remove_entities(s, subtree_of(s, e)).push(
                        spawn_rec(next, self_id, None, bundle),
                    ),
                    (next + 1) as u64,
                    true,
                ),
                Action::Delete => (remove_entities(s, subtree_of(s, e)), next, true),
                Action::Clear => (remove_entities(s, descendants_of(s, e)), next, true),
                Action::Create => (s, next, false),
            }
        } else {
            match ev.action_spec() {
                Action::Create | Action::CreateOrModify => (
                    s.push(spawn_rec(next, self_id, None, bundle)),
                    (next + 1) as u64,
                    true,
                ),
                _ => (s, next, false),
            }
        },
        Some(pid) => if !has_key(s, pid.0) {
            (s, next, false)
        } else {
            let pe = s[key_index(s, pid.0)].entity;
            if has_key(s, key) {
                let ce = s[key_index(s, key)].entity;
                match ev.action_spec() {
                    Action::CreateOrModify | Action::Update => if subtree_of(s, ce).contains(pe) {
                        (s, next, false)
                    } else {
                        (
                            remove_entities(s, subtree_of(s, ce)).push(
                                spawn_rec(next, self_id, Some(pe), bundle),
                            ),
                            (next + 1) as u64,
                            true,
                        )
                    },
                    Action::Delete => (remove_entities(s, subtree_of(s, ce)), next, true),
                    Action::Clear => (remove_entities(s, descendants_of(s, ce)), next, true),
                    Action::Create => (s, next, false),
                }
            } else {
                match ev.action_spec() {
                    Action::Create | Action::CreateOrModify => (
                        s.push(spawn_rec(next, self_id, Some(pe), bundle)),
                        (next + 1) as u64,
                        true,
                    ),
                    _ => (s, next, false),
                }
            }
        },
    }
}

/// The graph after a whole batch of commands, processed in order.
pub open spec fn cud_run<B, K: PartialEq>(
    s: Seq<EntityRecord<B, K>>,
    next: u64,
    evs: Seq<CudEvent<B, K>>,
) -> (Seq<EntityRecord<B, K>>, u64)
    decreases evs.len(),
{
    if evs.len() == 0 {
        (s, next)
    } else {
        let step = cud_apply(s, next, evs[0]);
        cud_run(step.0, step.1, evs.drop_first())
    }
}

/// The history records a whole batch appends, one per command, in order.
pub open spec fn cud_log<B, K: PartialEq>(
    s: Seq<EntityRecord<B, K>>,
    next: u64,
    evs: Seq<CudEvent<B, K>>,
) -> Seq<History<K>>
    decreases evs.len(),
{
    if evs.len() == 0 {
        Seq::empty()
    } else {
        let step = cud_apply(s, next, evs[0]);
        let outcome: Result<(), ()> = if step.2 {
            Ok(())
        } else {
            Err(())
        };
        seq![evs[0].to_history_spec(outcome)] + cud_log(step.0, step.1, evs.drop_first())
    }
}

/// From a successful resolution, the resolved handle is the one the specs
/// pick.
proof fn lemma_resolved_entity<B, K: PartialEq + Clone>(
    s: Seq<EntityRecord<B, K>>,
    key: K,
    e: Entity,
)
    requires
        lawful_key::<K>(),
        keys_unique(s),
        exists|i: int| 0 <= i < s.len() && rec_matches(#[trigger] s[i], key) && s[i].entity == e,
    ensures
        has_key(s, key),
        s[key_index(s, key)].entity == e,
        0 <= key_index(s, key) < s.len(),
        rec_matches(s[key_index(s, key)], key),
{
    let i = choose|i: int|
        0 <= i < s.len() && rec_matches(#[trigger] s[i], key) && s[i].entity == e;
    assert(has_key(s, key));
    let ki = key_index(s, key);
    assert(0 <= ki < s.len() && rec_matches(s[ki], key));
    lemma_key_index_unique(s, key, i, ki);
}

/// After despawning the resolved record's subtree, its key is free again.
pub proof fn lemma_replace_key_fresh<B, K: PartialEq + Clone>(
    s: Seq<EntityRecord<B, K>>,
    key: K,
    doom: Set<Entity>,
)
    requires
        lawful_key::<K>(),
        keys_unique(s),
        has_key(s, key),
        doom.contains(s[key_index(s, key)].entity),
    ensures
        forall|a: int|
            0 <= a < remove_entities(s, doom).len() ==> !rec_matches(
                #[trigger] remove_entities(s, doom)[a],
                key,
            ),
{
    let ki = key_index(s, key);
    assert(0 <= ki < s.len() && rec_matches(s[ki], key));
    assert forall|i: int|
        0 <= i < s.len() && rec_matches(#[trigger] s[i], key) implies doom.contains(
        s[i].entity,
    ) by {
        lemma_key_index_unique(s, key, i, ki);
    }
    lemma_removed_key_fresh(s, doom, key);
}

/// Processes one command against the graph and appends its history record.
#[verifier::rlimit(30)]
fn step_event<B, K: PartialEq + Clone>(
    graph: &mut EntityGraph<B, K>,
    ev: CudEvent<B, K>,
    lineage: &mut Lineage<K>,
)
    requires
        lawful_key::<K>(),
        old(graph).wf(),
        old(graph).next_spec() < u64::MAX,
    ensures
        final(graph).wf(),
        final(graph).recs() == cud_apply(old(graph).recs(), old(graph).next_spec(), ev).0,
        final(graph).next_spec() == cud_apply(old(graph).recs(), old(graph).next_spec(), ev).1,
        final(graph).next_spec() <= old(graph).next_spec() + 1,
        final(lineage).histories@ == old(lineage).histories@.push(
            ev.to_history_spec(
                if cud_apply(old(graph).recs(), old(graph).next_spec(), ev).2 {
                    Ok(())
                } else {
                    Err(())
                },
            ),
        ),
{
    let ghost s = graph.recs();
    let ghost next0 = graph.next_spec();
    let ghost step = cud_apply(s, next0, ev);
    let (action, parent_opt, self_id, bundle) = ev.into_parts();
    match parent_opt {
        None => {
            let resolved = get_entity_by_identifier(graph, &self_id);
            match resolved {
                Some(e) => {
                    proof {
                        lemma_resolved_entity(s, self_id.0, e);
                    }
                    match action {
                        Action::CreateOrModify | Action::Update => {
                            let hist_id = Identifier(clone_key(&self_id.0));
                            graph.despawn_recursive(e);
                            proof {
                                lemma_subtree_contains_self(s, key_index(s, self_id.0));
                                lemma_replace_key_fresh(s, self_id.0, subtree_of(s, e));
                            }
                            graph.spawn(self_id, None, bundle);
                            lineage.add_history(
                                History::new_parent_history(action, hist_id, Ok(())),
                            );
                        },
                        Action::Delete => {
                            graph.despawn_recursive(e);
                            lineage.add_history(
                                History::new_parent_history(action, self_id, Ok(())),
                            );
                        },
                        Action::Clear => {
                            graph.despawn_descendants(e);
                            lineage.add_history(
                                History::new_parent_history(action, self_id, Ok(())),
                            );
                        },
                        Action::Create => {
                            lineage.add_history(
                                History::new_parent_history(action, self_id, Err(())),
                            );
                        },
                    }
                },
                None => {
                    match action {
                        Action::Create | Action::CreateOrModify => {
                            let hist_id = Identifier(clone_key(&self_id.0));
                            graph.spawn(self_id, None, bundle);
                            lineage.add_history(
                                History::new_parent_history(action, hist_id, Ok(())),
                            );
                        },
                        _ => {
                            lineage.add_history(
                                History::new_parent_history(action, self_id, Err(())),
                            );
                        },
                    }
                },
            }
        },
        Some(pid) => {
            let parent_resolved = get_entity_by_identifier(graph, &pid);
            match parent_resolved {
                None => {
                    lineage.add_history(
                        History::new_child_history(action, pid, self_id, Err(())),
                    );
                },
                Some(pe) => {
                    proof {
                        lemma_resolved_entity(s, pid.0, pe);
                    }
                    let child_resolved = get_entity_by_identifier(graph, &self_id);
                    match child_resolved {
                        Some(ce) => {
                            proof {
                                lemma_resolved_entity(s, self_id.0, ce);
                            }
                            match action {
                                Action::CreateOrModify | Action::Update => {
                                    if graph.in_subtree(ce, pe) {
                                        lineage.add_history(
                                            History::new_child_history(
                                                action,
                                                pid,
                                                self_id,
                                                Err(()),
                                            ),
                                        );
                                    } else {
                                        let hist_id = Identifier(clone_key(&self_id.0));
                                        graph.despawn_recursive(ce);
                                        proof {
                                            lemma_subtree_contains_self(
                                                s,
                                                key_index(s, self_id.0),
                                            );
                                            lemma_replace_key_fresh(
                                                s,
                                                self_id.0,
                                                subtree_of(s, ce),
                                            );
                                            lemma_removed_keeps_entity(
                                                s,
                                                subtree_of(s, ce),
                                                key_index(s, pid.0),
                                            );
                                        }
                                        graph.spawn(self_id, Some(pe), bundle);
                                        lineage.add_history(
                                            History::new_child_history(
                                                action,
                                                pid,
                                                hist_id,
                                                Ok(()),
                                            ),
                                        );
                                    }
                                },
                                Action::Delete => {
                                    graph.despawn_recursive(ce);
                                    lineage.add_history(
                                        History::new_child_history(action, pid, self_id, Ok(())),
                                    );
                                },
                                Action::Clear => {
                                    graph.despawn_descendants(ce);
                                    lineage.add_history(
                                        History::new_child_history(action, pid, self_id, Ok(())),
                                    );
                                },
                                Action::Create => {
                                    lineage.add_history(
                                        History::new_child_history(action, pid, self_id, Err(())),
                                    );
                                },
                            }
                        },
                        None => {
                            match action {
                                Action::Create | Action::CreateOrModify => {
                                    let hist_id = Identifier(clone_key(&self_id.0));
                                    graph.spawn(self_id, Some(pe), bundle);
                                    lineage.add_history(
                                        History::new_child_history(action, pid, hist_id, Ok(())),
                                    );
                                },
                                _ => {
                                    lineage.add_history(
                                        History::new_child_history(action, pid, self_id, Err(())),
                                    );
                                },
                            }
                        },
                    }
                },
            }
        },
    }
}

/// The CRUD engine: drains one batch of command events in order, resolving
/// identifiers, enforcing the existence preconditions of each action,
/// mutating the entity graph, and appending exactly one history record per
/// command — success or failure — to the lineage ledger.
///
/// Outcomes follow the state table of [`cud_apply`]: a command fails
/// exactly when its named parent does not resolve, when Create targets an
/// identifier already in use, when Update, Delete or Clear target an absent
/// one — or, in one corner, when a child-level Update or CreateOrModify
/// resolves its parent to an entity *inside the target child's own
/// subtree*. Replacing the child would first despawn that parent with the
/// child's subtree and then link the new child under a despawned entity, so
/// the replacement cannot be performed; the engine treats the corner as a
/// precondition mismatch between the named parent and the current existence
/// state, leaves the graph untouched, and records the failure rather than a
/// success it cannot deliver.
pub fn cud_bundle<B, K: PartialEq + Clone>(
    graph: &mut EntityGraph<B, K>,
    events: Vec<CudEvent<B, K>>,
    lineage: &mut Lineage<K>,
)
    requires
        lawful_key::<K>(),
        old(graph).wf(),
        old(graph).next_spec() + events@.len() <= u64::MAX,
    ensures
        final(graph).wf(),
        final(graph).recs() == cud_run(
            old(graph).recs(),
            old(graph).next_spec(),
            events@,
        ).0,
        final(graph).next_spec() == cud_run(
            old(graph).recs(),
            old(graph).next_spec(),
            events@,
        ).1,
        final(lineage).histories@ == old(lineage).histories@ + cud_log(
            old(graph).recs(),
            old(graph).next_spec(),
            events@,
        ),
{
    let ghost s0 = old(graph).recs();
    let ghost n0 = old(graph).next_spec();
    let ghost evs0 = events@;
    let mut events = events;
    while events.len() > 0
        invariant
            lawful_key::<K>(),
            graph.wf(),
            graph.next_spec() + events@.len() <= u64::MAX,
            cud_run(s0, n0, evs0) == cud_run(graph.recs(), graph.next_spec(), events@),
            old(lineage).histories@ + cud_log(s0, n0, evs0) == lineage.histories@ + cud_log(
                graph.recs(),
                graph.next_spec(),
                events@,
            ),
        decreases events@.len(),
    {
        let ghost pre = events@;
        let ghost g_pre = graph.recs();
        let ghost n_pre = graph.next_spec();
        let ghost lin_pre = lineage.histories@;
        let ev = events.remove(0);
        proof {
            assert(ev == pre[0]);
            assert(pre.remove(0) =~= pre.drop_first());
        }
        step_event(graph, ev, lineage);
        proof {
            let step = cud_apply(g_pre, n_pre, pre[0]);
            assert(cud_run(g_pre, n_pre, pre) == cud_run(step.0, step.1, pre.drop_first()));
            let outcome: Result<(), ()> = if step.2 {
                Ok(())
            } else {
                Err(())
            };
            assert(cud_log(g_pre, n_pre, pre) == seq![pre[0].to_history_spec(outcome)] + cud_log(
                step.0,
                step.1,
                pre.drop_first(),
            ));
            assert(lin_pre + cud_log(g_pre, n_pre, pre) =~= lin_pre.push(
                pre[0].to_history_spec(outcome),
            ) + cud_log(step.0, step.1, pre.drop_first()));
        }
    }
    proof {
        assert(cud_run(graph.recs(), graph.next_spec(), events@) == (
            graph.recs(),
            graph.next_spec(),
        ));
        assert(cud_log(graph.recs(), graph.next_spec(), events@) =~= Seq::<History<K>>::empty());
        assert(lineage.histories@ + Seq::<History<K>>::empty() =~= lineage.histories@);
    }
}

/// Whether the record's own declared lifetime runs out once this tick's
/// elapsed duration is added to its clock.
pub open spec fn own_expired<B: BiologicalTrait, K>(r: EntityRecord<B, K>, delta: u64) -> bool {
    r.bundle.lifetime_spec() matches Some(lifetime) && r.clock.elapsed + delta >= lifetime
}

/// Which records the own-lifetime sweep expires.
pub open spec fn own_marks<B: BiologicalTrait, K>(
    s: Seq<EntityRecord<B, K>>,
    delta: u64,
) -> Seq<bool> {
    Seq::new(s.len(), |i: int| own_expired(s[i], delta))
}

/// Which surviving records the own-lifetime sweep ages: those that declare
/// a lifetime and have not reached it.
pub open spec fn own_ticks<B: BiologicalTrait, K>(
    s: Seq<EntityRecord<B, K>>,
    delta: u64,
) -> Seq<bool> {
    Seq::new(s.len(), |i: int| s[i].bundle.lifetime_spec() is Some && !own_expired(s[i], delta))
}

/// The expiry engine, own-lifetime sweep: one tick of elapsed duration
/// `delta` is charged to every entity whose bundle declares a lifetime. An
/// entity whose accumulated age reaches its declared lifetime is despawned
/// with its entire subtree; the others age by `delta`. Entities declaring
/// no lifetime are only despawned as descendants. The sweep never touches
/// the lineage ledger.
#[verifier::loop_isolation(false)]
pub fn refresh_by_own_lifetime<B: BiologicalTrait, K: PartialEq + Clone>(
    graph: &mut EntityGraph<B, K>,
    delta: u64,
)
    requires
        old(graph).wf(),
    ensures
        final(graph).wf(),
        final(graph).next_spec() == old(graph).next_spec(),
        final(graph).recs() == sweep_spec(
            old(graph).recs(),
            own_marks(old(graph).recs(), delta),
            own_ticks(old(graph).recs(), delta),
            delta,
        ),
{
    let ghost s = graph.recs();
    let mut marks: Vec<bool> = Vec::new();
    let mut ticks: Vec<bool> = Vec::new();
    let n = graph.len();
    let mut i: usize = 0;
    while i < n
        invariant
            0 <= i <= n,
            graph == old(graph),
            n == s.len(),
            marks@.len() == i,
            ticks@.len() == i,
            forall|j: int| 0 <= j < i ==> #[trigger] marks@[j] == own_expired(s[j], delta),
            forall|j: int|
                0 <= j < i ==> #[trigger] ticks@[j] == (s[j].bundle.lifetime_spec() is Some
                    && !own_expired(s[j], delta)),
        decreases n - i,
    {
        let record = &graph.records()[i];
        let (expired, aging) = match record.bundle.get_lifetime() {
            Some(lifetime) => {
                let elapsed = record.clock.elapsed;
                let expired = elapsed >= lifetime || delta >= lifetime - elapsed;
                proof {
                    assert(expired == own_expired(s[i as int], delta));
                }
                (expired, !expired)
            },
            None => (false, false),
        };
        marks.push(expired);
        ticks.push(aging);
        i = i + 1;
    }
    proof {
        assert(marks@ =~= own_marks(s, delta));
        assert(ticks@ =~= own_ticks(s, delta));
        assert forall|j: int|
            0 <= j < s.len() && #[trigger] ticks@[j] implies s[j].clock.elapsed + delta
            <= u64::MAX by {
            assert(s[j].clock.elapsed + delta < s[j].bundle.lifetime_spec().unwrap());
        }
    }
    graph.remove_marked(&marks, &ticks, delta);
}

/// The lifetime that governs a record through its parent: the parent
/// record's own declared lifetime, when the parent edge resolves to a live
/// record that declares one.
pub open spec fn parent_lifetime_of<B: BiologicalTrait, K>(
    s: Seq<EntityRecord<B, K>>,
    i: int,
) -> Option<u64> {
    match s[i].parent {
        Some(p) => if has_entity(s, p) {
            s[entity_index(s, p)].bundle.lifetime_spec()
        } else {
            None
        },
        None => None,
    }
}

/// Whether the record's parent-bound lifetime runs out once this tick's
/// elapsed duration is added to the record's own clock. The comparison is
/// between the child's clock and the parent's declared lifetime.
pub open spec fn parent_expired<B: BiologicalTrait, K>(
    s: Seq<EntityRecord<B, K>>,
    i: int,
    delta: u64,
) -> bool {
    parent_lifetime_of(s, i) matches Some(lifetime) && s[i].clock.elapsed + delta >= lifetime
}

/// Which records the parent-bound sweep expires.
pub open spec fn parent_marks<B: BiologicalTrait, K>(
    s: Seq<EntityRecord<B, K>>,
    delta: u64,
) -> Seq<bool> {
    Seq::new(s.len(), |i: int| parent_expired(s, i, delta))
}

/// Which surviving records the parent-bound sweep ages: the children whose
/// parent declares a lifetime that has not been reached. A child whose
/// parent cannot be resolved or declares no lifetime is skipped.
pub open spec fn parent_ticks<B: BiologicalTrait, K>(
    s: Seq<EntityRecord<B, K>>,
    delta: u64,
) -> Seq<bool> {
    Seq::new(
        s.len(),
        |i: int| parent_lifetime_of(s, i) is Some && !parent_expired(s, i, delta),
    )
}

/// The expiry engine, parent-bound sweep: one tick of elapsed duration
/// `delta` is charged to every child whose parent's bundle declares a
/// lifetime, even when the child's own bundle declares none. A child whose
/// own accumulated age reaches the parent's declared lifetime is despawned
/// with its subtree; the others age by `delta`. A child whose parent does
/// not resolve or declares no lifetime is skipped for this tick. The sweep
/// never touches the lineage ledger.
#[verifier::loop_isolation(false)]
pub fn refresh_by_parent_lifetime<B: BiologicalTrait, K: PartialEq + Clone>(
    graph: &mut EntityGraph<B, K>,
    delta: u64,
)
    requires
        old(graph).wf(),
    ensures
        final(graph).wf(),
        final(graph).next_spec() == old(graph).next_spec(),
        final(graph).recs() == sweep_spec(
            old(graph).recs(),
            parent_marks(old(graph).recs(), delta),
            parent_ticks(old(graph).recs(), delta),
            delta,
        ),
{
    let ghost s = graph.recs();
    let mut marks: Vec<bool> = Vec::new();
    let mut ticks: Vec<bool> = Vec::new();
    let n = graph.len();
    let mut i: usize = 0;
    while i < n
        invariant
            0 <= i <= n,
            graph == old(graph),
            n == s.len(),
            marks@.len() == i,
            ticks@.len() == i,
            forall|j: int| 0 <= j < i ==> #[trigger] marks@[j] == parent_expired(s, j, delta),
            forall|j: int|
                0 <= j < i ==> #[trigger] ticks@[j] == (parent_lifetime_of(s, j) is Some
                    && !parent_expired(s, j, delta)),
        decreases n - i,
    {
        let parent = graph.records()[i].parent;
        let (expired, aging) = match parent {
            Some(p) => {
                match graph.index_of_entity(p) {
                    Some(at) => {
                        proof {
                            assert(has_entity(s, p));
                            lemma_entity_index_unique(s, p, at as int, entity_index(s, p));
                        }
                        match graph.records()[at].bundle.get_lifetime() {
                            Some(lifetime) => {
                                let elapsed = graph.records()[i].clock.elapsed;
                                let expired = elapsed >= lifetime || delta >= lifetime - elapsed;
                                proof {
                                    assert(parent_lifetime_of(s, i as int) == Some(lifetime));
                                    assert(expired == parent_expired(s, i as int, delta));
                                }
                                (expired, !expired)
                            },
                            None => {
                                proof {
                                    assert(parent_lifetime_of(s, i as int) is None);
                                }
                                (false, false)
                            },
                        }
                    },
                    None => {
                        proof {
                            assert(parent_lifetime_of(s, i as int) is None);
                        }
                        (false, false)
                    },
                }
            },
            None => (false, false),
        };
        marks.push(expired);
        ticks.push(aging);
        i = i + 1;
    }
    proof {
        assert(marks@ =~= parent_marks(s, delta));
        assert(ticks@ =~= parent_ticks(s, delta));
        assert forall|j: int|
            0 <= j < s.len() && #[trigger] ticks@[j] implies s[j].clock.elapsed + delta
            <= u64::MAX by {
            assert(s[j].clock.elapsed + delta < parent_lifetime_of(s, j).unwrap());
        }
    }
    graph.remove_marked(&marks, &ticks, delta);
}

} // verus!
