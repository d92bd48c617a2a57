//! The laws of the engine, proved once and for all inputs: what each
//! command does to the live entity set and to the ledger, and what the
//! expiry sweeps despawn.

use vstd::prelude::*;

use crate::graph::{
    descendants_of, graph_wf, handles_unique, has_entity, has_key, in_subtree_at, key_index,
    keys_unique, lemma_chain_extend, lemma_chain_root_before, lemma_entity_index_unique,
    lemma_remove_preserves_wf, lemma_removed_entity_iff, lemma_removed_keeps_entity,
    lemma_spread_characterization, lemma_spread_downward_closed, lemma_subtree_contains_self,
    lemma_sweep_drops, lemma_sweep_keeps, mark_seed, parent_slot, parents_precede, rec_matches,
    remove_entities, subtree_of, sweep_doom, sweep_spec, tick_rec, unique_match, Entity,
    EntityRecord,
};
use crate::keys::{lawful_key, same_key};
use crate::structs::{Action, BiologicalTrait, CudEvent, History, Identifier};
use crate::systems::{
    cud_apply, cud_log, cud_run, lemma_replace_key_fresh, own_expired, own_marks, own_ticks,
    parent_expired, parent_marks, parent_ticks, spawn_rec,
};

verus! {

/// Appending a freshly spawned record preserves well-formedness, provided
/// its identifier is not in use and its parent, if any, is live.
pub proof fn lemma_push_spawn_wf<B, K: PartialEq + Clone>(
    s: Seq<EntityRecord<B, K>>,
    next: u64,
    identifier: Identifier<K>,
    parent: Option<Entity>,
    bundle: B,
)
    requires
        lawful_key::<K>(),
        graph_wf(s, next),
        next < u64::MAX,
        forall|i: int| 0 <= i < s.len() ==> !rec_matches(#[trigger] s[i], identifier.0),
        parent matches Some(p) ==> has_entity(s, p),
    ensures
        graph_wf(s.push(spawn_rec(next, identifier, parent, bundle)), (next + 1) as u64),
{
    let t = s.push(spawn_rec(next, identifier, parent, bundle));
    assert forall|i: int, j: int|
        0 <= i < t.len() && 0 <= j < t.len() && i != j implies #[trigger] t[i].entity
        != #[trigger] t[j].entity by {
        if i < s.len() && j < s.len() {
            assert(s[i].entity != s[j].entity);
        } else if i == s.len() {
            assert(t[j].entity.0 < next);
        } else {
            assert(t[i].entity.0 < next);
        }
    }
    assert forall|i: int, j: int|
        0 <= i < t.len() && 0 <= j < t.len() && i != j implies !same_key(
        #[trigger] t[i].identifier.0,
        #[trigger] t[j].identifier.0,
    ) by {
        if i < s.len() && j < s.len() {
            assert(!same_key(s[i].identifier.0, s[j].identifier.0));
        } else if i == s.len() {
            assert(!same_key(s[j].identifier.0, identifier.0));
        } else {
            assert(!same_key(s[i].identifier.0, identifier.0));
        }
    }
    assert forall|i: int| 0 <= i < t.len() implies (#[trigger] t[i].parent matches Some(p) ==>
        exists|j: int| 0 <= j < i && t[j].entity == p) by {
        if i < s.len() {
            match s[i].parent {
                Some(p) => {
                    let j = choose|j: int| 0 <= j < i && s[j].entity == p;
                    assert(t[j].entity == p);
                },
                None => {},
            }
        } else {
            match parent {
                Some(p) => {
                    let j = choose|j: int| 0 <= j < s.len() && s[j].entity == p;
                    assert(t[j].entity == p);
                },
                None => {},
            }
        }
    }
}

/// A doom set taken from a full scan of the graph is downward closed:
/// a doomed record's children are doomed with it. Stated for the subtree
/// scan here, it lets removal lemmas apply.
proof fn lemma_subtree_downward<B, K: PartialEq>(
    s: Seq<EntityRecord<B, K>>,
    next: u64,
    root: Entity,
)
    requires
        graph_wf(s, next),
    ensures
        graph_wf(remove_entities(s, subtree_of(s, root)), next),
{
    let seed = |i: int| s[i].entity == root;
    let doom = subtree_of(s, root);
    assert forall|i: int|
        0 <= i < s.len() && (#[trigger] s[i].parent matches Some(p) && doom.contains(p))
            implies doom.contains(s[i].entity) by {
        match s[i].parent {
            Some(p) => {
                if doom.contains(p) {
                    lemma_spread_downward_closed(s, seed, i, p);
                }
            },
            None => {},
        }
    }
    lemma_remove_preserves_wf(s, next, doom);
}

/// Like [`lemma_subtree_downward`], for the descendants-only scan.
proof fn lemma_descendants_downward<B, K: PartialEq>(
    s: Seq<EntityRecord<B, K>>,
    next: u64,
    root: Entity,
)
    requires
        graph_wf(s, next),
    ensures
        graph_wf(remove_entities(s, descendants_of(s, root)), next),
{
    let seed = |i: int| s[i].parent == Some(root);
    let doom = descendants_of(s, root);
    assert forall|i: int|
        0 <= i < s.len() && (#[trigger] s[i].parent matches Some(p) && doom.contains(p))
            implies doom.contains(s[i].entity) by {
        match s[i].parent {
            Some(p) => {
                if doom.contains(p) {
                    lemma_spread_downward_closed(s, seed, i, p);
                }
            },
            None => {},
        }
    }
    lemma_remove_preserves_wf(s, next, doom);
}

/// Every command preserves the graph's well-formedness — in particular, at
/// most one live entity ever carries a given identifier — and consumes at
/// most one fresh handle.
pub proof fn lemma_cud_apply_wf<B, K: PartialEq + Clone>(
    s: Seq<EntityRecord<B, K>>,
    next: u64,
    ev: CudEvent<B, K>,
)
    requires
        lawful_key::<K>(),
        graph_wf(s, next),
        next < u64::MAX,
    ensures
        graph_wf(cud_apply(s, next, ev).0, cud_apply(s, next, ev).1),
        next <= cud_apply(s, next, ev).1 <= next + 1,
{
    let self_id = ev.self_identifier_spec();
    let key = self_id.0;
    let bundle = ev.bundle_spec();
    match ev.parent_identifier_spec() {
        None => {
            if has_key(s, key) {
                let ki = key_index(s, key);
                assert(0 <= ki < s.len() && rec_matches(s[ki], key));
                let e = s[ki].entity;
                match ev.action_spec() {
                    Action::CreateOrModify | Action::Update => {
                        lemma_subtree_downward(s, next, e);
                        lemma_subtree_contains_self(s, ki);
                        lemma_replace_key_fresh(s, key, subtree_of(s, e));
                        lemma_push_spawn_wf(
                            remove_entities(s, subtree_of(s, e)),
                            next,
                            self_id,
                            None,
                            bundle,
                        );
                    },
                    Action::Delete => {
                        lemma_subtree_downward(s, next, e);
                    },
                    Action::Clear => {
                        lemma_descendants_downward(s, next, e);
                    },
                    Action::Create => {},
                }
            } else {
                match ev.action_spec() {
                    Action::Create | Action::CreateOrModify => {
                        lemma_push_spawn_wf(s, next, self_id, None, bundle);
                    },
                    _ => {},
                }
            }
        },
        Some(pid) => {
            if has_key(s, pid.0) {
                let pki = key_index(s, pid.0);
                assert(0 <= pki < s.len() && rec_matches(s[pki], pid.0));
                let pe = s[pki].entity;
                if has_key(s, key) {
                    let ki = key_index(s, key);
                    assert(0 <= ki < s.len() && rec_matches(s[ki], key));
                    let ce = s[ki].entity;
                    match ev.action_spec() {
                        Action::CreateOrModify | Action::Update => {
                            if !subtree_of(s, ce).contains(pe) {
                                lemma_subtree_downward(s, next, ce);
                                lemma_subtree_contains_self(s, ki);
                                lemma_replace_key_fresh(s, key, subtree_of(s, ce));
                                lemma_removed_keeps_entity(s, subtree_of(s, ce), pki);
                                lemma_push_spawn_wf(
                                    remove_entities(s, subtree_of(s, ce)),
                                    next,
                                    self_id,
                                    Some(pe),
                                    bundle,
                                );
                            }
                        },
                        Action::Delete => {
                            lemma_subtree_downward(s, next, ce);
                        },
                        Action::Clear => {
                            lemma_descendants_downward(s, next, ce);
                        },
                        Action::Create => {},
                    }
                } else {
                    match ev.action_spec() {
                        Action::Create | Action::CreateOrModify => {
                            lemma_push_spawn_wf(s, next, self_id, Some(pe), bundle);
                        },
                        _ => {},
                    }
                }
            }
        },
    }
}

/// A whole command batch preserves the graph's well-formedness and consumes
/// at most one fresh handle per command.
pub proof fn lemma_cud_run_wf<B, K: PartialEq + Clone>(
    s: Seq<EntityRecord<B, K>>,
    next: u64,
    evs: Seq<CudEvent<B, K>>,
)
    requires
        lawful_key::<K>(),
        graph_wf(s, next),
        next + evs.len() <= u64::MAX,
    ensures
        graph_wf(cud_run(s, next, evs).0, cud_run(s, next, evs).1),
        next <= cud_run(s, next, evs).1 <= next + evs.len(),
    decreases evs.len(),
{
    if evs.len() > 0 {
        let step = cud_apply(s, next, evs[0]);
        lemma_cud_apply_wf(s, next, evs[0]);
        lemma_cud_run_wf(step.0, step.1, evs.drop_first());
    }
}

/// For all identifiers: a Create command for an identifier no live entity
/// carries succeeds, spawns exactly one entity carrying that identifier,
/// and appends one success record to the ledger.
pub proof fn lemma_create_when_absent<B, K: PartialEq + Clone>(
    s: Seq<EntityRecord<B, K>>,
    next: u64,
    ev: CudEvent<B, K>,
)
    requires
        lawful_key::<K>(),
        ev.action_spec() == Action::Create,
        ev.parent_identifier_spec() is None,
        !has_key(s, ev.self_identifier_spec().0),
    ensures
        cud_run(s, next, seq![ev]).0 == s.push(
            spawn_rec(next, ev.self_identifier_spec(), None, ev.bundle_spec()),
        ),
        unique_match(cud_run(s, next, seq![ev]).0, ev.self_identifier_spec().0),
        cud_log(s, next, seq![ev]) == seq![ev.to_history_spec(Ok(()))],
{
    let key = ev.self_identifier_spec().0;
    let evs = seq![ev];
    assert(evs[0] == ev);
    let step = cud_apply(s, next, ev);
    assert(step.2);
    let t = step.0;
    assert(cud_run(step.0, step.1, evs.drop_first()) == (step.0, step.1));
    assert(cud_log(step.0, step.1, evs.drop_first()) =~= Seq::<History<K>>::empty());
    assert(cud_log(s, next, evs) =~= seq![ev.to_history_spec(Ok(()))]);
    let w = s.len() as int;
    assert(rec_matches(t[w], key));
    assert forall|j: int| 0 <= j < t.len() && j != w implies !rec_matches(
        #[trigger] t[j],
        key,
    ) by {
        assert(t[j] == s[j]);
        if rec_matches(s[j], key) {
            assert(has_key(s, key));
        }
    }
    assert(unique_match(t, key));
}

/// Creating the same identifier twice, the second command issued after the
/// first is processed, yields one success and one failure record and
/// exactly one live entity carrying the identifier.
pub proof fn lemma_create_twice<B, K: PartialEq + Clone>(
    s: Seq<EntityRecord<B, K>>,
    next: u64,
    ev1: CudEvent<B, K>,
    ev2: CudEvent<B, K>,
)
    requires
        lawful_key::<K>(),
        ev1.action_spec() == Action::Create,
        ev1.parent_identifier_spec() is None,
        ev2.action_spec() == Action::Create,
        ev2.parent_identifier_spec() is None,
        ev2.self_identifier_spec().0 == ev1.self_identifier_spec().0,
        !has_key(s, ev1.self_identifier_spec().0),
    ensures
        cud_log(s, next, seq![ev1, ev2]) == seq![
            ev1.to_history_spec(Ok(())),
            ev2.to_history_spec(Err(())),
        ],
        unique_match(cud_run(s, next, seq![ev1, ev2]).0, ev1.self_identifier_spec().0),
        cud_run(s, next, seq![ev1, ev2]).0 == s.push(
            spawn_rec(next, ev1.self_identifier_spec(), None, ev1.bundle_spec()),
        ),
{
    let key = ev1.self_identifier_spec().0;
    let evs = seq![ev1, ev2];
    assert(evs[0] == ev1);
    assert(evs.drop_first() =~= seq![ev2]);
    let step1 = cud_apply(s, next, ev1);
    assert(step1.2);
    let s1 = step1.0;
    let w = s.len() as int;
    assert(rec_matches(s1[w], key));
    assert(has_key(s1, key));
    let step2 = cud_apply(s1, step1.1, ev2);
    assert(!step2.2);
    assert(step2.0 == s1);
    lemma_create_when_absent(s, next, ev1);
    assert(evs.drop_first().drop_first() =~= Seq::<CudEvent<B, K>>::empty());
    assert(cud_run(step2.0, step2.1, evs.drop_first().drop_first()) == (step2.0, step2.1));
    assert(evs.drop_first()[0] == ev2);
    assert(cud_run(s1, step1.1, evs.drop_first()) == (step2.0, step2.1));
    assert(cud_run(s, next, evs).0 == s1);
    assert(cud_log(step2.0, step2.1, evs.drop_first().drop_first()) =~= Seq::<History<K>>::empty());
    assert(cud_log(s1, step1.1, evs.drop_first()) =~= seq![ev2.to_history_spec(Err(()))]);
    assert(cud_log(s, next, evs) =~= seq![ev1.to_history_spec(Ok(()))] + seq![
        ev2.to_history_spec(Err(())),
    ]);
    assert(cud_log(s, next, evs) =~= seq![
        ev1.to_history_spec(Ok(())),
        ev2.to_history_spec(Err(())),
    ]);
    assert forall|j: int| 0 <= j < s1.len() && j != w implies !rec_matches(
        #[trigger] s1[j],
        key,
    ) by {
        assert(s1[j] == s[j]);
        if rec_matches(s[j], key) {
            assert(has_key(s, key));
        }
    }
    assert(unique_match(s1, key));
}

/// A Delete command for an identifier no live entity carries appends one
/// failure record and leaves the live entity set untouched.
pub proof fn lemma_delete_absent<B, K: PartialEq + Clone>(
    s: Seq<EntityRecord<B, K>>,
    next: u64,
    ev: CudEvent<B, K>,
)
    requires
        ev.action_spec() == Action::Delete,
        ev.parent_identifier_spec() is None,
        !has_key(s, ev.self_identifier_spec().0),
    ensures
        cud_run(s, next, seq![ev]).0 == s,
        cud_run(s, next, seq![ev]).1 == next,
        cud_log(s, next, seq![ev]) == seq![ev.to_history_spec(Err(()))],
{
    let evs = seq![ev];
    assert(evs[0] == ev);
    assert(evs.drop_first() =~= Seq::<CudEvent<B, K>>::empty());
    let step = cud_apply(s, next, ev);
    assert(!step.2 && step.0 == s && step.1 == next);
    assert(cud_run(step.0, step.1, evs.drop_first()) == (step.0, step.1));
    assert(cud_log(step.0, step.1, evs.drop_first()) =~= Seq::<History<K>>::empty());
    assert(cud_log(s, next, evs) =~= seq![ev.to_history_spec(Err(()))]);
}

/// A child-level command under a parent identifier that no live entity
/// carries fails outright: one failure record, no entity created, the
/// graph untouched.
pub proof fn lemma_child_parent_absent<B, K: PartialEq + Clone>(
    s: Seq<EntityRecord<B, K>>,
    next: u64,
    ev: CudEvent<B, K>,
)
    requires
        ev.parent_identifier_spec() is Some,
        !has_key(s, ev.parent_identifier_spec().unwrap().0),
    ensures
        cud_run(s, next, seq![ev]).0 == s,
        cud_run(s, next, seq![ev]).1 == next,
        cud_log(s, next, seq![ev]) == seq![ev.to_history_spec(Err(()))],
{
    let evs = seq![ev];
    assert(evs[0] == ev);
    assert(evs.drop_first() =~= Seq::<CudEvent<B, K>>::empty());
    let step = cud_apply(s, next, ev);
    assert(!step.2 && step.0 == s && step.1 == next);
    assert(cud_run(step.0, step.1, evs.drop_first()) == (step.0, step.1));
    assert(cud_log(step.0, step.1, evs.drop_first()) =~= Seq::<History<K>>::empty());
    assert(cud_log(s, next, evs) =~= seq![ev.to_history_spec(Err(()))]);
}

/// Deleting an entity despawns it and every transitive descendant, and no
/// entity outside its subtree, with one success record.
pub proof fn lemma_delete_removes_subtree<B, K: PartialEq + Clone>(
    s: Seq<EntityRecord<B, K>>,
    next: u64,
    ev: CudEvent<B, K>,
    i: int,
)
    requires
        lawful_key::<K>(),
        handles_unique(s),
        parents_precede(s),
        keys_unique(s),
        ev.action_spec() == Action::Delete,
        ev.parent_identifier_spec() is None,
        has_key(s, ev.self_identifier_spec().0),
        0 <= i < s.len(),
    ensures
        cud_log(s, next, seq![ev]) == seq![ev.to_history_spec(Ok(()))],
        has_entity(cud_run(s, next, seq![ev]).0, s[i].entity) == !in_subtree_at(
            s,
            i,
            s[key_index(s, ev.self_identifier_spec().0)].entity,
        ),
{
    let key = ev.self_identifier_spec().0;
    let evs = seq![ev];
    assert(evs[0] == ev);
    assert(evs.drop_first() =~= Seq::<CudEvent<B, K>>::empty());
    let ki = key_index(s, key);
    assert(0 <= ki < s.len() && rec_matches(s[ki], key));
    let root = s[ki].entity;
    let step = cud_apply(s, next, ev);
    assert(step.2);
    assert(step.0 == remove_entities(s, subtree_of(s, root)));
    assert(cud_run(step.0, step.1, evs.drop_first()) == (step.0, step.1));
    assert(cud_log(step.0, step.1, evs.drop_first()) =~= Seq::<History<K>>::empty());
    assert(cud_log(s, next, evs) =~= seq![ev.to_history_spec(Ok(()))]);
    lemma_removed_entity_iff(s, subtree_of(s, root), s[i].entity);
    assert(has_entity(s, s[i].entity));
    let seed = |j: int| s[j].entity == root;
    lemma_spread_characterization(s, seed, i);
    if in_subtree_at(s, i, root) {
        assert(seed(ki) && in_subtree_at(s, i, s[ki].entity));
        assert(subtree_of(s, root).contains(s[i].entity));
    }
    if subtree_of(s, root).contains(s[i].entity) {
        let j = choose|j: int|
            0 <= j < s.len() && #[trigger] seed(j) && in_subtree_at(s, i, s[j].entity);
        assert(s[j].entity == root);
        assert(in_subtree_at(s, i, root));
    }
}

/// In a well-formed graph, a record strictly inside a subtree descends from
/// one of the root's immediate children.
proof fn lemma_strict_descendant<B, K>(s: Seq<EntityRecord<B, K>>, i: int, root: Entity)
    requires
        handles_unique(s),
        0 <= i < s.len(),
        in_subtree_at(s, i, root),
        s[i].entity != root,
    ensures
        exists|j: int|
            0 <= j < s.len() && #[trigger] s[j].parent == Some(root) && in_subtree_at(
                s,
                i,
                s[j].entity,
            ),
    decreases i,
{
    match parent_slot(s, i) {
        Some(j0) => {
            assert(0 <= j0 < i);
            assert(in_subtree_at(s, j0, root));
            if s[j0].entity == root {
                assert(s[i].parent == Some(root));
                assert(in_subtree_at(s, i, s[i].entity));
                assert(s[i].parent == Some(root) && in_subtree_at(s, i, s[i].entity));
            } else {
                lemma_strict_descendant(s, j0, root);
                let j = choose|j: int|
                    0 <= j < s.len() && #[trigger] s[j].parent == Some(root) && in_subtree_at(
                        s,
                        j0,
                        s[j].entity,
                    );
                assert(in_subtree_at(s, i, s[j].entity));
            }
        },
        None => {
            assert(false);
        },
    }
}

/// Clearing an entity despawns exactly its descendants: the entity itself
/// stays live and queryable, everything strictly inside its subtree is
/// removed, and everything outside it is untouched.
pub proof fn lemma_clear_keeps_entity<B, K: PartialEq + Clone>(
    s: Seq<EntityRecord<B, K>>,
    next: u64,
    ev: CudEvent<B, K>,
    i: int,
)
    requires
        lawful_key::<K>(),
        handles_unique(s),
        parents_precede(s),
        keys_unique(s),
        ev.action_spec() == Action::Clear,
        ev.parent_identifier_spec() is None,
        has_key(s, ev.self_identifier_spec().0),
        0 <= i < s.len(),
    ensures
        cud_log(s, next, seq![ev]) == seq![ev.to_history_spec(Ok(()))],
        has_key(cud_run(s, next, seq![ev]).0, ev.self_identifier_spec().0),
        has_entity(cud_run(s, next, seq![ev]).0, s[i].entity) == !(in_subtree_at(
            s,
            i,
            s[key_index(s, ev.self_identifier_spec().0)].entity,
        ) && s[i].entity != s[key_index(s, ev.self_identifier_spec().0)].entity),
{
    let key = ev.self_identifier_spec().0;
    let evs = seq![ev];
    assert(evs[0] == ev);
    assert(evs.drop_first() =~= Seq::<CudEvent<B, K>>::empty());
    let ki = key_index(s, key);
    assert(0 <= ki < s.len() && rec_matches(s[ki], key));
    let root = s[ki].entity;
    let step = cud_apply(s, next, ev);
    assert(step.2);
    let doom = descendants_of(s, root);
    assert(step.0 == remove_entities(s, doom));
    assert(cud_run(step.0, step.1, evs.drop_first()) == (step.0, step.1));
    assert(cud_log(step.0, step.1, evs.drop_first()) =~= Seq::<History<K>>::empty());
    assert(cud_log(s, next, evs) =~= seq![ev.to_history_spec(Ok(()))]);
    let seed = |j: int| s[j].parent == Some(root);
    // the root itself is never among its own descendants
    assert(!doom.contains(root)) by {
        lemma_spread_characterization(s, seed, ki);
        if doom.contains(root) {
            let j = choose|j: int|
                0 <= j < s.len() && #[trigger] seed(j) && in_subtree_at(s, ki, s[j].entity);
            lemma_chain_root_before(s, ki, j, s[j].entity);
            let r = choose|r: int| 0 <= r < j && s[r].entity == root;
            assert(0 <= r < j && s[r].entity == root);
            lemma_entity_index_unique(s, root, r, ki);
            assert(false);
        }
    }
    // the cleared entity remains queryable
    let pred = |r: EntityRecord<B, K>| !doom.contains(r.entity);
    s.lemma_filter_contains(pred, ki);
    let a = choose|a: int| 0 <= a < step.0.len() && step.0[a] == s[ki];
    assert(rec_matches(step.0[a], key));
    assert(has_key(step.0, key));
    // membership characterization for every record
    lemma_removed_entity_iff(s, doom, s[i].entity);
    assert(has_entity(s, s[i].entity));
    lemma_spread_characterization(s, seed, i);
    if doom.contains(s[i].entity) {
        let j = choose|j: int|
            0 <= j < s.len() && #[trigger] seed(j) && in_subtree_at(s, i, s[j].entity);
        let r = choose|r: int| 0 <= r < j && s[r].entity == root;
        assert(0 <= r < j && s[r].entity == root);
        lemma_chain_extend(s, i, j, root);
        assert(in_subtree_at(s, i, root));
        if s[i].entity == root {
            lemma_entity_index_unique(s, root, i, ki);
            assert(doom.contains(root));
            assert(false);
        }
    }
    if in_subtree_at(s, i, root) && s[i].entity != root {
        lemma_strict_descendant(s, i, root);
        let j = choose|j: int|
            0 <= j < s.len() && #[trigger] s[j].parent == Some(root) && in_subtree_at(
                s,
                i,
                s[j].entity,
            );
        assert(seed(j) && in_subtree_at(s, i, s[j].entity));
        assert(doom.contains(s[i].entity));
    }
}

/// One parent-level CreateOrModify, from any well-formed graph: it always
/// succeeds and always leaves exactly one live entity carrying the
/// identifier — the freshly spawned record with the event's bundle and a
/// zeroed clock.
proof fn lemma_create_or_modify_once<B, K: PartialEq + Clone>(
    s: Seq<EntityRecord<B, K>>,
    next: u64,
    ev: CudEvent<B, K>,
)
    requires
        lawful_key::<K>(),
        graph_wf(s, next),
        next < u64::MAX,
        ev.action_spec() == Action::CreateOrModify,
        ev.parent_identifier_spec() is None,
    ensures
        cud_apply(s, next, ev).2,
        cud_apply(s, next, ev).1 == next + 1,
        graph_wf(cud_apply(s, next, ev).0, (next + 1) as u64),
        cud_apply(s, next, ev).0.len() > 0,
        cud_apply(s, next, ev).0.last() == spawn_rec(
            next,
            ev.self_identifier_spec(),
            None,
            ev.bundle_spec(),
        ),
        unique_match(cud_apply(s, next, ev).0, ev.self_identifier_spec().0),
{
    let key = ev.self_identifier_spec().0;
    let step = cud_apply(s, next, ev);
    lemma_cud_apply_wf(s, next, ev);
    if has_key(s, key) {
        let ki = key_index(s, key);
        assert(0 <= ki < s.len() && rec_matches(s[ki], key));
        let e = s[ki].entity;
        lemma_subtree_contains_self(s, ki);
        lemma_replace_key_fresh(s, key, subtree_of(s, e));
        let removed = remove_entities(s, subtree_of(s, e));
        let w = removed.len() as int;
        assert(step.0 == removed.push(spawn_rec(next, ev.self_identifier_spec(), None,
            ev.bundle_spec())));
        assert(rec_matches(step.0[w], key));
        assert forall|j: int| 0 <= j < step.0.len() && j != w implies !rec_matches(
            #[trigger] step.0[j],
            key,
        ) by {
            assert(step.0[j] == removed[j]);
        }
        assert(unique_match(step.0, key));
    } else {
        let w = s.len() as int;
        assert(rec_matches(step.0[w], key));
        assert forall|j: int| 0 <= j < step.0.len() && j != w implies !rec_matches(
            #[trigger] step.0[j],
            key,
        ) by {
            assert(step.0[j] == s[j]);
            if rec_matches(s[j], key) {
                assert(has_key(s, key));
            }
        }
        assert(unique_match(step.0, key));
    }
}

/// CreateOrModify is idempotent in effect, not in ledger output: replaying
/// it always succeeds again, always leaves exactly one live entity carrying
/// the identifier — the record spawned by the replay, with its bundle and a
/// fresh clock — and appends a success record each time.
pub proof fn lemma_create_or_modify_idempotent<B, K: PartialEq + Clone>(
    s: Seq<EntityRecord<B, K>>,
    next: u64,
    ev1: CudEvent<B, K>,
    ev2: CudEvent<B, K>,
)
    requires
        lawful_key::<K>(),
        graph_wf(s, next),
        next + 2 <= u64::MAX,
        ev1.action_spec() == Action::CreateOrModify,
        ev1.parent_identifier_spec() is None,
        ev2.action_spec() == Action::CreateOrModify,
        ev2.parent_identifier_spec() is None,
        ev2.self_identifier_spec().0 == ev1.self_identifier_spec().0,
    ensures
        cud_log(s, next, seq![ev1, ev2]) == seq![
            ev1.to_history_spec(Ok(())),
            ev2.to_history_spec(Ok(())),
        ],
        unique_match(cud_run(s, next, seq![ev1, ev2]).0, ev1.self_identifier_spec().0),
        cud_run(s, next, seq![ev1, ev2]).0.len() > 0,
        cud_run(s, next, seq![ev1, ev2]).0.last() == spawn_rec(
            (next + 1) as u64,
            ev2.self_identifier_spec(),
            None,
            ev2.bundle_spec(),
        ),
{
    let evs = seq![ev1, ev2];
    assert(evs[0] == ev1);
    assert(evs.drop_first() =~= seq![ev2]);
    let step1 = cud_apply(s, next, ev1);
    lemma_create_or_modify_once(s, next, ev1);
    let s1 = step1.0;
    let step2 = cud_apply(s1, step1.1, ev2);
    lemma_create_or_modify_once(s1, step1.1, ev2);
    assert(evs.drop_first().drop_first() =~= Seq::<CudEvent<B, K>>::empty());
    assert(cud_run(step2.0, step2.1, evs.drop_first().drop_first()) == (step2.0, step2.1));
    assert(evs.drop_first()[0] == ev2);
    assert(cud_run(s1, step1.1, evs.drop_first()) == (step2.0, step2.1));
    assert(cud_run(s, next, evs).0 == step2.0);
    assert(cud_log(step2.0, step2.1, evs.drop_first().drop_first()) =~= Seq::<History<K>>::empty());
    assert(cud_log(s1, step1.1, evs.drop_first()) =~= seq![ev2.to_history_spec(Ok(()))]);
    assert(cud_log(s, next, evs) =~= seq![
        ev1.to_history_spec(Ok(())),
        ev2.to_history_spec(Ok(())),
    ]);
}

/// What an expiry scan leaves live, for any marking: a record survives
/// exactly when no marked record sits above it (or is it).
proof fn lemma_sweep_membership<B, K>(
    s: Seq<EntityRecord<B, K>>,
    marks: Seq<bool>,
    ticks: Seq<bool>,
    delta: u64,
    i: int,
)
    requires
        handles_unique(s),
        parents_precede(s),
        marks.len() == s.len(),
        0 <= i < s.len(),
    ensures
        has_entity(sweep_spec(s, marks, ticks, delta), s[i].entity) == !(exists|j: int|
            0 <= j < s.len() && #[trigger] marks[j] && in_subtree_at(s, i, s[j].entity)),
        (!(exists|j: int| 0 <= j < s.len() && #[trigger] marks[j] && in_subtree_at(s, i, s[j].entity)))
            ==> sweep_spec(s, marks, ticks, delta).contains(tick_rec(s[i], ticks[i], delta)),
{
    let doom = sweep_doom(s, marks);
    let seed = mark_seed(marks);
    lemma_spread_characterization(s, seed, i);
    if exists|j: int| 0 <= j < s.len() && #[trigger] marks[j] && in_subtree_at(s, i, s[j].entity) {
        let j = choose|j: int|
            0 <= j < s.len() && #[trigger] marks[j] && in_subtree_at(s, i, s[j].entity);
        assert(seed(j) && in_subtree_at(s, i, s[j].entity));
        assert(doom.contains(s[i].entity));
        lemma_sweep_drops(s, ticks, delta, doom, s.len() as int, s[i].entity);
    } else {
        if doom.contains(s[i].entity) {
            let j = choose|j: int|
                0 <= j < s.len() && #[trigger] seed(j) && in_subtree_at(s, i, s[j].entity);
            assert(marks[j] && in_subtree_at(s, i, s[j].entity));
            assert(false);
        }
        lemma_sweep_keeps(s, ticks, delta, doom, s.len() as int, i);
        let t = sweep_spec(s, marks, ticks, delta);
        assert(t.contains(tick_rec(s[i], ticks[i], delta)));
        let a = choose|a: int| 0 <= a < t.len() && t[a] == tick_rec(s[i], ticks[i], delta);
        assert(t[a].entity == s[i].entity);
    }
}

/// Own-lifetime expiry: an entity stays live through an own-lifetime sweep
/// exactly when neither it nor any ancestor has an own lifetime that the
/// tick's elapsed duration exhausts; an entity that stays and declares a
/// lifetime comes out with its clock advanced by the tick.
pub proof fn lemma_own_lifetime_expiry<B: BiologicalTrait, K>(
    s: Seq<EntityRecord<B, K>>,
    delta: u64,
    i: int,
)
    requires
        handles_unique(s),
        parents_precede(s),
        0 <= i < s.len(),
    ensures
        has_entity(sweep_spec(s, own_marks(s, delta), own_ticks(s, delta), delta), s[i].entity)
            == !(exists|j: int|
            0 <= j < s.len() && #[trigger] own_expired(s[j], delta) && in_subtree_at(
                s,
                i,
                s[j].entity,
            )),
        (!(exists|j: int|
            0 <= j < s.len() && #[trigger] own_expired(s[j], delta) && in_subtree_at(
                s,
                i,
                s[j].entity,
            )) && s[i].bundle.lifetime_spec() is Some) ==> sweep_spec(
            s,
            own_marks(s, delta),
            own_ticks(s, delta),
            delta,
        ).contains(tick_rec(s[i], true, delta)),
{
    let marks = own_marks(s, delta);
    let ticks = own_ticks(s, delta);
    lemma_sweep_membership(s, marks, ticks, delta, i);
    assert forall|j: int| 0 <= j < s.len() implies #[trigger] marks[j] == own_expired(
        s[j],
        delta,
    ) by {}
    if exists|j: int|
        0 <= j < s.len() && #[trigger] own_expired(s[j], delta) && in_subtree_at(
            s,
            i,
            s[j].entity,
        ) {
        let j = choose|j: int|
            0 <= j < s.len() && #[trigger] own_expired(s[j], delta) && in_subtree_at(
                s,
                i,
                s[j].entity,
            );
        assert(marks[j] && in_subtree_at(s, i, s[j].entity));
    }
    if exists|j: int| 0 <= j < s.len() && #[trigger] marks[j] && in_subtree_at(s, i, s[j].entity) {
        let j = choose|j: int|
            0 <= j < s.len() && #[trigger] marks[j] && in_subtree_at(s, i, s[j].entity);
        assert(own_expired(s[j], delta) && in_subtree_at(s, i, s[j].entity));
    } else {
        if s[i].bundle.lifetime_spec() is Some {
            assert(in_subtree_at(s, i, s[i].entity));
            if own_expired(s[i], delta) {
                assert(marks[i] && in_subtree_at(s, i, s[i].entity));
                assert(false);
            }
            assert(ticks[i]);
        }
    }
}

/// Parent-bound expiry: a child whose own clock exhausts its parent's
/// declared lifetime is despawned by the parent-bound sweep — with its
/// subtree, and even when the child's own bundle declares no lifetime.
pub proof fn lemma_parent_lifetime_expiry<B: BiologicalTrait, K>(
    s: Seq<EntityRecord<B, K>>,
    delta: u64,
    i: int,
)
    requires
        handles_unique(s),
        parents_precede(s),
        0 <= i < s.len(),
    ensures
        has_entity(
            sweep_spec(s, parent_marks(s, delta), parent_ticks(s, delta), delta),
            s[i].entity,
        ) == !(exists|j: int|
            0 <= j < s.len() && #[trigger] parent_expired(s, j, delta) && in_subtree_at(
                s,
                i,
                s[j].entity,
            )),
{
    let marks = parent_marks(s, delta);
    let ticks = parent_ticks(s, delta);
    lemma_sweep_membership(s, marks, ticks, delta, i);
    if exists|j: int|
        0 <= j < s.len() && #[trigger] parent_expired(s, j, delta) && in_subtree_at(
            s,
            i,
            s[j].entity,
        ) {
        let j = choose|j: int|
            0 <= j < s.len() && #[trigger] parent_expired(s, j, delta) && in_subtree_at(
                s,
                i,
                s[j].entity,
            );
        assert(marks[j] && in_subtree_at(s, i, s[j].entity));
    }
    if exists|j: int| 0 <= j < s.len() && #[trigger] marks[j] && in_subtree_at(s, i, s[j].entity) {
        let j = choose|j: int|
            0 <= j < s.len() && #[trigger] marks[j] && in_subtree_at(s, i, s[j].entity);
        assert(parent_expired(s, j, delta) && in_subtree_at(s, i, s[j].entity));
    }
}

} // verus!
