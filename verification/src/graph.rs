//! The entity graph: an arena of entity records connected by parent edges.
//!
//! Every entity managed by the engine is one record: a unique handle, an
//! identifier tag, an optional parent handle, an age clock and a component
//! bundle. The graph is a forest: deleting an entity removes its whole
//! subtree, and clearing an entity removes the subtree while keeping the
//! entity itself. Records are kept in spawn order, so a record's parent
//! always sits at an earlier position; subtree removal is an iterative
//! forward pass over that order rather than a recursive walk.

use vstd::prelude::*;

use crate::keys::{lawful_key, same_key};
use crate::structs::{BiologicalClock, Identifier};

verus! {

/// An opaque handle to an entity: a lookup key into the graph, not an
/// owning pointer. Handles of despawned entities simply stop resolving.
#[derive(Clone, Copy, Debug, PartialEq, Eq, Structural)]
pub struct Entity(pub u64);

/// One live entity: its handle, identifier tag, optional parent edge, age
/// clock and component bundle.
pub struct EntityRecord<B, K> {
    pub entity: Entity,
    pub identifier: Identifier<K>,
    pub parent: Option<Entity>,
    pub clock: BiologicalClock,
    pub bundle: B,
}

/// The arena of live entities, in spawn order, plus the next unused handle.
pub struct EntityGraph<B, K> {
    records: Vec<EntityRecord<B, K>>,
    next_handle: u64,
}

/// Whether the record carries the given identifier key.
pub open spec fn rec_matches<B, K: PartialEq>(r: EntityRecord<B, K>, key: K) -> bool {
    same_key(r.identifier.0, key)
}

/// Whether some record carries the given identifier key.
pub open spec fn has_key<B, K: PartialEq>(s: Seq<EntityRecord<B, K>>, key: K) -> bool {
    exists|i: int| 0 <= i < s.len() && rec_matches(s[i], key)
}

/// The position of the record carrying the given identifier key
/// (meaningful under [`has_key`]; unique under [`keys_unique`]).
pub open spec fn key_index<B, K: PartialEq>(s: Seq<EntityRecord<B, K>>, key: K) -> int {
    choose|i: int| 0 <= i < s.len() && rec_matches(s[i], key)
}

/// Whether some record has the given handle.
pub open spec fn has_entity<B, K>(s: Seq<EntityRecord<B, K>>, e: Entity) -> bool {
    exists|i: int| 0 <= i < s.len() && s[i].entity == e
}

/// The position of the record with the given handle (meaningful under
/// [`has_entity`]; unique under [`handles_unique`]).
pub open spec fn entity_index<B, K>(s: Seq<EntityRecord<B, K>>, e: Entity) -> int {
    choose|i: int| 0 <= i < s.len() && s[i].entity == e
}

/// No two records share a handle.
pub open spec fn handles_unique<B, K>(s: Seq<EntityRecord<B, K>>) -> bool {
    forall|i: int, j: int|
        #![trigger s[i].entity, s[j].entity]
        0 <= i < s.len() && 0 <= j < s.len() && i != j ==> s[i].entity != s[j].entity
}

/// Every handle is below the next unused one.
pub open spec fn handles_bounded<B, K>(s: Seq<EntityRecord<B, K>>, next: u64) -> bool {
    forall|i: int| #![trigger s[i].entity] 0 <= i < s.len() ==> s[i].entity.0 < next
}

/// Every parent edge points at a record in an earlier position: parents are
/// spawned before their children, so the graph is a forest and a single
/// forward pass visits parents before descendants.
pub open spec fn parents_precede<B, K>(s: Seq<EntityRecord<B, K>>) -> bool {
    forall|i: int|
        #![trigger s[i].parent]
        0 <= i < s.len() ==> (s[i].parent matches Some(p) ==> exists|j: int|
            0 <= j < i && s[j].entity == p)
}

/// At most one live record carries a given identifier: the invariant the
/// CRUD engine's precondition checks enforce.
pub open spec fn keys_unique<B, K: PartialEq>(s: Seq<EntityRecord<B, K>>) -> bool {
    forall|i: int, j: int|
        #![trigger same_key(s[i].identifier.0, s[j].identifier.0)]
        0 <= i < s.len() && 0 <= j < s.len() && i != j ==> !same_key(
            s[i].identifier.0,
            s[j].identifier.0,
        )
}

/// Well-formedness of the arena: unique handles below the next unused one,
/// parent edges resolving to earlier records, unique identifiers.
pub open spec fn graph_wf<B, K: PartialEq>(s: Seq<EntityRecord<B, K>>, next: u64) -> bool {
    &&& handles_unique(s)
    &&& handles_bounded(s, next)
    &&& parents_precede(s)
    &&& keys_unique(s)
}

/// The set of entities doomed after scanning the first `n` records: a
/// record is doomed when its position is seeded or its parent is already
/// doomed. Because parents precede children, one pass over the whole
/// sequence dooms exactly the seeded records' subtrees.
pub open spec fn spread<B, K>(
    s: Seq<EntityRecord<B, K>>,
    seed: spec_fn(int) -> bool,
    n: int,
) -> Set<Entity>
    decreases n,
{
    if n <= 0 {
        Set::empty()
    } else {
        let prev = spread(s, seed, n - 1);
        let r = s[n - 1];
        if seed(n - 1) || (r.parent matches Some(p) && prev.contains(p)) {
            prev.insert(r.entity)
        } else {
            prev
        }
    }
}

/// The entities of the subtree rooted at `root`: `root`'s own record and
/// every record reachable from it by parent edges.
pub open spec fn subtree_of<B, K>(s: Seq<EntityRecord<B, K>>, root: Entity) -> Set<Entity> {
    spread(s, |i: int| s[i].entity == root, s.len() as int)
}

/// The entities of the strict subtree below `root`: every descendant, but
/// not `root` itself.
pub open spec fn descendants_of<B, K>(s: Seq<EntityRecord<B, K>>, root: Entity) -> Set<Entity> {
    spread(s, |i: int| s[i].parent == Some(root), s.len() as int)
}

/// The position of the record's parent, when the parent edge resolves to an
/// earlier record (as every edge does in a well-formed graph).
pub open spec fn parent_slot<B, K>(s: Seq<EntityRecord<B, K>>, i: int) -> Option<int> {
    match s[i].parent {
        Some(p) => if exists|j: int| 0 <= j < i && s[j].entity == p {
            Some(choose|j: int| 0 <= j < i && s[j].entity == p)
        } else {
            None
        },
        None => None,
    }
}

/// Whether the record at position `i` lies in the subtree rooted at the
/// entity `root`: it is `root`'s own record, or its parent chain reaches
/// `root`.
pub open spec fn in_subtree_at<B, K>(s: Seq<EntityRecord<B, K>>, i: int, root: Entity) -> bool
    decreases i,
{
    if s[i].entity == root {
        true
    } else {
        match parent_slot(s, i) {
            Some(j) => 0 <= j && in_subtree_at(s, j, root),
            None => false,
        }
    }
}

/// Exactly one record carries the given identifier key.
pub open spec fn unique_match<B, K: PartialEq>(s: Seq<EntityRecord<B, K>>, key: K) -> bool {
    exists|i: int|
        {
            &&& 0 <= i < s.len()
            &&& rec_matches(#[trigger] s[i], key)
            &&& forall|j: int|
                0 <= j < s.len() && j != i ==> !rec_matches(#[trigger] s[j], key)
        }
}

/// A doom scan only ever grows as it moves forward.
pub proof fn lemma_spread_monotone<B, K>(
    s: Seq<EntityRecord<B, K>>,
    seed: spec_fn(int) -> bool,
    m: int,
    n: int,
)
    requires
        0 <= m <= n,
    ensures
        spread(s, seed, m).subset_of(spread(s, seed, n)),
    decreases n - m,
{
    if m < n {
        lemma_spread_monotone(s, seed, m, n - 1);
    }
}

/// Every doomed entity is the handle of one of the scanned records.
pub proof fn lemma_spread_elements<B, K>(
    s: Seq<EntityRecord<B, K>>,
    seed: spec_fn(int) -> bool,
    n: int,
    e: Entity,
)
    requires
        spread(s, seed, n).contains(e),
    ensures
        exists|i: int| 0 <= i < n && s[i].entity == e,
    decreases n,
{
    if n <= 0 {
        assert(false);
    } else {
        if spread(s, seed, n - 1).contains(e) {
            lemma_spread_elements(s, seed, n - 1, e);
        } else {
            assert(s[n - 1].entity == e);
        }
    }
}

/// Under unique handles, whether a record is doomed is settled at its own
/// position in the scan: later stages never add it.
pub proof fn lemma_spread_stage<B, K>(
    s: Seq<EntityRecord<B, K>>,
    seed: spec_fn(int) -> bool,
    i: int,
    n: int,
)
    requires
        handles_unique(s),
        0 <= i < n <= s.len(),
    ensures
        spread(s, seed, n).contains(s[i].entity) == spread(s, seed, i + 1).contains(s[i].entity),
    decreases n,
{
    if n > i + 1 {
        lemma_spread_stage(s, seed, i, n - 1);
        assert(s[n - 1].entity != s[i].entity);
    }
}

/// A record whose entity is some root record's entity sits at that root's
/// position.
pub proof fn lemma_chain_root_before<B, K>(
    s: Seq<EntityRecord<B, K>>,
    i: int,
    j: int,
    root: Entity,
)
    requires
        handles_unique(s),
        0 <= i < s.len(),
        0 <= j < s.len(),
        s[j].entity == root,
        in_subtree_at(s, i, root),
    ensures
        j <= i,
    decreases i,
{
    if s[i].entity == root {
        assert(i == j);
    } else {
        match parent_slot(s, i) {
            Some(j0) => {
                lemma_chain_root_before(s, j0, j, root);
            },
            None => {
                assert(false);
            },
        }
    }
}

/// A parent chain that reaches a record extends through that record's own
/// parent edge.
pub proof fn lemma_chain_extend<B, K>(
    s: Seq<EntityRecord<B, K>>,
    i: int,
    j: int,
    p: Entity,
)
    requires
        handles_unique(s),
        0 <= i < s.len(),
        0 <= j < s.len(),
        in_subtree_at(s, i, s[j].entity),
        s[j].parent == Some(p),
        exists|r: int| 0 <= r < j && s[r].entity == p,
    ensures
        in_subtree_at(s, i, p),
    decreases i,
{
    if s[i].entity == s[j].entity {
        assert(i == j);
        let r = choose|r: int| 0 <= r < j && s[r].entity == p;
        assert(parent_slot(s, i) == Some(choose|r0: int| 0 <= r0 < i && s[r0].entity == p));
        let r0 = choose|r0: int| 0 <= r0 < i && s[r0].entity == p;
        assert(s[r0].entity == p);
        assert(in_subtree_at(s, r0, p));
    } else {
        match parent_slot(s, i) {
            Some(j0) => {
                lemma_chain_extend(s, j0, j, p);
            },
            None => {
                assert(false);
            },
        }
    }
}

/// What a full doom scan dooms, in terms of parent chains: exactly the
/// records whose chain reaches a seeded record.
pub proof fn lemma_spread_characterization<B, K>(
    s: Seq<EntityRecord<B, K>>,
    seed: spec_fn(int) -> bool,
    i: int,
)
    requires
        handles_unique(s),
        parents_precede(s),
        0 <= i < s.len(),
    ensures
        spread(s, seed, s.len() as int).contains(s[i].entity) == exists|j: int|
            0 <= j < s.len() && #[trigger] seed(j) && in_subtree_at(s, i, s[j].entity),
    decreases i,
{
    let n = s.len() as int;
    lemma_spread_stage(s, seed, i, n);
    if spread(s, seed, n).contains(s[i].entity) {
        // the scan doomed this record at its own stage: either it was seeded
        // or its parent was already doomed; walk the chain down.
        assert(spread(s, seed, i + 1).contains(s[i].entity));
        if spread(s, seed, i).contains(s[i].entity) {
            lemma_spread_elements(s, seed, i, s[i].entity);
            let j0 = choose|j0: int| 0 <= j0 < i && s[j0].entity == s[i].entity;
            assert(false);
        }
        if seed(i) {
            assert(in_subtree_at(s, i, s[i].entity));
        } else {
            match s[i].parent {
                Some(p) => {
                    assert(spread(s, seed, i).contains(p));
                    lemma_spread_elements(s, seed, i, p);
                    let j0 = choose|j0: int| 0 <= j0 < i && s[j0].entity == p;
                    assert(parent_slot(s, i) == Some(choose|j1: int|
                        0 <= j1 < i && s[j1].entity == p));
                    let j1 = choose|j1: int| 0 <= j1 < i && s[j1].entity == p;
                    lemma_entity_index_unique(s, p, j0, j1);
                    lemma_spread_monotone(s, seed, i, n);
                    assert(spread(s, seed, n).contains(s[j1].entity));
                    lemma_spread_characterization(s, seed, j1);
                    let j = choose|j: int|
                        0 <= j < s.len() && #[trigger] seed(j) && in_subtree_at(
                            s,
                            j1,
                            s[j].entity,
                        );
                    assert(in_subtree_at(s, i, s[j].entity));
                },
                None => {
                    assert(false);
                },
            }
        }
    }
    if exists|j: int| 0 <= j < s.len() && #[trigger] seed(j) && in_subtree_at(s, i, s[j].entity) {
        let j = choose|j: int|
            0 <= j < s.len() && #[trigger] seed(j) && in_subtree_at(s, i, s[j].entity);
        if s[i].entity == s[j].entity {
            lemma_entity_index_unique(s, s[j].entity, i, j);
            assert(spread(s, seed, i + 1).contains(s[i].entity));
            lemma_spread_monotone(s, seed, i + 1, n);
        } else {
            match parent_slot(s, i) {
                Some(j0) => {
                    assert(0 <= j0 < i && s[j0].entity == match s[i].parent {
                        Some(p) => p,
                        None => s[i].entity,
                    });
                    lemma_chain_root_before(s, j0, j, s[j].entity);
                    lemma_spread_characterization(s, seed, j0);
                    assert(spread(s, seed, n).contains(s[j0].entity));
                    lemma_spread_stage(s, seed, j0, n);
                    lemma_spread_monotone(s, seed, j0 + 1, i);
                    assert(spread(s, seed, i).contains(s[j0].entity));
                    assert(spread(s, seed, i + 1).contains(s[i].entity));
                    lemma_spread_monotone(s, seed, i + 1, n);
                },
                None => {
                    assert(false);
                },
            }
        }
    }
}

/// A full doom scan is downward closed: a doomed record's children are
/// doomed with it.
pub proof fn lemma_spread_downward_closed<B, K>(
    s: Seq<EntityRecord<B, K>>,
    seed: spec_fn(int) -> bool,
    i: int,
    p: Entity,
)
    requires
        handles_unique(s),
        parents_precede(s),
        0 <= i < s.len(),
        s[i].parent == Some(p),
        spread(s, seed, s.len() as int).contains(p),
    ensures
        spread(s, seed, s.len() as int).contains(s[i].entity),
{
    let n = s.len() as int;
    let j = choose|j: int| 0 <= j < i && s[j].entity == p;
    assert(0 <= j < i && s[j].entity == p);
    lemma_spread_stage(s, seed, j, n);
    lemma_spread_monotone(s, seed, j + 1, i);
    assert(spread(s, seed, i).contains(p));
    assert(spread(s, seed, i + 1).contains(s[i].entity));
    lemma_spread_monotone(s, seed, i + 1, n);
}

/// A scan keeps every record whose entity is not doomed, ticked as flagged.
pub proof fn lemma_sweep_keeps<B, K>(
    s: Seq<EntityRecord<B, K>>,
    ticks: Seq<bool>,
    delta: u64,
    doom: Set<Entity>,
    n: int,
    i: int,
)
    requires
        0 <= i < n <= s.len(),
        !doom.contains(s[i].entity),
    ensures
        sweep_result(s, ticks, delta, doom, n).contains(tick_rec(s[i], ticks[i], delta)),
    decreases n,
{
    broadcast use vstd::seq_lib::lemma_seq_contains_after_push;

    if i == n - 1 {
        assert(sweep_result(s, ticks, delta, doom, n) == sweep_result(
            s,
            ticks,
            delta,
            doom,
            n - 1,
        ).push(tick_rec(s[n - 1], ticks[n - 1], delta)));
    } else {
        lemma_sweep_keeps(s, ticks, delta, doom, n - 1, i);
    }
}

/// A scan keeps no record whose entity is doomed.
pub proof fn lemma_sweep_drops<B, K>(
    s: Seq<EntityRecord<B, K>>,
    ticks: Seq<bool>,
    delta: u64,
    doom: Set<Entity>,
    n: int,
    e: Entity,
)
    requires
        doom.contains(e),
    ensures
        !has_entity(sweep_result(s, ticks, delta, doom, n), e),
    decreases n,
{
    if n > 0 {
        lemma_sweep_drops(s, ticks, delta, doom, n - 1, e);
        let t = sweep_result(s, ticks, delta, doom, n);
        let prefix = sweep_result(s, ticks, delta, doom, n - 1);
        if !doom.contains(s[n - 1].entity) {
            assert forall|a: int| 0 <= a < t.len() implies #[trigger] t[a].entity != e by {
                if a < prefix.len() {
                    assert(!has_entity(prefix, e));
                    assert(prefix[a].entity != e);
                } else {
                    assert(t[a] == tick_rec(s[n - 1], ticks[n - 1], delta));
                }
            }
        } else {
            assert forall|a: int| 0 <= a < t.len() implies #[trigger] t[a].entity != e by {
                assert(prefix[a].entity != e);
            }
        }
    }
}

/// Removal keeps exactly the records whose entity is not doomed.
pub proof fn lemma_removed_entity_iff<B, K>(
    s: Seq<EntityRecord<B, K>>,
    doom: Set<Entity>,
    e: Entity,
)
    ensures
        has_entity(remove_entities(s, doom), e) == (has_entity(s, e) && !doom.contains(e)),
{
    let pred = |r: EntityRecord<B, K>| !doom.contains(r.entity);
    let t = remove_entities(s, doom);
    lemma_filter_in_source(s, pred);
    if has_entity(t, e) {
        let a = choose|a: int| 0 <= a < t.len() && t[a].entity == e;
        s.lemma_filter_pred(pred, a);
        assert(s.contains(t[a]));
        let i = choose|i: int| 0 <= i < s.len() && s[i] == t[a];
        assert(s[i].entity == e);
    }
    if has_entity(s, e) && !doom.contains(e) {
        let i = choose|i: int| 0 <= i < s.len() && s[i].entity == e;
        lemma_removed_keeps_entity(s, doom, i);
    }
}

/// Removing a downward-closed doom set preserves well-formedness.
pub proof fn lemma_remove_preserves_wf<B, K: PartialEq>(
    s: Seq<EntityRecord<B, K>>,
    next: u64,
    doom: Set<Entity>,
)
    requires
        graph_wf(s, next),
        forall|i: int|
            0 <= i < s.len() && (#[trigger] s[i].parent matches Some(p) && doom.contains(p))
                ==> doom.contains(s[i].entity),
    ensures
        graph_wf(remove_entities(s, doom), next),
    decreases s.len(),
{
    let pred = |r: EntityRecord<B, K>| !doom.contains(r.entity);
    reveal(Seq::filter);
    if s.len() == 0 {
        assert(remove_entities(s, doom) =~= s);
    } else {
        let u = s.drop_last();
        let x = s.last();
        assert forall|i: int, j: int|
            0 <= i < u.len() && 0 <= j < u.len() && i != j implies #[trigger] u[i].entity
            != #[trigger] u[j].entity by {
            assert(s[i].entity != s[j].entity);
        }
        assert forall|i: int, j: int|
            0 <= i < u.len() && 0 <= j < u.len() && i != j implies !same_key(
            #[trigger] u[i].identifier.0,
            #[trigger] u[j].identifier.0,
        ) by {
            assert(!same_key(s[i].identifier.0, s[j].identifier.0));
        }
        assert forall|i: int| 0 <= i < u.len() implies (#[trigger] u[i].parent matches Some(p)
            ==> exists|j: int| 0 <= j < i && u[j].entity == p) by {
            match u[i].parent {
                Some(p) => {
                    assert(s[i].parent == Some(p));
                    let j = choose|j: int| 0 <= j < i && s[j].entity == p;
                    assert(u[j].entity == p);
                },
                None => {},
            }
        }
        assert forall|i: int| 0 <= i < u.len() implies #[trigger] u[i].entity.0 < next by {
            assert(s[i].entity.0 < next);
        }
        assert forall|i: int|
            0 <= i < u.len() && (#[trigger] u[i].parent matches Some(p) && doom.contains(p))
                implies doom.contains(u[i].entity) by {
            assert(s[i] == u[i]);
        }
        lemma_remove_preserves_wf(u, next, doom);
        let t = u.filter(pred);
        assert(remove_entities(u, doom) == t);
        lemma_filter_in_source(u, pred);
        if pred(x) {
            let t2 = s.filter(pred);
            assert(t2 == t.push(x));
            assert forall|i: int, j: int|
                0 <= i < t2.len() && 0 <= j < t2.len() && i != j implies #[trigger] t2[i].entity
                != #[trigger] t2[j].entity by {
                if i < t.len() && j < t.len() {
                    assert(t[i].entity != t[j].entity);
                } else if i == t.len() {
                    assert(u.contains(t[j]));
                    let j0 = choose|j0: int| 0 <= j0 < u.len() && u[j0] == t2[j];
                    assert(s[j0].entity != s[s.len() - 1].entity);
                } else {
                    assert(u.contains(t[i]));
                    let i0 = choose|i0: int| 0 <= i0 < u.len() && u[i0] == t2[i];
                    assert(s[i0].entity != s[s.len() - 1].entity);
                }
            }
            assert forall|i: int, j: int|
                0 <= i < t2.len() && 0 <= j < t2.len() && i != j implies !same_key(
                #[trigger] t2[i].identifier.0,
                #[trigger] t2[j].identifier.0,
            ) by {
                if i < t.len() && j < t.len() {
                    assert(!same_key(t[i].identifier.0, t[j].identifier.0));
                } else if i == t.len() {
                    assert(u.contains(t[j]));
                    let j0 = choose|j0: int| 0 <= j0 < u.len() && u[j0] == t2[j];
                    assert(!same_key(s[s.len() - 1].identifier.0, s[j0].identifier.0));
                } else {
                    assert(u.contains(t[i]));
                    let i0 = choose|i0: int| 0 <= i0 < u.len() && u[i0] == t2[i];
                    assert(!same_key(s[i0].identifier.0, s[s.len() - 1].identifier.0));
                }
            }
            assert forall|i: int| 0 <= i < t2.len() implies #[trigger] t2[i].entity.0 < next by {
                if i < t.len() {
                    assert(t[i].entity.0 < next);
                } else {
                    assert(s[s.len() - 1].entity.0 < next);
                }
            }
            assert forall|i: int| 0 <= i < t2.len() implies (#[trigger] t2[i].parent matches Some(
                p,
            ) ==> exists|j: int| 0 <= j < i && t2[j].entity == p) by {
                if i < t.len() {
                    match t[i].parent {
                        Some(p) => {
                            assert(t[i].parent matches Some(q) ==> exists|j: int|
                                0 <= j < i && t[j].entity == q);
                            let j = choose|j: int| 0 <= j < i && t[j].entity == p;
                            assert(t2[j].entity == p);
                        },
                        None => {},
                    }
                } else {
                    match x.parent {
                        Some(p) => {
                            let j = choose|j: int| 0 <= j < s.len() - 1 && s[j].entity == p;
                            assert(u[j].entity == p);
                            if doom.contains(p) {
                                assert(doom.contains(s[(s.len() - 1) as int].entity));
                                assert(false);
                            }
                            assert(pred(u[j]));
                            u.lemma_filter_contains(pred, j);
                            let a = choose|a: int| 0 <= a < t.len() && t[a] == u[j];
                            assert(t2[a].entity == p);
                        },
                        None => {},
                    }
                }
            }
        } else {
            assert(s.filter(pred) == t);
        }
    }
}

/// Doom scans driven by seed predicates that agree on the scanned positions
/// agree.
pub proof fn lemma_spread_congruence<B, K>(
    s: Seq<EntityRecord<B, K>>,
    seed_a: spec_fn(int) -> bool,
    seed_b: spec_fn(int) -> bool,
    n: int,
)
    requires
        forall|i: int| 0 <= i < n ==> #[trigger] seed_a(i) == #[trigger] seed_b(i),
    ensures
        spread(s, seed_a, n) == spread(s, seed_b, n),
    decreases n,
{
    if n > 0 {
        lemma_spread_congruence(s, seed_a, seed_b, n - 1);
    }
}

/// A record after one scan step: the clock advanced by `delta` when `t`
/// holds, everything else unchanged.
pub open spec fn tick_rec<B, K>(r: EntityRecord<B, K>, t: bool, delta: u64) -> EntityRecord<
    B,
    K,
> {
    if t {
        EntityRecord {
            entity: r.entity,
            identifier: r.identifier,
            parent: r.parent,
            clock: BiologicalClock { elapsed: (r.clock.elapsed + delta) as u64 },
            bundle: r.bundle,
        }
    } else {
        r
    }
}

/// The seed predicate given by a per-position mark sequence.
pub open spec fn mark_seed(marks: Seq<bool>) -> spec_fn(int) -> bool {
    |i: int| marks[i]
}

/// The entities doomed by a full scan seeded with the given marks: the
/// marked records and, transitively, their descendants.
pub open spec fn sweep_doom<B, K>(s: Seq<EntityRecord<B, K>>, marks: Seq<bool>) -> Set<Entity> {
    spread(s, mark_seed(marks), s.len() as int)
}

/// The records surviving a scan of the first `n` positions: doomed records
/// are dropped, the rest are kept in order, ticked where their flag holds.
pub open spec fn sweep_result<B, K>(
    s: Seq<EntityRecord<B, K>>,
    ticks: Seq<bool>,
    delta: u64,
    doom: Set<Entity>,
    n: int,
) -> Seq<EntityRecord<B, K>>
    decreases n,
{
    if n <= 0 {
        Seq::empty()
    } else {
        let prefix = sweep_result(s, ticks, delta, doom, n - 1);
        if doom.contains(s[n - 1].entity) {
            prefix
        } else {
            prefix.push(tick_rec(s[n - 1], ticks[n - 1], delta))
        }
    }
}

/// The outcome of one full scan: survivors of the doom set seeded by
/// `marks`, ticked where `ticks` holds.
pub open spec fn sweep_spec<B, K>(
    s: Seq<EntityRecord<B, K>>,
    marks: Seq<bool>,
    ticks: Seq<bool>,
    delta: u64,
) -> Seq<EntityRecord<B, K>> {
    sweep_result(s, ticks, delta, sweep_doom(s, marks), s.len() as int)
}

/// The records whose entities are not in the given set, in order.
pub open spec fn remove_entities<B, K>(s: Seq<EntityRecord<B, K>>, doom: Set<Entity>) -> Seq<
    EntityRecord<B, K>,
> {
    s.filter(|r: EntityRecord<B, K>| !doom.contains(r.entity))
}

/// A scan that ticks nothing is plain removal of the doomed records.
pub proof fn lemma_sweep_no_ticks<B, K>(
    s: Seq<EntityRecord<B, K>>,
    ticks: Seq<bool>,
    delta: u64,
    doom: Set<Entity>,
    n: int,
)
    requires
        0 <= n <= s.len(),
        forall|i: int| 0 <= i < n ==> !(#[trigger] ticks[i]),
    ensures
        sweep_result(s, ticks, delta, doom, n) == s.subrange(0, n).filter(
            |r: EntityRecord<B, K>| !doom.contains(r.entity),
        ),
    decreases n,
{
    let pred = |r: EntityRecord<B, K>| !doom.contains(r.entity);
    if n <= 0 {
        assert(s.subrange(0, 0) =~= Seq::<EntityRecord<B, K>>::empty());
        crate::structs::lemma_filter_empty(pred);
    } else {
        lemma_sweep_no_ticks(s, ticks, delta, doom, n - 1);
        assert(s.subrange(0, n) =~= s.subrange(0, n - 1).push(s[n - 1]));
        crate::structs::lemma_filter_push(s.subrange(0, n - 1), s[n - 1], pred);
        assert(tick_rec(s[n - 1], ticks[n - 1], delta) == s[n - 1]);
    }
}

/// Every element of a filtered sequence is an element of the source.
pub proof fn lemma_filter_in_source<A>(s: Seq<A>, pred: spec_fn(A) -> bool)
    ensures
        forall|a: int| 0 <= a < s.filter(pred).len() ==> s.contains(#[trigger] s.filter(pred)[a]),
    decreases s.len(),
{
    reveal(Seq::filter);
    if s.len() > 0 {
        lemma_filter_in_source(s.drop_last(), pred);
        let t = s.filter(pred);
        let u = s.drop_last().filter(pred);
        assert forall|a: int| 0 <= a < t.len() implies s.contains(#[trigger] t[a]) by {
            if a < u.len() {
                assert(s.drop_last().contains(u[a]));
                let i = choose|i: int| 0 <= i < s.drop_last().len() && s.drop_last()[i] == u[a];
                assert(s[i] == t[a]);
            } else {
                assert(t[a] == s.last());
                assert(s[s.len() - 1] == t[a]);
            }
        }
    }
}

/// A live record's handle belongs to its own subtree.
pub proof fn lemma_subtree_contains_self<B, K>(s: Seq<EntityRecord<B, K>>, i: int)
    requires
        0 <= i < s.len(),
    ensures
        subtree_of(s, s[i].entity).contains(s[i].entity),
{
    let root = s[i].entity;
    let seed = |j: int| s[j].entity == root;
    assert(spread(s, seed, i + 1).contains(root));
    lemma_spread_monotone(s, seed, i + 1, s.len() as int);
}

/// Under unique identifiers and a lawful key, at most one record matches a
/// key.
pub proof fn lemma_key_index_unique<B, K: PartialEq + Clone>(
    s: Seq<EntityRecord<B, K>>,
    key: K,
    i: int,
    j: int,
)
    requires
        lawful_key::<K>(),
        keys_unique(s),
        0 <= i < s.len(),
        0 <= j < s.len(),
        rec_matches(s[i], key),
        rec_matches(s[j], key),
    ensures
        i == j,
{
    if i != j {
        assert(same_key(s[j].identifier.0, key) ==> same_key(key, s[j].identifier.0));
        assert(same_key(s[i].identifier.0, s[j].identifier.0));
        assert(false);
    }
}

/// Under unique handles, at most one record has a given handle.
pub proof fn lemma_entity_index_unique<B, K>(
    s: Seq<EntityRecord<B, K>>,
    e: Entity,
    i: int,
    j: int,
)
    requires
        handles_unique(s),
        0 <= i < s.len(),
        0 <= j < s.len(),
        s[i].entity == e,
        s[j].entity == e,
    ensures
        i == j,
{
}

/// After removing a doom set that covers every record matching a key, no
/// surviving record matches that key.
pub proof fn lemma_removed_key_fresh<B, K: PartialEq + Clone>(
    s: Seq<EntityRecord<B, K>>,
    doom: Set<Entity>,
    key: K,
)
    requires
        forall|i: int|
            0 <= i < s.len() && rec_matches(#[trigger] s[i], key) ==> doom.contains(s[i].entity),
    ensures
        forall|a: int|
            0 <= a < remove_entities(s, doom).len() ==> !rec_matches(
                #[trigger] remove_entities(s, doom)[a],
                key,
            ),
{
    let pred = |r: EntityRecord<B, K>| !doom.contains(r.entity);
    let t = remove_entities(s, doom);
    lemma_filter_in_source(s, pred);
    assert forall|a: int| 0 <= a < t.len() implies !rec_matches(#[trigger] t[a], key) by {
        assert(s.contains(t[a]));
        let i = choose|i: int| 0 <= i < s.len() && s[i] == t[a];
        s.lemma_filter_pred(pred, a);
        assert(pred(t[a]));
        if rec_matches(t[a], key) {
            assert(doom.contains(s[i].entity));
            assert(false);
        }
    }
}

/// A record whose handle is not doomed survives the removal.
pub proof fn lemma_removed_keeps_entity<B, K>(
    s: Seq<EntityRecord<B, K>>,
    doom: Set<Entity>,
    i: int,
)
    requires
        0 <= i < s.len(),
        !doom.contains(s[i].entity),
    ensures
        has_entity(remove_entities(s, doom), s[i].entity),
{
    let pred = |r: EntityRecord<B, K>| !doom.contains(r.entity);
    s.lemma_filter_contains(pred, i);
    let t = remove_entities(s, doom);
    let a = choose|a: int| 0 <= a < t.len() && t[a] == s[i];
    assert(t[a].entity == s[i].entity);
}

/// Whether the vector holds the given handle.
fn contains_entity(v: &Vec<Entity>, e: Entity) -> (r: bool)
    ensures
        r == v@.contains(e),
{
    let n = v.len();
    let mut i: usize = 0;
    while i < n
        invariant
            0 <= i <= n,
            n == v@.len(),
            forall|j: int| 0 <= j < i ==> v@[j] != e,
        decreases n - i,
    {
        if v[i].0 == e.0 {
            proof {
                assert(v@[i as int] == e);
            }
            return true;
        }
        i = i + 1;
    }
    false
}

impl<B, K: PartialEq + Clone> EntityGraph<B, K> {
    /// The records, in spawn order, as seen by contracts.
    pub closed spec fn recs(&self) -> Seq<EntityRecord<B, K>> {
        self.records@
    }

    /// The next unused handle, as seen by contracts.
    pub closed spec fn next_spec(&self) -> u64 {
        self.next_handle
    }

    /// Well-formedness of the graph; every public operation preserves it.
    pub open spec fn wf(&self) -> bool {
        graph_wf(self.recs(), self.next_spec())
    }

    /// An empty graph.
    pub fn new() -> (g: Self)
        ensures
            g.recs() == Seq::<EntityRecord<B, K>>::empty(),
            g.next_spec() == 0,
            g.wf(),
    {
        let g = EntityGraph { records: Vec::new(), next_handle: 0 };
        proof {
            assert(g.recs() =~= Seq::<EntityRecord<B, K>>::empty());
        }
        g
    }

    /// How many entities are live.
    pub fn len(&self) -> (n: usize)
        ensures
            n == self.recs().len(),
    {
        self.records.len()
    }

    /// The next unused handle; it grows by one per spawn.
    pub fn next_handle(&self) -> (n: u64)
        ensures
            n == self.next_spec(),
    {
        self.next_handle
    }

    /// A read-only view of the live records, in spawn order.
    pub fn records(&self) -> (r: &Vec<EntityRecord<B, K>>)
        ensures
            r@ == self.recs(),
    {
        &self.records
    }

    /// Spawns a fresh entity carrying the identifier, parent edge, a zeroed
    /// clock and the bundle, and returns its handle. The identifier must not
    /// be in use and the parent, if given, must be live.
    pub fn spawn(&mut self, identifier: Identifier<K>, parent: Option<Entity>, bundle: B) -> (e:
        Entity)
        requires
            lawful_key::<K>(),
            old(self).wf(),
            old(self).next_spec() < u64::MAX,
            forall|i: int|
                0 <= i < old(self).recs().len() ==> !rec_matches(
                    #[trigger] old(self).recs()[i],
                    identifier.0,
                ),
            parent matches Some(p) ==> has_entity(old(self).recs(), p),
        ensures
            e == Entity(old(self).next_spec()),
            final(self).recs() == old(self).recs().push(
                EntityRecord {
                    entity: Entity(old(self).next_spec()),
                    identifier,
                    parent,
                    clock: BiologicalClock { elapsed: 0 },
                    bundle,
                },
            ),
            final(self).next_spec() == old(self).next_spec() + 1,
            final(self).wf(),
    {
        let e = Entity(self.next_handle);
        let record = EntityRecord {
            entity: e,
            identifier,
            parent,
            clock: BiologicalClock::new(),
            bundle,
        };
        self.records.push(record);
        self.next_handle = self.next_handle + 1;
        proof {
            let s = old(self).recs();
            let t = self.recs();
            assert(t == s.push(record));
            assert forall|i: int, j: int|
                0 <= i < t.len() && 0 <= j < t.len() && i != j implies #[trigger] t[i].entity
                != #[trigger] t[j].entity by {
                if i < s.len() && j < s.len() {
                    assert(s[i].entity != s[j].entity);
                } else if i == s.len() {
                    assert(t[j].entity.0 < old(self).next_spec());
                } else {
                    assert(t[i].entity.0 < old(self).next_spec());
                }
            }
            assert forall|i: int, j: int|
                0 <= i < t.len() && 0 <= j < t.len() && i != j implies !same_key(
                #[trigger] t[i].identifier.0,
                #[trigger] t[j].identifier.0,
            ) by {
                if i < s.len() && j < s.len() {
                    assert(!same_key(s[i].identifier.0, s[j].identifier.0));
                } else if i == s.len() {
                    assert(!same_key(s[j].identifier.0, identifier.0));
                } else {
                    assert(!same_key(s[i].identifier.0, identifier.0));
                }
            }
            assert forall|i: int| 0 <= i < t.len() implies (#[trigger] t[i].parent matches Some(p)
                ==> exists|j: int| 0 <= j < i && t[j].entity == p) by {
                if i < s.len() {
                    match s[i].parent {
                        Some(p) => {
                            let j = choose|j: int| 0 <= j < i && s[j].entity == p;
                            assert(t[j].entity == p);
                        },
                        None => {},
                    }
                } else {
                    match parent {
                        Some(p) => {
                            let j = choose|j: int| 0 <= j < s.len() && s[j].entity == p;
                            assert(t[j].entity == p);
                        },
                        None => {},
                    }
                }
            }
        }
        e
    }

    /// One forward pass over the records: dooms every marked record and,
    /// transitively, the records under it; keeps the rest in order, ticking
    /// the clock of each survivor whose flag holds.
    #[verifier::loop_isolation(false)]
    pub(crate) fn remove_marked(&mut self, marks: &Vec<bool>, ticks: &Vec<bool>, delta: u64)
        requires
            old(self).wf(),
            marks@.len() == old(self).recs().len(),
            ticks@.len() == old(self).recs().len(),
            forall|i: int|
                0 <= i < old(self).recs().len() && #[trigger] ticks@[i] ==> old(
                    self,
                ).recs()[i].clock.elapsed + delta <= u64::MAX,
        ensures
            final(self).wf(),
            final(self).next_spec() == old(self).next_spec(),
            final(self).recs() == sweep_spec(old(self).recs(), marks@, ticks@, delta),
    {
        broadcast use vstd::seq_lib::lemma_seq_contains_after_push;

        let ghost orig = self.records@;
        let ghost seedfn = mark_seed(marks@);
        let ghost doom = sweep_doom(orig, marks@);
        let mut doomed: Vec<Entity> = Vec::new();
        let mut kept: Vec<EntityRecord<B, K>> = Vec::new();
        let total = self.records.len();
        let mut at: usize = 0;
        while self.records.len() > 0
            invariant
                total == orig.len(),
                0 <= at <= orig.len(),
                self.next_spec() == old(self).next_spec(),
                self.records@ == orig.skip(at as int),
                forall|e: Entity|
                    #[trigger] doomed@.contains(e) == spread(orig, seedfn, at as int).contains(e),
                kept@ == sweep_result(orig, ticks@, delta, doom, at as int),
                forall|i: int|
                    0 <= i < at && !doom.contains(#[trigger] orig[i].entity) ==> has_entity(
                        kept@,
                        orig[i].entity,
                    ),
                forall|a: int|
                    0 <= a < kept@.len() ==> exists|i: int|
                        0 <= i < at && #[trigger] kept@[a] == tick_rec(orig[i], ticks@[i], delta),
                handles_unique(kept@),
                handles_bounded(kept@, old(self).next_spec()),
                parents_precede(kept@),
                keys_unique(kept@),
            decreases orig.len() - at,
        {
            proof {
                assert(orig.skip(at as int).len() == orig.len() - at);
                assert(at < orig.len());
            }
            let mut r = self.records.remove(0);
            proof {
                assert(orig.skip(at as int)[0] == orig[at as int]);
                assert(orig.skip(at as int).remove(0) =~= orig.skip(at as int + 1));
            }
            let seeded = marks[at];
            let parent_doomed = match r.parent {
                Some(p) => contains_entity(&doomed, p),
                None => false,
            };
            proof {
                assert(seedfn(at as int) == marks@[at as int]);
            }
            if seeded || parent_doomed {
                proof {
                    assert(spread(orig, seedfn, at as int + 1) == spread(
                        orig,
                        seedfn,
                        at as int,
                    ).insert(r.entity));
                    lemma_spread_monotone(orig, seedfn, at as int + 1, orig.len() as int);
                    assert(doom.contains(r.entity));
                }
                doomed.push(r.entity);
            } else {
                proof {
                    assert(spread(orig, seedfn, at as int + 1) == spread(orig, seedfn, at as int));
                    if spread(orig, seedfn, at as int).contains(r.entity) {
                        lemma_spread_elements(orig, seedfn, at as int, r.entity);
                        assert(false);
                    }
                    lemma_spread_stage(orig, seedfn, at as int, orig.len() as int);
                    assert(!doom.contains(r.entity));
                }
                let ghost before = kept@;
                let ghost ticked = tick_rec(orig[at as int], ticks@[at as int], delta);
                if ticks[at] {
                    r.clock.tick(delta);
                }
                proof {
                    assert(r == ticked);
                }
                kept.push(r);
                proof {
                    let now = kept@;
                    assert(now == before.push(ticked));
                    assert forall|i: int|
                        0 <= i < at as int + 1 && !doom.contains(
                            #[trigger] orig[i].entity,
                        ) implies has_entity(now, orig[i].entity) by {
                        if i < at as int {
                            assert(has_entity(before, orig[i].entity));
                            let a = choose|a: int|
                                0 <= a < before.len() && before[a].entity == orig[i].entity;
                            assert(now[a].entity == orig[i].entity);
                        } else {
                            assert(now[now.len() - 1].entity == orig[i].entity);
                        }
                    }
                    assert forall|i: int, j: int|
                        0 <= i < now.len() && 0 <= j < now.len() && i != j implies #[trigger] now[i].entity != #[trigger] now[j].entity by {
                        if i < before.len() && j < before.len() {
                            assert(before[i].entity != before[j].entity);
                        } else if i == before.len() {
                            let i0 = choose|i0: int|
                                0 <= i0 < at as int && before[j] == tick_rec(
                                    orig[i0],
                                    ticks@[i0],
                                    delta,
                                );
                            assert(orig[i0].entity != orig[at as int].entity);
                        } else {
                            let j0 = choose|j0: int|
                                0 <= j0 < at as int && before[i] == tick_rec(
                                    orig[j0],
                                    ticks@[j0],
                                    delta,
                                );
                            assert(orig[j0].entity != orig[at as int].entity);
                        }
                    }
                    assert forall|i: int, j: int|
                        0 <= i < now.len() && 0 <= j < now.len() && i != j implies !same_key(
                        #[trigger] now[i].identifier.0,
                        #[trigger] now[j].identifier.0,
                    ) by {
                        if i < before.len() && j < before.len() {
                            assert(!same_key(before[i].identifier.0, before[j].identifier.0));
                        } else if i == before.len() {
                            let i0 = choose|i0: int|
                                0 <= i0 < at as int && before[j] == tick_rec(
                                    orig[i0],
                                    ticks@[i0],
                                    delta,
                                );
                            assert(!same_key(orig[at as int].identifier.0, orig[i0].identifier.0));
                        } else {
                            let j0 = choose|j0: int|
                                0 <= j0 < at as int && before[i] == tick_rec(
                                    orig[j0],
                                    ticks@[j0],
                                    delta,
                                );
                            assert(!same_key(orig[j0].identifier.0, orig[at as int].identifier.0));
                        }
                    }
                    assert forall|i: int| 0 <= i < now.len() implies (#[trigger] now[i].parent
                        matches Some(p) ==> exists|j: int| 0 <= j < i && now[j].entity == p) by {
                        if i < before.len() {
                            match before[i].parent {
                                Some(p) => {
                                    assert(exists|j: int| 0 <= j < i && before[j].entity == p);
                                    let j = choose|j: int| 0 <= j < i && before[j].entity == p;
                                    assert(now[j].entity == p);
                                },
                                None => {},
                            }
                        } else {
                            match orig[at as int].parent {
                                Some(p) => {
                                    let j0 = choose|j0: int|
                                        0 <= j0 < at as int && orig[j0].entity == p;
                                    if doom.contains(p) {
                                        lemma_spread_stage(orig, seedfn, j0, orig.len() as int);
                                        lemma_spread_monotone(orig, seedfn, j0 + 1, at as int);
                                        assert(spread(orig, seedfn, at as int).contains(p));
                                        assert(false);
                                    }
                                    assert(has_entity(before, p));
                                    let a = choose|a: int|
                                        0 <= a < before.len() && before[a].entity == p;
                                    assert(now[a].entity == p);
                                },
                                None => {},
                            }
                        }
                    }
                }
            }
            at = at + 1;
        }
        proof {
            assert(orig.skip(orig.len() as int) =~= Seq::<EntityRecord<B, K>>::empty());
            assert(at == orig.len());
        }
        self.records = kept;
        proof {
            assert(self.next_spec() == old(self).next_spec());
            assert(handles_unique(self.recs()));
            assert(handles_bounded(self.recs(), self.next_spec()));
            assert(parents_precede(self.recs()));
            assert(keys_unique(self.recs()));
        }
    }

    /// The position of the live record with the given handle, if any.
    pub fn index_of_entity(&self, e: Entity) -> (r: Option<usize>)
        ensures
            r matches Some(j) ==> j < self.recs().len() && self.recs()[j as int].entity == e,
            r is None ==> !has_entity(self.recs(), e),
    {
        let n = self.records.len();
        let mut i: usize = 0;
        while i < n
            invariant
                0 <= i <= n,
                n == self.recs().len(),
                forall|j: int| 0 <= j < i ==> self.recs()[j].entity != e,
            decreases n - i,
        {
            if self.records[i].entity.0 == e.0 {
                proof {
                    assert(self.recs()[i as int].entity == e);
                }
                return Some(i);
            }
            i = i + 1;
        }
        None
    }

    /// Whether `target` lies in the subtree rooted at `root`: one forward
    /// pass propagating doom from `root` down the parent edges.
    #[verifier::loop_isolation(false)]
    pub fn in_subtree(&self, root: Entity, target: Entity) -> (r: bool)
        ensures
            r == subtree_of(self.recs(), root).contains(target),
    {
        broadcast use vstd::seq_lib::lemma_seq_contains_after_push;

        let ghost s = self.recs();
        let ghost seed = |i: int| s[i].entity == root;
        let mut doomed: Vec<Entity> = Vec::new();
        let n = self.records.len();
        let mut i: usize = 0;
        while i < n
            invariant
                0 <= i <= n,
                n == s.len(),
                forall|e: Entity| #[trigger] doomed@.contains(e) == spread(s, seed, i as int).contains(e),
            decreases n - i,
        {
            let rooted = self.records[i].entity.0 == root.0;
            let parent_doomed = match self.records[i].parent {
                Some(p) => contains_entity(&doomed, p),
                None => false,
            };
            proof {
                assert(rooted == seed(i as int));
            }
            if rooted || parent_doomed {
                proof {
                    assert(spread(s, seed, i as int + 1) == spread(s, seed, i as int).insert(
                        s[i as int].entity,
                    ));
                }
                doomed.push(self.records[i].entity);
            } else {
                proof {
                    assert(spread(s, seed, i as int + 1) == spread(s, seed, i as int));
                }
            }
            i = i + 1;
        }
        contains_entity(&doomed, target)
    }

    /// Despawns the entity and its entire subtree. Despawning a handle that
    /// is not live removes nothing.
    pub fn despawn_recursive(&mut self, entity: Entity)
        requires
            old(self).wf(),
        ensures
            final(self).wf(),
            final(self).next_spec() == old(self).next_spec(),
            final(self).recs() == remove_entities(
                old(self).recs(),
                subtree_of(old(self).recs(), entity),
            ),
    {
        let ghost orig = self.records@;
        let n = self.records.len();
        let mut marks: Vec<bool> = Vec::new();
        let mut i: usize = 0;
        while i < n
            invariant
                0 <= i <= n,
                n == self.recs().len(),
                self.recs() == orig,
                marks@.len() == i,
                forall|j: int| 0 <= j < i ==> #[trigger] marks@[j] == (orig[j].entity == entity),
            decreases n - i,
        {
            let m = self.records[i].entity.0 == entity.0;
            proof {
                assert(m == (orig[i as int].entity == entity));
            }
            marks.push(m);
            i = i + 1;
        }
        let ticks: Vec<bool> = vec![false; n];
        self.remove_marked(&marks, &ticks, 0);
        proof {
            lemma_spread_congruence(
                orig,
                mark_seed(marks@),
                |j: int| orig[j].entity == entity,
                orig.len() as int,
            );
            lemma_sweep_no_ticks(
                orig,
                ticks@,
                0,
                subtree_of(orig, entity),
                orig.len() as int,
            );
            assert(orig.subrange(0, orig.len() as int) =~= orig);
        }
    }

    /// Despawns every descendant of the entity, transitively, while keeping
    /// the entity itself.
    pub fn despawn_descendants(&mut self, entity: Entity)
        requires
            old(self).wf(),
        ensures
            final(self).wf(),
            final(self).next_spec() == old(self).next_spec(),
            final(self).recs() == remove_entities(
                old(self).recs(),
                descendants_of(old(self).recs(), entity),
            ),
    {
        let ghost orig = self.records@;
        let n = self.records.len();
        let mut marks: Vec<bool> = Vec::new();
        let mut i: usize = 0;
        while i < n
            invariant
                0 <= i <= n,
                n == self.recs().len(),
                self.recs() == orig,
                marks@.len() == i,
                forall|j: int|
                    0 <= j < i ==> #[trigger] marks@[j] == (orig[j].parent == Some(entity)),
            decreases n - i,
        {
            let m = match &self.records[i].parent {
                Some(p) => p.0 == entity.0,
                None => false,
            };
            proof {
                assert(m == (orig[i as int].parent == Some(entity)));
            }
            marks.push(m);
            i = i + 1;
        }
        let ticks: Vec<bool> = vec![false; n];
        self.remove_marked(&marks, &ticks, 0);
        proof {
            lemma_spread_congruence(
                orig,
                mark_seed(marks@),
                |j: int| orig[j].parent == Some(entity),
                orig.len() as int,
            );
            lemma_sweep_no_ticks(
                orig,
                ticks@,
                0,
                descendants_of(orig, entity),
                orig.len() as int,
            );
            assert(orig.subrange(0, orig.len() as int) =~= orig);
        }
    }
}

} // verus!
