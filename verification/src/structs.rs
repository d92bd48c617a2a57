//! The data model: actions, identifiers, age clocks, lifetime capabilities,
//! command events and the lineage ledger.

use vstd::prelude::*;

use crate::keys::{clone_key, keys_equal, lawful_key, same_key};
use vstd::std_specs::cmp::PartialEqSpec;

verus! {

/// The intent of a command event.
///
/// `Clear` means "remove this entity's descendants but keep the entity".
#[derive(Clone, Copy, Debug, PartialEq, Eq, Structural)]
pub enum Action {
    Create,
    CreateOrModify,
    Update,
    Delete,
    Clear,
}

/// Unique identifier for the entities: wraps an application-chosen key used
/// to find an entity independently of its handle.
#[derive(Clone, Debug, PartialEq)]
pub struct Identifier<K>(pub K);

/// Per-entity age accumulator: the elapsed time units since the entity was
/// created or last replaced. Advanced only by the expiry engine and reset
/// only by the CRUD engine.
#[derive(Clone, Copy, Debug, PartialEq, Eq, Structural)]
pub struct BiologicalClock {
    pub elapsed: u64,
}

impl BiologicalClock {
    /// A fresh clock, starting at zero.
    pub fn new() -> (c: Self)
        ensures
            c.elapsed == 0,
    {
        BiologicalClock { elapsed: 0 }
    }

    /// Advances the clock by one tick's elapsed duration.
    pub fn tick(&mut self, delta: u64)
        requires
            old(self).elapsed + delta <= u64::MAX,
        ensures
            final(self).elapsed == old(self).elapsed + delta,
    {
        self.elapsed = self.elapsed + delta;
    }
}

/// The lifetime capability: a component bundle type may declare a maximum
/// lifetime, in the same time units as [`BiologicalClock`]. The expiry
/// engine despawns an entity (with its subtree) once the applicable clock
/// reaches the declared lifetime.
///
/// `None` means the bundle declares no lifetime of its own; such entities
/// are never expired by their own clock (though they may still expire under
/// a parent's declared lifetime).
pub trait BiologicalTrait {
    /// The declared maximum lifetime, as seen by contracts.
    spec fn lifetime_spec(&self) -> Option<u64>;

    /// The declared maximum lifetime. Fixed: it does not change at runtime.
    fn get_lifetime(&self) -> (r: Option<u64>)
        ensures
            r == self.lifetime_spec(),
    ;
}

/// A ready-made lifetime-carrying component: a bundle that is nothing but an
/// optional declared lifetime.
#[derive(Clone, Copy, Debug, PartialEq, Eq, Structural)]
pub struct Lifespan(pub Option<u64>);

impl BiologicalTrait for Lifespan {
    open spec fn lifetime_spec(&self) -> Option<u64> {
        self.0
    }

    fn get_lifetime(&self) -> (r: Option<u64>) {
        self.0
    }
}

/// Command event used to create, update, delete and clear entities.
///
/// A `None` parent identifier makes this a parent-level command on the
/// entity named by the self identifier; a `Some` parent identifier makes it
/// a child-level command, resolved against that parent.
pub struct CudEvent<B, K> {
    pub(crate) action: Action,
    pub(crate) parent_identifier: Option<Identifier<K>>,
    pub(crate) self_identifier: Identifier<K>,
    pub(crate) bundle: B,
}

/// History of one processed command: the action, the identifiers involved
/// and a binary outcome. For parent-level commands the parent identifier
/// field holds the entity's own identifier and the child identifier is
/// absent; for child-level commands the true parent's identifier and the
/// child's identifier are both present. Immutable once created.
#[derive(Debug)]
pub struct History<K> {
    pub action: Action,
    pub parent_identifier: Identifier<K>,
    pub child_identifier: Option<Identifier<K>>,
    pub result: Result<(), ()>,
}

/// Whether two history records agree field by field, comparing identifier
/// keys with the key type's own equality.
pub open spec fn history_eq_spec<K: PartialEq>(a: History<K>, b: History<K>) -> bool {
    &&& a.action == b.action
    &&& same_key(a.parent_identifier.0, b.parent_identifier.0)
    &&& match (a.child_identifier, b.child_identifier) {
        (Some(x), Some(y)) => same_key(x.0, y.0),
        (None, None) => true,
        _ => false,
    }
    &&& ((a.result is Ok) == (b.result is Ok))
}

impl<K: PartialEq> vstd::std_specs::cmp::PartialEqSpecImpl for History<K> {
    open spec fn obeys_eq_spec() -> bool {
        <K as PartialEqSpec>::obeys_eq_spec()
    }

    open spec fn eq_spec(&self, other: &History<K>) -> bool {
        history_eq_spec(*self, *other)
    }
}

impl<K: PartialEq> PartialEq for History<K> {
    fn eq(&self, other: &History<K>) -> (r: bool) {
        let action_same = self.action == other.action;
        let parent_same = self.parent_identifier.0 == other.parent_identifier.0;
        let child_same = match (&self.child_identifier, &other.child_identifier) {
            (Some(a), Some(b)) => a.0 == b.0,
            (None, None) => true,
            _ => false,
        };
        let result_same = self.result.is_ok() == other.result.is_ok();
        action_same && parent_same && child_same && result_same
    }
}

impl<K> History<K> {
    /// A record of a parent-level command: no child identifier.
    pub fn new_parent_history(
        action: Action,
        parent_identifier: Identifier<K>,
        result: Result<(), ()>,
    ) -> (h: Self)
        ensures
            h == (History { action, parent_identifier, child_identifier: None::<Identifier<K>>, result }),
    {
        History { action, parent_identifier, child_identifier: None, result }
    }

    /// A record of a child-level command: both identifiers present.
    pub fn new_child_history(
        action: Action,
        parent_identifier: Identifier<K>,
        child_identifier: Identifier<K>,
        result: Result<(), ()>,
    ) -> (h: Self)
        ensures
            h == (History {
                action,
                parent_identifier,
                child_identifier: Some(child_identifier),
                result,
            }),
    {
        History { action, parent_identifier, child_identifier: Some(child_identifier), result }
    }
}

impl<B, K> CudEvent<B, K> {
    /// The event's action, as seen by contracts.
    pub closed spec fn action_spec(&self) -> Action {
        self.action
    }

    /// The event's parent identifier, as seen by contracts.
    pub closed spec fn parent_identifier_spec(&self) -> Option<Identifier<K>> {
        self.parent_identifier
    }

    /// The event's self identifier, as seen by contracts.
    pub closed spec fn self_identifier_spec(&self) -> Identifier<K> {
        self.self_identifier
    }

    /// The event's component bundle, as seen by contracts.
    pub closed spec fn bundle_spec(&self) -> B {
        self.bundle
    }

    /// The history record this event produces for a given outcome.
    pub open spec fn to_history_spec(&self, result: Result<(), ()>) -> History<K> {
        match self.parent_identifier_spec() {
            Some(parent_identifier) => History {
                action: self.action_spec(),
                parent_identifier,
                child_identifier: Some(self.self_identifier_spec()),
                result,
            },
            None => History {
                action: self.action_spec(),
                parent_identifier: self.self_identifier_spec(),
                child_identifier: None,
                result,
            },
        }
    }

    pub fn get_parent_identifier(&self) -> (r: &Option<Identifier<K>>)
        ensures
            *r == self.parent_identifier_spec(),
    {
        &self.parent_identifier
    }

    pub fn get_self_identifier(&self) -> (r: &Identifier<K>)
        ensures
            *r == self.self_identifier_spec(),
    {
        &self.self_identifier
    }

    pub fn get_action(&self) -> (r: &Action)
        ensures
            *r == self.action_spec(),
    {
        &self.action
    }

    pub fn get_bundle(&self) -> (r: &B)
        ensures
            *r == self.bundle_spec(),
    {
        &self.bundle
    }

    /// Takes the event apart: action, parent identifier, self identifier,
    /// bundle. The engine consumes each event exactly once.
    pub(crate) fn into_parts(self) -> (r: (Action, Option<Identifier<K>>, Identifier<K>, B))
        ensures
            r.0 == self.action_spec(),
            r.1 == self.parent_identifier_spec(),
            r.2 == self.self_identifier_spec(),
            r.3 == self.bundle_spec(),
    {
        let CudEvent { action, parent_identifier, self_identifier, bundle } = self;
        (action, parent_identifier, self_identifier, bundle)
    }
}

impl<B, K: PartialEq + Clone> CudEvent<B, K> {
    /// The history record this event produces for a given outcome.
    pub fn to_history(&self, result: Result<(), ()>) -> (h: History<K>)
        requires
            lawful_key::<K>(),
        ensures
            h == self.to_history_spec(result),
    {
        match &self.parent_identifier {
            Some(parent_identifier) => History::new_child_history(
                self.action,
                Identifier(clone_key(&parent_identifier.0)),
                Identifier(clone_key(&self.self_identifier.0)),
                result,
            ),
            None => History::new_parent_history(
                self.action,
                Identifier(clone_key(&self.self_identifier.0)),
                result,
            ),
        }
    }
}

impl<B, K> CudEvent<B, K> {
    /// A parent-level Create command.
    pub fn create_parent(self_identifier: K, bundle: B) -> (ev: Self)
        ensures
            ev.action_spec() == Action::Create,
            ev.parent_identifier_spec() is None,
            ev.self_identifier_spec() == Identifier(self_identifier),
            ev.bundle_spec() == bundle,
    {
        CudEvent {
            action: Action::Create,
            parent_identifier: None,
            self_identifier: Identifier(self_identifier),
            bundle,
        }
    }

    /// A parent-level CreateOrModify command.
    pub fn create_or_modify_parent(self_identifier: K, bundle: B) -> (ev: Self)
        ensures
            ev.action_spec() == Action::CreateOrModify,
            ev.parent_identifier_spec() is None,
            ev.self_identifier_spec() == Identifier(self_identifier),
            ev.bundle_spec() == bundle,
    {
        CudEvent {
            action: Action::CreateOrModify,
            parent_identifier: None,
            self_identifier: Identifier(self_identifier),
            bundle,
        }
    }

    /// A parent-level Update command.
    pub fn update_parent(self_identifier: K, bundle: B) -> (ev: Self)
        ensures
            ev.action_spec() == Action::Update,
            ev.parent_identifier_spec() is None,
            ev.self_identifier_spec() == Identifier(self_identifier),
            ev.bundle_spec() == bundle,
    {
        CudEvent {
            action: Action::Update,
            parent_identifier: None,
            self_identifier: Identifier(self_identifier),
            bundle,
        }
    }

    /// A parent-level Delete command.
    pub fn delete_parent(self_identifier: K, bundle: B) -> (ev: Self)
        ensures
            ev.action_spec() == Action::Delete,
            ev.parent_identifier_spec() is None,
            ev.self_identifier_spec() == Identifier(self_identifier),
            ev.bundle_spec() == bundle,
    {
        CudEvent {
            action: Action::Delete,
            parent_identifier: None,
            self_identifier: Identifier(self_identifier),
            bundle,
        }
    }

    /// A parent-level Clear command.
    pub fn clear_parent(self_identifier: K, bundle: B) -> (ev: Self)
        ensures
            ev.action_spec() == Action::Clear,
            ev.parent_identifier_spec() is None,
            ev.self_identifier_spec() == Identifier(self_identifier),
            ev.bundle_spec() == bundle,
    {
        CudEvent {
            action: Action::Clear,
            parent_identifier: None,
            self_identifier: Identifier(self_identifier),
            bundle,
        }
    }

    /// A child-level Create command.
    pub fn create_child(parent_identifier: K, self_identifier: K, bundle: B) -> (ev: Self)
        ensures
            ev.action_spec() == Action::Create,
            ev.parent_identifier_spec() == Some(Identifier(parent_identifier)),
            ev.self_identifier_spec() == Identifier(self_identifier),
            ev.bundle_spec() == bundle,
    {
        CudEvent {
            action: Action::Create,
            parent_identifier: Some(Identifier(parent_identifier)),
            self_identifier: Identifier(self_identifier),
            bundle,
        }
    }

    /// A child-level CreateOrModify command.
    pub fn create_or_modify_child(parent_identifier: K, self_identifier: K, bundle: B) -> (ev:
        Self)
        ensures
            ev.action_spec() == Action::CreateOrModify,
            ev.parent_identifier_spec() == Some(Identifier(parent_identifier)),
            ev.self_identifier_spec() == Identifier(self_identifier),
            ev.bundle_spec() == bundle,
    {
        CudEvent {
            action: Action::CreateOrModify,
            parent_identifier: Some(Identifier(parent_identifier)),
            self_identifier: Identifier(self_identifier),
            bundle,
        }
    }

    /// A child-level Update command.
    pub fn update_child(parent_identifier: K, self_identifier: K, bundle: B) -> (ev: Self)
        ensures
            ev.action_spec() == Action::Update,
            ev.parent_identifier_spec() == Some(Identifier(parent_identifier)),
            ev.self_identifier_spec() == Identifier(self_identifier),
            ev.bundle_spec() == bundle,
    {
        CudEvent {
            action: Action::Update,
            parent_identifier: Some(Identifier(parent_identifier)),
            self_identifier: Identifier(self_identifier),
            bundle,
        }
    }

    /// A child-level Delete command.
    pub fn delete_child(parent_identifier: K, self_identifier: K, bundle: B) -> (ev: Self)
        ensures
            ev.action_spec() == Action::Delete,
            ev.parent_identifier_spec() == Some(Identifier(parent_identifier)),
            ev.self_identifier_spec() == Identifier(self_identifier),
            ev.bundle_spec() == bundle,
    {
        CudEvent {
            action: Action::Delete,
            parent_identifier: Some(Identifier(parent_identifier)),
            self_identifier: Identifier(self_identifier),
            bundle,
        }
    }

    /// A child-level Clear command.
    pub fn clear_child(parent_identifier: K, self_identifier: K, bundle: B) -> (ev: Self)
        ensures
            ev.action_spec() == Action::Clear,
            ev.parent_identifier_spec() == Some(Identifier(parent_identifier)),
            ev.self_identifier_spec() == Identifier(self_identifier),
            ev.bundle_spec() == bundle,
    {
        CudEvent {
            action: Action::Clear,
            parent_identifier: Some(Identifier(parent_identifier)),
            self_identifier: Identifier(self_identifier),
            bundle,
        }
    }
}

/// Whether a history record is recorded under the given parent identifier
/// key.
pub open spec fn parent_hit<K: PartialEq>(h: History<K>, key: K) -> bool {
    same_key(h.parent_identifier.0, key)
}

/// Whether a history record is recorded under the given child identifier
/// key.
pub open spec fn child_hit<K: PartialEq>(h: History<K>, key: K) -> bool {
    match h.child_identifier {
        Some(child) => same_key(child.0, key),
        None => false,
    }
}

/// The ordered ledger of [`History`] records for one identifier-key type:
/// one record is appended per processed command, successes and failures
/// alike. Created empty at initialization; never pruned by the expiry
/// engine.
pub struct Lineage<K> {
    pub histories: Vec<History<K>>,
}

impl<K> Default for Lineage<K> {
    /// An empty ledger.
    fn default() -> (l: Self)
        ensures
            l.histories@ == Seq::<History<K>>::empty(),
    {
        Lineage { histories: Vec::new() }
    }
}

impl<K> Lineage<K> {
    /// An empty ledger; initializing support for an identifier-key type
    /// means creating its ledger with this before any engine runs.
    pub fn new() -> (l: Self)
        ensures
            l.histories@ == Seq::<History<K>>::empty(),
    {
        Lineage { histories: Vec::new() }
    }

    /// Appends a record to the ledger.
    pub fn add_history(&mut self, history: History<K>)
        ensures
            final(self).histories@ == old(self).histories@.push(history),
    {
        self.histories.push(history);
    }

    /// Removes every record from the ledger.
    pub fn clear_history(&mut self)
        ensures
            final(self).histories@ == Seq::<History<K>>::empty(),
    {
        self.histories.clear();
    }

    /// Removes and returns the most recent record, if any.
    pub fn pop(&mut self) -> (r: Option<History<K>>)
        ensures
            old(self).histories@.len() == 0 ==> {
                &&& r is None
                &&& final(self).histories@ == old(self).histories@
            },
            old(self).histories@.len() > 0 ==> {
                &&& r == Some(old(self).histories@.last())
                &&& final(self).histories@ == old(self).histories@.drop_last()
            },
    {
        self.histories.pop()
    }
}

impl<K: PartialEq + Clone> Lineage<K> {
    /// Removes every record equal (field by field, keys by key equality) to
    /// the given one.
    #[verifier::loop_isolation(false)]
    pub fn remove_history(&mut self, history: History<K>)
        requires
            lawful_key::<K>(),
        ensures
            final(self).histories@ == old(self).histories@.filter(
                |h: History<K>| !history_eq_spec(h, history),
            ),
    {
        let ghost pred = |h: History<K>| !history_eq_spec(h, history);
        let ghost orig = self.histories@;
        let mut kept: Vec<History<K>> = Vec::new();
        let ghost mut seen: int = 0;
        proof {
            assert(orig.subrange(0, 0) =~= Seq::<History<K>>::empty());
            lemma_filter_empty(pred);
        }
        while self.histories.len() > 0
            invariant
                lawful_key::<K>(),
                0 <= seen <= orig.len(),
                self.histories@ == orig.skip(seen),
                kept@ == orig.subrange(0, seen).filter(pred),
            decreases orig.len() - seen,
        {
            let h = self.histories.remove(0);
            proof {
                assert(h == orig[seen]);
                assert(orig.skip(seen).skip(1) =~= orig.skip(seen + 1));
                assert(orig.subrange(0, seen + 1) =~= orig.subrange(0, seen).push(orig[seen]));
                lemma_filter_push(orig.subrange(0, seen), orig[seen], pred);
            }
            let keep_it = !(&h == &history);
            if keep_it {
                kept.push(h);
            }
            proof {
                seen = seen + 1;
            }
        }
        proof {
            assert(orig.subrange(0, orig.len() as int) =~= orig);
        }
        self.histories = kept;
    }

    /// All records whose parent identifier matches, in ledger order.
    #[verifier::loop_isolation(false)]
    pub fn get_histories_by_parent_identifier(&self, parent_identifier: &Identifier<K>) -> (r:
        Vec<&History<K>>)
        requires
            lawful_key::<K>(),
        ensures
            r@.map_values(|h: &History<K>| *h) == self.histories@.filter(
                |h: History<K>| parent_hit(h, parent_identifier.0),
            ),
    {
        let ghost pred = |h: History<K>| parent_hit(h, parent_identifier.0);
        let mut r: Vec<&History<K>> = Vec::new();
        let n = self.histories.len();
        let mut i: usize = 0;
        proof {
            assert(self.histories@.subrange(0, 0) =~= Seq::<History<K>>::empty());
            lemma_filter_empty(pred);
            assert(r@.map_values(|h: &History<K>| *h) =~= Seq::<History<K>>::empty());
        }
        while i < n
            invariant
                lawful_key::<K>(),
                0 <= i <= n,
                n == self.histories@.len(),
                r@.map_values(|h: &History<K>| *h) == self.histories@.subrange(0, i as int).filter(
                    pred,
                ),
            decreases n - i,
        {
            let h = &self.histories[i];
            proof {
                lemma_filter_push(self.histories@.subrange(0, i as int), self.histories@[i as int], pred);
                assert(self.histories@.subrange(0, i as int + 1) =~= self.histories@.subrange(
                    0,
                    i as int,
                ).push(self.histories@[i as int]));
            }
            if keys_equal(&h.parent_identifier.0, &parent_identifier.0) {
                let ghost before = r@;
                r.push(h);
                proof {
                    assert(r@.map_values(|hh: &History<K>| *hh) =~= before.map_values(
                        |hh: &History<K>| *hh,
                    ).push(*h));
                }
            }
            i = i + 1;
        }
        proof {
            assert(self.histories@.subrange(0, n as int) =~= self.histories@);
        }
        r
    }

    /// All records whose child identifier matches, in ledger order.
    #[verifier::loop_isolation(false)]
    pub fn get_histories_by_child_identifier(&self, child_identifier: &Identifier<K>) -> (r: Vec<
        &History<K>>)
        requires
            lawful_key::<K>(),
        ensures
            r@.map_values(|h: &History<K>| *h) == self.histories@.filter(
                |h: History<K>| child_hit(h, child_identifier.0),
            ),
    {
        let ghost pred = |h: History<K>| child_hit(h, child_identifier.0);
        let mut r: Vec<&History<K>> = Vec::new();
        let n = self.histories.len();
        let mut i: usize = 0;
        proof {
            assert(self.histories@.subrange(0, 0) =~= Seq::<History<K>>::empty());
            lemma_filter_empty(pred);
            assert(r@.map_values(|h: &History<K>| *h) =~= Seq::<History<K>>::empty());
        }
        while i < n
            invariant
                lawful_key::<K>(),
                0 <= i <= n,
                n == self.histories@.len(),
                r@.map_values(|h: &History<K>| *h) == self.histories@.subrange(0, i as int).filter(
                    pred,
                ),
            decreases n - i,
        {
            let h = &self.histories[i];
            proof {
                lemma_filter_push(self.histories@.subrange(0, i as int), self.histories@[i as int], pred);
                assert(self.histories@.subrange(0, i as int + 1) =~= self.histories@.subrange(
                    0,
                    i as int,
                ).push(self.histories@[i as int]));
            }
            let matched = match &h.child_identifier {
                Some(child) => keys_equal(&child.0, &child_identifier.0),
                None => false,
            };
            if matched {
                let ghost before = r@;
                r.push(h);
                proof {
                    assert(r@.map_values(|hh: &History<K>| *hh) =~= before.map_values(
                        |hh: &History<K>| *hh,
                    ).push(*h));
                }
            }
            i = i + 1;
        }
        proof {
            assert(self.histories@.subrange(0, n as int) =~= self.histories@);
        }
        r
    }

    /// The outcome of the most recent (latest-appended) record whose parent
    /// identifier matches; `Err` when no record matches.
    pub fn get_result_from_parent_identifier(&self, parent_identifier: &Identifier<K>) -> (r:
        Result<(), ()>)
        requires
            lawful_key::<K>(),
        ensures
            (forall|i: int|
                0 <= i < self.histories@.len() ==> !parent_hit(
                    self.histories@[i],
                    parent_identifier.0,
                )) ==> r == Err::<(), ()>(()),
            (exists|i: int|
                0 <= i < self.histories@.len() && parent_hit(
                    self.histories@[i],
                    parent_identifier.0,
                )) ==> exists|i: int|
                {
                    &&& 0 <= i < self.histories@.len()
                    &&& parent_hit(self.histories@[i], parent_identifier.0)
                    &&& (forall|j: int|
                        i < j < self.histories@.len() ==> !parent_hit(
                            self.histories@[j],
                            parent_identifier.0,
                        ))
                    &&& r == self.histories@[i].result
                },
    {
        let n = self.histories.len();
        let mut i: usize = n;
        while i > 0
            invariant
                lawful_key::<K>(),
                0 <= i <= n,
                n == self.histories@.len(),
                forall|j: int|
                    i <= j < n ==> !parent_hit(self.histories@[j], parent_identifier.0),
            decreases i,
        {
            i = i - 1;
            let h = &self.histories[i];
            if keys_equal(&h.parent_identifier.0, &parent_identifier.0) {
                return h.result;
            }
        }
        Err(())
    }

    /// The outcome of the most recent (latest-appended) record whose child
    /// identifier matches; `Err` when no record matches.
    pub fn get_result_from_child_identifier(&self, child_identifier: &Identifier<K>) -> (r:
        Result<(), ()>)
        requires
            lawful_key::<K>(),
        ensures
            (forall|i: int|
                0 <= i < self.histories@.len() ==> !child_hit(
                    self.histories@[i],
                    child_identifier.0,
                )) ==> r == Err::<(), ()>(()),
            (exists|i: int|
                0 <= i < self.histories@.len() && child_hit(
                    self.histories@[i],
                    child_identifier.0,
                )) ==> exists|i: int|
                {
                    &&& 0 <= i < self.histories@.len()
                    &&& child_hit(self.histories@[i], child_identifier.0)
                    &&& (forall|j: int|
                        i < j < self.histories@.len() ==> !child_hit(
                            self.histories@[j],
                            child_identifier.0,
                        ))
                    &&& r == self.histories@[i].result
                },
    {
        let n = self.histories.len();
        let mut i: usize = n;
        while i > 0
            invariant
                lawful_key::<K>(),
                0 <= i <= n,
                n == self.histories@.len(),
                forall|j: int| i <= j < n ==> !child_hit(self.histories@[j], child_identifier.0),
            decreases i,
        {
            i = i - 1;
            let h = &self.histories[i];
            let matched = match &h.child_identifier {
                Some(child) => keys_equal(&child.0, &child_identifier.0),
                None => false,
            };
            if matched {
                return h.result;
            }
        }
        Err(())
    }

    /// Removes every record whose parent identifier matches.
    #[verifier::loop_isolation(false)]
    pub fn clear_parent_history(&mut self, parent_identifier: &Identifier<K>)
        requires
            lawful_key::<K>(),
        ensures
            final(self).histories@ == old(self).histories@.filter(
                |h: History<K>| !parent_hit(h, parent_identifier.0),
            ),
    {
        let ghost pred = |h: History<K>| !parent_hit(h, parent_identifier.0);
        let ghost orig = self.histories@;
        let mut kept: Vec<History<K>> = Vec::new();
        let ghost mut seen: int = 0;
        proof {
            assert(orig.subrange(0, 0) =~= Seq::<History<K>>::empty());
            lemma_filter_empty(pred);
        }
        while self.histories.len() > 0
            invariant
                lawful_key::<K>(),
                0 <= seen <= orig.len(),
                self.histories@ == orig.skip(seen),
                kept@ == orig.subrange(0, seen).filter(pred),
            decreases orig.len() - seen,
        {
            let h = self.histories.remove(0);
            proof {
                assert(h == orig[seen]);
                assert(orig.skip(seen).skip(1) =~= orig.skip(seen + 1));
                assert(orig.subrange(0, seen + 1) =~= orig.subrange(0, seen).push(orig[seen]));
                lemma_filter_push(orig.subrange(0, seen), orig[seen], pred);
            }
            if !keys_equal(&h.parent_identifier.0, &parent_identifier.0) {
                kept.push(h);
            }
            proof {
                seen = seen + 1;
            }
        }
        proof {
            assert(orig.subrange(0, orig.len() as int) =~= orig);
        }
        self.histories = kept;
    }

    /// Removes every record whose child identifier matches.
    #[verifier::loop_isolation(false)]
    pub fn clear_child_history(&mut self, child_identifier: &Identifier<K>)
        requires
            lawful_key::<K>(),
        ensures
            final(self).histories@ == old(self).histories@.filter(
                |h: History<K>| !child_hit(h, child_identifier.0),
            ),
    {
        let ghost pred = |h: History<K>| !child_hit(h, child_identifier.0);
        let ghost orig = self.histories@;
        let mut kept: Vec<History<K>> = Vec::new();
        let ghost mut seen: int = 0;
        proof {
            assert(orig.subrange(0, 0) =~= Seq::<History<K>>::empty());
            lemma_filter_empty(pred);
        }
        while self.histories.len() > 0
            invariant
                lawful_key::<K>(),
                0 <= seen <= orig.len(),
                self.histories@ == orig.skip(seen),
                kept@ == orig.subrange(0, seen).filter(pred),
            decreases orig.len() - seen,
        {
            let h = self.histories.remove(0);
            proof {
                assert(h == orig[seen]);
                assert(orig.skip(seen).skip(1) =~= orig.skip(seen + 1));
                assert(orig.subrange(0, seen + 1) =~= orig.subrange(0, seen).push(orig[seen]));
                lemma_filter_push(orig.subrange(0, seen), orig[seen], pred);
            }
            let matched = match &h.child_identifier {
                Some(child) => keys_equal(&child.0, &child_identifier.0),
                None => false,
            };
            if !matched {
                kept.push(h);
            }
            proof {
                seen = seen + 1;
            }
        }
        proof {
            assert(orig.subrange(0, orig.len() as int) =~= orig);
        }
        self.histories = kept;
    }
}

/// Filtering the empty sequence yields the empty sequence.
pub proof fn lemma_filter_empty<A>(pred: spec_fn(A) -> bool)
    ensures
        Seq::<A>::empty().filter(pred) == Seq::<A>::empty(),
{
    reveal(Seq::filter);
}

/// Filtering a sequence extended by one element keeps the element exactly
/// when the predicate accepts it.
pub proof fn lemma_filter_push<A>(s: Seq<A>, x: A, pred: spec_fn(A) -> bool)
    ensures
        s.push(x).filter(pred) == if pred(x) {
            s.filter(pred).push(x)
        } else {
            s.filter(pred)
        },
{
    reveal(Seq::filter);
    assert(s.push(x).drop_last() =~= s);
    assert(s.push(x).last() == x);
}

} // verus!
