//! Identifier resolution: looking an entity up by its identifier tag.

use vstd::prelude::*;

use crate::graph::{rec_matches, Entity, EntityGraph};
use crate::keys::{keys_equal, lawful_key};
use crate::structs::Identifier;

verus! {

/// Resolves an identifier to a live entity handle: a linear scan over the
/// records, returning the first record carrying a matching identifier, or
/// `None` when no record matches. Under correct use at most one record
/// matches; among duplicates the first encountered wins.
pub fn get_entity_by_identifier<B, K: PartialEq + Clone>(
    graph: &EntityGraph<B, K>,
    identifier: &Identifier<K>,
) -> (r: Option<Entity>)
    requires
        lawful_key::<K>(),
    ensures
        r is None ==> forall|i: int|
            0 <= i < graph.recs().len() ==> !rec_matches(#[trigger] graph.recs()[i], identifier.0),
        r matches Some(e) ==> exists|i: int|
            {
                &&& 0 <= i < graph.recs().len()
                &&& rec_matches(#[trigger] graph.recs()[i], identifier.0)
                &&& graph.recs()[i].entity == e
                &&& forall|j: int|
                    0 <= j < i ==> !rec_matches(#[trigger] graph.recs()[j], identifier.0)
            },
{
    let records = graph.records();
    let n = records.len();
    let mut i: usize = 0;
    while i < n
        invariant
            lawful_key::<K>(),
            0 <= i <= n,
            n == graph.recs().len(),
            records@ == graph.recs(),
            forall|j: int| 0 <= j < i ==> !rec_matches(#[trigger] graph.recs()[j], identifier.0),
        decreases n - i,
    {
        if keys_equal(&records[i].identifier.0, &identifier.0) {
            return Some(records[i].entity);
        }
        i = i + 1;
    }
    None
}

} // verus!
