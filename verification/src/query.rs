//! Queries: the archetypes that a pass over one component type has to visit.

use crate::archetype::ArchetypeId;
use crate::component::Component;
use std::marker::PhantomData;
use vstd::prelude::*;

verus! {

/// The identifiers that a list of references names.
pub open spec fn named_ids(refs: Seq<&ArchetypeId>) -> Seq<ArchetypeId> {
    refs.map_values(|id: &ArchetypeId| *id)
}

/// The archetypes that hold the component type `C`.
pub struct Query<'a, C> {
    archetypes: Vec<&'a ArchetypeId>,
    component: PhantomData<&'a C>,
}

impl<'a, C: Component> Query<'a, C> {
    /// The identifiers of the archetypes to visit, in their order.
    pub closed spec fn ids(&self) -> Seq<ArchetypeId> {
        named_ids(self.archetypes@)
    }

    /// A query over the archetypes that `archetypes` lists.
    pub fn new(archetypes: &'a [ArchetypeId]) -> (query: Self)
        ensures
            query.ids() == archetypes@,
    {
        let mut found: Vec<&'a ArchetypeId> = Vec::new();
        let mut n: usize = 0;
        while n < archetypes.len()
            invariant
                n <= archetypes@.len(),
                found@.len() == n,
                named_ids(found@) == archetypes@.take(n as int),
            decreases archetypes.len() - n,
        {
            let ghost before = found@;
            found.push(&archetypes[n]);
            proof {
                assert forall|i: int| 0 <= i < n + 1 implies named_ids(found@)[i] == archetypes@[i] by {
                    if i < n {
                        assert(named_ids(before)[i] == archetypes@.take(n as int)[i]);
                    }
                }
                assert(named_ids(found@) =~= archetypes@.take(n + 1));
            }
            n = n + 1;
        }
        assert(archetypes@.take(n as int) =~= archetypes@);
        Self { archetypes: found, component: PhantomData }
    }

    /// The number of archetypes to visit.
    pub fn len(&self) -> (r: usize)
        ensures
            r == self.ids().len(),
    {
        self.archetypes.len()
    }

    /// The identifier of the archetype to visit at position `i`.
    pub fn get(&self, i: usize) -> (r: Option<ArchetypeId>)
        ensures
            r == if i < self.ids().len() {
                Some(self.ids()[i as int])
            } else {
                None
            },
    {
        if i < self.archetypes.len() {
            Some(*self.archetypes[i])
        } else {
            None
        }
    }
}

pub type QueryResult<'a, C> = Result<Query<'a, C>, QueryError>;

/// Why a query could not be made.
#[derive(Clone, Copy, Debug, PartialEq, Eq, Structural)]
pub enum QueryError {
    /// No archetype holds the component type.
    Empty,
}

} // verus!
