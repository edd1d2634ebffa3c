//! The archetype manager: owner of all archetypes, with an index from a set
//! of component types to its archetype and an index from a component type to
//! the archetypes that hold it.

use crate::archetype::{drops_for, lemma_drops_for_add, Archetype, ArchetypeId, ArchetypeView};
use crate::column::{step_views, StepView, TeardownStep};
use crate::component::{
    canonical_key, ids_of, info_ids, is_canonical, is_canonical_key, lemma_canonical_key_unique,
    same_ids, strictly_increasing, ComponentId, ComponentInfo,
};
use crate::entity::Entity;
use std::collections::hash_map::Entry;
use std::collections::HashMap;
use vstd::prelude::*;

verus! {

/// The archetypes that hold the component type `id`, in the order of their
/// identifiers, where `keys[i]` is the set of archetype `i`.
pub open spec fn holders(keys: Seq<Seq<ComponentId>>, id: ComponentId) -> Seq<ArchetypeId>
    decreases keys.len(),
{
    if keys.len() == 0 {
        Seq::empty()
    } else if keys.last().contains(id) {
        holders(keys.drop_last(), id).push(ArchetypeId((keys.len() - 1) as u32))
    } else {
        holders(keys.drop_last(), id)
    }
}

/// The index from a component type to the archetypes that hold it, for the
/// archetypes whose sets are `keys`. A type that no archetype holds has no
/// entry.
pub open spec fn component_index_of(keys: Seq<Seq<ComponentId>>) -> Map<
    ComponentId,
    Seq<ArchetypeId>,
> {
    Map::new(
        |id: ComponentId| holders(keys, id).len() > 0,
        |id: ComponentId| holders(keys, id),
    )
}

/// The archetypes that hold a component type, once one more archetype has
/// been added.
pub proof fn lemma_holders_push(keys: Seq<Seq<ComponentId>>, key: Seq<ComponentId>, id: ComponentId)
    ensures
        holders(keys.push(key), id) == if key.contains(id) {
            holders(keys, id).push(ArchetypeId(keys.len() as u32))
        } else {
            holders(keys, id)
        },
{
    assert(keys.push(key).drop_last() =~= keys);
    assert(keys.push(key).last() == key);
}

/// The list stored for the component type `id`; empty where none is stored.
spec fn listed(index: Map<u64, Vec<ArchetypeId>>, id: ComponentId) -> Seq<ArchetypeId> {
    if index.contains_key(id.0) {
        index[id.0]@
    } else {
        Seq::empty()
    }
}

/// The stored index from a component type to its archetypes, as a map over
/// identities.
spec fn component_index_view(index: Map<u64, Vec<ArchetypeId>>) -> Map<
    ComponentId,
    Seq<ArchetypeId>,
> {
    Map::new(|id: ComponentId| index.contains_key(id.0), |id: ComponentId| index[id.0]@)
}

/// The stored index is the index for `keys` exactly when it lists, for each
/// component type, the archetypes that hold it, and stores no empty list.
proof fn lemma_component_index_agrees(index: Map<u64, Vec<ArchetypeId>>, keys: Seq<Seq<ComponentId>>)
    ensures
        component_index_view(index) == component_index_of(keys) <==> (forall|id: ComponentId|
            #[trigger] listed(index, id) == holders(keys, id) && (index.contains_key(id.0)
                ==> listed(index, id).len() > 0)),
{
    if component_index_view(index) == component_index_of(keys) {
        assert forall|id: ComponentId|
            #[trigger] listed(index, id) == holders(keys, id) && (index.contains_key(id.0)
                ==> listed(index, id).len() > 0) by {
            assert(component_index_view(index).contains_key(id) == component_index_of(
                keys,
            ).contains_key(id));
            if index.contains_key(id.0) {
                assert(component_index_view(index)[id] == component_index_of(keys)[id]);
            } else {
                assert(holders(keys, id) =~= Seq::empty());
            }
        }
    }
    if (forall|id: ComponentId|
        #[trigger] listed(index, id) == holders(keys, id) && (index.contains_key(id.0) ==> listed(
            index,
            id,
        ).len() > 0)) {
        let a = component_index_view(index);
        let b = component_index_of(keys);
        assert forall|id: ComponentId| #[trigger] a.dom().contains(id) == b.dom().contains(id) by {
            assert(listed(index, id) == holders(keys, id));
            assert(a.dom().contains(id) == index.contains_key(id.0));
            assert(b.dom().contains(id) == (holders(keys, id).len() > 0));
        }
        assert(a.dom() =~= b.dom());
        assert forall|id: ComponentId| #[trigger] a.dom().contains(id) implies a[id] == b[id] by {
            assert(listed(index, id) == holders(keys, id));
        }
        assert(component_index_view(index) =~= component_index_of(keys));
    }
}

/// What an archetype manager holds.
#[verifier::ext_equal]
pub struct ManagerView {
    /// The archetypes, by the number of their identifier.
    pub archetypes: Map<u32, ArchetypeView>,
    /// The number that the next new archetype gets.
    pub next: nat,
    /// The index from a set of component types to its archetype: `keys[i]`
    /// is the canonical set of the archetype with number `i`.
    pub keys: Seq<Seq<ComponentId>>,
    /// The index from a component type to the archetypes that hold it.
    pub by_component: Map<ComponentId, Seq<ArchetypeId>>,
}

impl ManagerView {
    /// The invariant of an archetype manager. The archetypes are numbered
    /// `0` to `next - 1`; number `0` is the archetype of the empty set; no two
    /// archetypes have the same set; and both indexes agree with the
    /// archetypes.
    pub open spec fn inv(self) -> bool {
        &&& 1 <= self.next <= u32::MAX
        &&& self.keys.len() == self.next
        &&& forall|k: u32| self.archetypes.contains_key(k) <==> k < self.next
        &&& forall|k: u32|
            k < self.next ==> {
                &&& (#[trigger] self.archetypes[k]).inv()
                &&& self.archetypes[k].id == ArchetypeId(k)
                &&& self.archetypes[k].ids == self.keys[k as int]
            }
        &&& forall|i: int, j: int|
            0 <= i < j < self.keys.len() ==> #[trigger] self.keys[i] != #[trigger] self.keys[j]
        &&& self.keys[0] == Seq::<ComponentId>::empty()
        &&& self.by_component == component_index_of(self.keys)
    }

    /// The number of the archetype whose set is `key`, where there is one.
    pub open spec fn position_of(self, key: Seq<ComponentId>) -> Option<u32> {
        if self.keys.contains(key) {
            Some(self.keys.index_of(key) as u32)
        } else {
            None
        }
    }

    /// The manager after the archetype `arch` has been added under the next
    /// free number.
    pub open spec fn with_new(self, arch: ArchetypeView) -> ManagerView {
        ManagerView {
            archetypes: self.archetypes.insert(self.next as u32, arch),
            next: self.next + 1,
            keys: self.keys.push(arch.ids),
            by_component: component_index_of(self.keys.push(arch.ids)),
        }
    }

    /// The steps that give up the storage of the archetypes with a number
    /// below `n`, archetype after archetype.
    pub open spec fn teardown_upto(self, n: nat) -> Seq<StepView>
        decreases n,
    {
        if n == 0 {
            Seq::empty()
        } else {
            self.teardown_upto((n - 1) as nat) + self.archetypes[(n - 1) as u32].teardown()
        }
    }

    /// The steps that give up the storage of all archetypes, in the order
    /// of their identifiers.
    pub open spec fn teardown(self) -> Seq<StepView> {
        self.teardown_upto(self.next)
    }

    /// The manager once it has an archetype for the set of `arch`: itself
    /// where it has one already, else with `arch` added.
    pub open spec fn serving(self, arch: ArchetypeView) -> ManagerView {
        if self.keys.contains(arch.ids) {
            self
        } else {
            self.with_new(arch)
        }
    }

    /// The manager with `arch` in the place of the archetype with number
    /// `k`.
    pub open spec fn with_archetype(self, k: u32, arch: ArchetypeView) -> ManagerView {
        ManagerView { archetypes: self.archetypes.insert(k, arch), ..self }
    }
}

/// Adding an archetype for a set that no archetype has yet keeps the
/// manager's invariant.
pub proof fn lemma_with_new_keeps_inv(man: ManagerView, arch: ArchetypeView)
    requires
        man.inv(),
        man.next < u32::MAX,
        arch.inv(),
        arch.id == ArchetypeId(man.next as u32),
        !man.keys.contains(arch.ids),
    ensures
        man.with_new(arch).inv(),
{
    let after = man.with_new(arch);
    assert forall|k: u32| k < after.next implies {
        &&& (#[trigger] after.archetypes[k]).inv()
        &&& after.archetypes[k].id == ArchetypeId(k)
        &&& after.archetypes[k].ids == after.keys[k as int]
    } by {
        if k < man.next {
            assert(after.archetypes[k] == man.archetypes[k]);
        }
    }
    assert forall|i: int, j: int| 0 <= i < j < after.keys.len() implies #[trigger] after.keys[i]
        != #[trigger] after.keys[j] by {
        if j < man.keys.len() {
            assert(man.keys[i] != man.keys[j]);
        } else {
            assert(man.keys.contains(man.keys[i]));
        }
    }
}

/// Putting an archetype with the same identifier and the same set of
/// component types in the place of another keeps the manager's invariant.
pub proof fn lemma_with_archetype_keeps_inv(man: ManagerView, k: u32, arch: ArchetypeView)
    requires
        man.inv(),
        k < man.next,
        arch.inv(),
        arch.id == ArchetypeId(k),
        arch.ids == man.keys[k as int],
    ensures
        man.with_archetype(k, arch).inv(),
{
    let after = man.with_archetype(k, arch);
    assert forall|j: u32| j < after.next implies {
        &&& (#[trigger] after.archetypes[j]).inv()
        &&& after.archetypes[j].id == ArchetypeId(j)
        &&& after.archetypes[j].ids == after.keys[j as int]
    } by {
        if j != k {
            assert(after.archetypes[j] == man.archetypes[j]);
        }
    }
}

/// Two requests that name the same set of component types, in whatever
/// order and with whatever repetitions, are served by the same archetype.
pub proof fn lemma_same_set_same_archetype(
    man: ManagerView,
    a: Seq<ComponentId>,
    b: Seq<ComponentId>,
    i: u32,
    j: u32,
)
    requires
        man.inv(),
        forall|id: ComponentId| a.contains(id) <==> b.contains(id),
        i < man.next,
        j < man.next,
        is_canonical_key(man.keys[i as int], a),
        is_canonical_key(man.keys[j as int], b),
    ensures
        i == j,
{
    lemma_canonical_key_unique(man.keys[i as int], man.keys[j as int]);
    if i < j {
        assert(man.keys[i as int] != man.keys[j as int]);
    }
    if j < i {
        assert(man.keys[j as int] != man.keys[i as int]);
    }
}

/// Once an archetype has been made for a set of component types, a request
/// for that set, named in any order, finds it: the manager serves the request
/// as it is, and makes no further archetype.
pub proof fn lemma_served_set_is_found(man: ManagerView, arch: ArchetypeView, again: ArchetypeView)
    requires
        man.inv(),
        man.next < u32::MAX,
        arch.inv(),
        arch.id == ArchetypeId(man.next as u32),
        !man.keys.contains(arch.ids),
        again.ids == arch.ids,
    ensures
        man.with_new(arch).inv(),
        man.with_new(arch).next == man.next + 1,
        man.with_new(arch).position_of(arch.ids) == Some(man.next as u32),
        man.with_new(arch).serving(again) == man.with_new(arch),
        man.with_new(arch).serving(again).next == man.next + 1,
{
    lemma_with_new_keeps_inv(man, arch);
    let after = man.with_new(arch);
    assert(after.keys[man.next as int] == arch.ids);
    assert(after.keys.contains(arch.ids));
    let at = after.keys.index_of(arch.ids);
    if at < man.next {
        assert(after.keys[at] != after.keys[man.next as int]);
    }
}

/// The archetypes listed for a component type are those that hold it, in
/// the order of their identifiers.
proof fn lemma_holders_lists_the_holders(keys: Seq<Seq<ComponentId>>, id: ComponentId)
    requires
        keys.len() <= u32::MAX,
    ensures
        forall|i: int, j: int|
            0 <= i < j < holders(keys, id).len() ==> (#[trigger] holders(keys, id)[i]).0 < (
            #[trigger] holders(keys, id)[j]).0,
        forall|i: int| 0 <= i < holders(keys, id).len() ==> (#[trigger] holders(keys, id)[i]).0 < keys.len(),
        forall|k: int|
            0 <= k < keys.len() ==> ((#[trigger] keys[k]).contains(id) <==> holders(keys, id).contains(
                ArchetypeId(k as u32),
            )),
    decreases keys.len(),
{
    if keys.len() > 0 {
        let front = keys.drop_last();
        let list = holders(keys, id);
        let rest = holders(front, id);
        let top = ArchetypeId((keys.len() - 1) as u32);
        lemma_holders_lists_the_holders(front, id);
        assert forall|k: int| 0 <= k < keys.len() implies ((#[trigger] keys[k]).contains(id)
            <==> list.contains(ArchetypeId(k as u32))) by {
            if k < keys.len() - 1 {
                assert(front[k] == keys[k]);
                if rest.contains(ArchetypeId(k as u32)) {
                    let at = rest.index_of(ArchetypeId(k as u32));
                    assert(list[at] == ArchetypeId(k as u32));
                }
                if list.contains(ArchetypeId(k as u32)) {
                    let at = list.index_of(ArchetypeId(k as u32));
                    if at < rest.len() {
                        assert(rest[at] == ArchetypeId(k as u32));
                    }
                }
            } else {
                if keys.last().contains(id) {
                    assert(list[list.len() - 1] == top);
                } else {
                    if list.contains(top) {
                        let at = list.index_of(top);
                        assert(rest[at].0 < front.len());
                    }
                }
            }
        }
    }
}

/// The index by component type is complete and exact: an archetype that
/// holds a component type is listed for that type, exactly once; and an
/// archetype that is listed for a type holds it.
pub proof fn lemma_component_index_complete(man: ManagerView, k: u32, id: ComponentId)
    requires
        man.inv(),
        k < man.next,
    ensures
        man.archetypes[k].ids.contains(id) ==> {
            &&& man.by_component.contains_key(id)
            &&& man.by_component[id].contains(ArchetypeId(k))
            &&& forall|i: int, j: int|
                0 <= i < man.by_component[id].len() && 0 <= j < man.by_component[id].len()
                    && man.by_component[id][i] == ArchetypeId(k) && man.by_component[id][j]
                    == ArchetypeId(k) ==> i == j
        },
        !man.archetypes[k].ids.contains(id) ==> !(man.by_component.contains_key(id)
            && man.by_component[id].contains(ArchetypeId(k))),
{
    lemma_holders_lists_the_holders(man.keys, id);
    let list = holders(man.keys, id);
    assert(man.archetypes[k].ids == man.keys[k as int]);
    if man.keys[k as int].contains(id) {
        assert(list.contains(ArchetypeId(k)));
        assert forall|i: int, j: int|
            0 <= i < list.len() && 0 <= j < list.len() && list[i] == ArchetypeId(k) && list[j]
                == ArchetypeId(k) implies i == j by {
            if i < j {
                assert(list[i].0 < list[j].0);
            }
            if j < i {
                assert(list[j].0 < list[i].0);
            }
        }
    }
}

/// The destructor calls for the component type `id` that giving up the
/// archetypes with a number below `n` asks for: those of each archetype, in
/// the order of the archetypes.
pub open spec fn drops_upto(man: ManagerView, id: ComponentId, n: nat) -> Seq<StepView>
    decreases n,
{
    if n == 0 {
        Seq::empty()
    } else {
        drops_upto(man, id, (n - 1) as nat) + drops_for(man.archetypes[(n - 1) as u32].teardown(), id)
    }
}

/// Giving up the manager asks for the destructor calls that giving up each
/// of its archetypes asks for, no more and no fewer.
pub proof fn lemma_manager_teardown_drops(man: ManagerView, id: ComponentId, n: nat)
    ensures
        drops_for(man.teardown_upto(n), id) == drops_upto(man, id, n),
    decreases n,
{
    if n > 0 {
        lemma_manager_teardown_drops(man, id, (n - 1) as nat);
        lemma_drops_for_add(
            man.teardown_upto((n - 1) as nat),
            man.archetypes[(n - 1) as u32].teardown(),
            id,
        );
    }
}

/// A set of archetypes.
pub struct ArchetypeManager {
    /// The archetypes, indexed by the number of their identifier.
    archetypes: HashMap<u32, Archetype>,
    /// Counter of archetype identifiers.
    next: u32,
    /// For each archetype, by its number, its canonical set of component
    /// types.
    index: Vec<Vec<ComponentId>>,
    /// For each component type, the archetypes that hold it.
    component_index: HashMap<u64, Vec<ArchetypeId>>,
}

impl View for ArchetypeManager {
    type V = ManagerView;

    closed spec fn view(&self) -> ManagerView {
        ManagerView {
            archetypes: self.archetypes@.map_values(|arch: Archetype| arch@),
            next: self.next as nat,
            keys: self.index@.map_values(|key: Vec<ComponentId>| key@),
            by_component: component_index_view(self.component_index@),
        }
    }
}

impl Default for ArchetypeManager {
    /// Has the archetype of the empty set, under the reserved number 0.
    fn default() -> (man: Self)
        ensures
            man.wf(),
            man@.next == 1,
            man@.keys == seq![Seq::<ComponentId>::empty()],
            man@.archetypes.dom() == set![0u32],
            man@.archetypes[0].entities == Seq::<Entity>::empty(),
            man@.archetypes[0].capacity == 0,
    {
        let unit_arch = Archetype::from_info(ArchetypeId(0), Vec::new());
        let mut archetypes: HashMap<u32, Archetype> = HashMap::new();
        archetypes.insert(0, unit_arch);
        let mut index: Vec<Vec<ComponentId>> = Vec::new();
        index.push(Vec::new());
        let man = Self { archetypes, next: 1, index, component_index: HashMap::new() };
        proof {
            assert(man@.keys =~= seq![Seq::<ComponentId>::empty()]);
            assert(man@.archetypes.dom() =~= set![0u32]);
            assert(unit_arch@.ids =~= Seq::<ComponentId>::empty()) by {
                if unit_arch@.ids.len() > 0 {
                    assert(unit_arch@.ids.contains(unit_arch@.ids[0]));
                    assert(ids_of(Seq::<ComponentInfo>::empty()).contains(unit_arch@.ids[0]));
                }
            }
            assert forall|id: ComponentId| holders(man@.keys, id).len() == 0 by {
                reveal_with_fuel(holders, 2);
                assert(man@.keys.drop_last().len() == 0);
            }
            assert(man@.by_component =~= component_index_of(man@.keys));
        }
        man
    }
}

impl ArchetypeManager {
    /// The manager meets its invariant.
    pub open spec fn wf(&self) -> bool {
        self@.inv()
    }

    /// A manager that holds the archetype of the empty set, under the
    /// reserved number 0, and no other.
    pub fn new() -> (man: Self)
        ensures
            man.wf(),
            man@.next == 1,
            man@.keys == seq![Seq::<ComponentId>::empty()],
            man@.archetypes.dom() == set![0u32],
            man@.archetypes[0].entities == Seq::<Entity>::empty(),
            man@.archetypes[0].capacity == 0,
    {
        Default::default()
    }

    /// The number of the archetype whose canonical set is `key`, where
    /// there is one.
    fn find(&self, key: &[ComponentId]) -> (r: Option<u32>)
        requires
            self.wf(),
        ensures
            match r {
                Some(k) => k < self@.next && self@.keys[k as int] == key@,
                None => !self@.keys.contains(key@),
            },
    {
        let mut k: usize = 0;
        while k < self.index.len()
            invariant
                k <= self.index@.len(),
                self.index@.len() == self.next,
                forall|i: int| 0 <= i < k ==> self@.keys[i] != key@,
            decreases self.index.len() - k,
        {
            if same_ids(self.index[k].as_slice(), key) {
                return Some(k as u32);
            }
            k = k + 1;
        }
        None
    }

    /// The archetype for exactly the set of component types that `ids`
    /// names, in any order; absent where no archetype has that set.
    pub fn get_one(&self, ids: &[ComponentId]) -> (r: Option<&Archetype>)
        requires
            self.wf(),
        ensures
            match r {
                Some(arch) => exists|k: u32|
                    k < self@.next && is_canonical_key(#[trigger] self@.keys[k as int], ids@)
                        && arch@ == self@.archetypes[k],
                None => forall|k: u32|
                    k < self@.next ==> !is_canonical_key(#[trigger] self@.keys[k as int], ids@),
            },
    {
        let key = canonical_key(ids);
        match self.find(key.as_slice()) {
            Some(k) => {
                let r = self.archetypes.get(&k);
                proof {
                    assert(self@.archetypes.contains_key(k));
                    assert(self.archetypes@.contains_key(k));
                    assert(is_canonical_key(self@.keys[k as int], ids@));
                }
                r
            },
            None => {
                proof {
                    assert forall|k: u32| k < self@.next implies !is_canonical_key(
                        #[trigger] self@.keys[k as int],
                        ids@,
                    ) by {
                        if is_canonical_key(self@.keys[k as int], ids@) {
                            lemma_canonical_key_unique(self@.keys[k as int], key@);
                            assert(self@.keys.contains(key@));
                        }
                    }
                }
                None
            },
        }
    }

    /// Adds `arch` at the end of the list of archetypes that hold
    /// `component`.
    fn add_holder(
        index: &mut HashMap<u64, Vec<ArchetypeId>>,
        component: ComponentId,
        arch: ArchetypeId,
    )
        ensures
            final(index)@.contains_key(component.0),
            listed(final(index)@, component) == listed(old(index)@, component).push(arch),
            forall|id: ComponentId|
                id != component ==> final(index)@.contains_key(id.0) == old(index)@.contains_key(
                    id.0,
                ) && #[trigger] listed(final(index)@, id) == listed(old(index)@, id),
    {
        let mut list: Vec<ArchetypeId> = match index.remove(&component.0) {
            Some(list) => list,
            None => Vec::new(),
        };
        list.push(arch);
        index.insert(component.0, list);
    }

    /// Enters the set `key`, which no archetype has yet, in both indexes,
    /// and returns the number under which its archetype is to be kept.
    fn enter(&mut self, key: Vec<ComponentId>) -> (number: u32)
        requires
            old(self).wf(),
            old(self)@.next < u32::MAX,
            strictly_increasing(key@),
        ensures
            number == old(self)@.next,
            final(self).archetypes == old(self).archetypes,
            final(self)@.next == old(self)@.next + 1,
            final(self)@.keys == old(self)@.keys.push(key@),
            final(self)@.by_component == component_index_of(old(self)@.keys.push(key@)),
    {
        let ghost old_keys = self@.keys;
        let fresh: u32 = self.next;
        proof {
            lemma_component_index_agrees(self.component_index@, old_keys);
        }
        let mut n: usize = 0;
        while n < key.len()
            invariant
                n <= key@.len(),
                strictly_increasing(key@),
                self.archetypes == old(self).archetypes,
                self.index == old(self).index,
                self.next == old(self).next,
                forall|id: ComponentId|
                    #[trigger] listed(self.component_index@, id) == if key@.take(n as int).contains(
                        id,
                    ) {
                        holders(old_keys, id).push(ArchetypeId(fresh))
                    } else {
                        holders(old_keys, id)
                    },
                forall|id: ComponentId|
                    self.component_index@.contains_key(id.0) ==> (#[trigger] listed(
                        self.component_index@,
                        id,
                    )).len() > 0,
            decreases key.len() - n,
        {
            let ghost before = self.component_index@;
            let ghost shorter = key@.take(n as int);
            let ghost longer = key@.take(n + 1);
            let component: ComponentId = key[n];
            Self::add_holder(&mut self.component_index, component, ArchetypeId(fresh));
            proof {
                assert(longer =~= shorter.push(component));
                assert(!shorter.contains(component)) by {
                    if shorter.contains(component) {
                        let j = choose|j: int| 0 <= j < shorter.len() && shorter[j] == component;
                        assert(key@[j].0 < key@[n as int].0);
                    }
                }
                assert forall|id: ComponentId|
                    #[trigger] listed(self.component_index@, id) == if longer.contains(id) {
                        holders(old_keys, id).push(ArchetypeId(fresh))
                    } else {
                        holders(old_keys, id)
                    } by {
                    assert(listed(before, id) == if shorter.contains(id) {
                        holders(old_keys, id).push(ArchetypeId(fresh))
                    } else {
                        holders(old_keys, id)
                    });
                    if id == component {
                        assert(longer[n as int] == component);
                    } else {
                        if shorter.contains(id) {
                            let j = choose|j: int| 0 <= j < shorter.len() && shorter[j] == id;
                            assert(longer[j] == id);
                        }
                        if longer.contains(id) {
                            let j = choose|j: int| 0 <= j < longer.len() && longer[j] == id;
                            assert(shorter[j] == id);
                        }
                    }
                }
                assert forall|id: ComponentId|
                    self.component_index@.contains_key(id.0) implies (#[trigger] listed(
                    self.component_index@,
                    id,
                )).len() > 0 by {
                    if id != component {
                        assert(listed(self.component_index@, id) == listed(before, id));
                    }
                }
            }
            n = n + 1;
        }
        let ghost entered = key@;
        self.index.push(key);
        self.next = fresh + 1;
        proof {
            assert(entered.take(entered.len() as int) =~= entered);
            assert(self@.keys =~= old_keys.push(entered));
            assert forall|id: ComponentId|
                #[trigger] listed(self.component_index@, id) == holders(
                    old_keys.push(entered),
                    id,
                ) by {
                lemma_holders_push(old_keys, entered, id);
            }
            lemma_component_index_agrees(self.component_index@, old_keys.push(entered));
        }
        fresh
    }

    /// The archetype for exactly the set of component types that `infos`
    /// names, in any order. Where no archetype has that set yet, a new, empty
    /// one is made for it, under the next free number, and entered in both
    /// indexes.
    ///
    /// The result may be changed by the caller; the manager then holds the
    /// changed archetype in the place of the one handed out.
    pub fn get_or_insert_with_info(&mut self, infos: Vec<ComponentInfo>) -> (arch: &mut Archetype)
        requires
            old(self).wf(),
            old(self)@.next < u32::MAX || exists|k: u32|
                k < old(self)@.next && is_canonical_key(
                    #[trigger] old(self)@.keys[k as int],
                    ids_of(infos@),
                ),
        ensures
            arch.wf(),
            is_canonical_key(arch@.ids, ids_of(infos@)),
            match old(self)@.position_of(arch@.ids) {
                Some(k) => arch@ == old(self)@.archetypes[k],
                None => {
                    &&& arch@.id == ArchetypeId(old(self)@.next as u32)
                    &&& arch@.entities == Seq::<Entity>::empty()
                    &&& arch@.capacity == 0
                    &&& is_canonical(arch@.infos(), infos@)
                },
            },
            final(self)@ == old(self)@.serving(arch@).with_archetype(arch@.id.0, final(arch)@),
            final(arch).wf() && final(arch)@.id == arch@.id && final(arch)@.ids == arch@.ids
                ==> final(self).wf(),
    {
        let ids = canonical_key(info_ids(infos.as_slice()).as_slice());
        let ghost key = ids@;
        let ghost old_view = self@;
        let number: u32 = match self.find(ids.as_slice()) {
            Some(k) => k,
            None => {
                proof {
                    assert forall|k: u32| k < old_view.next implies !is_canonical_key(
                        #[trigger] old_view.keys[k as int],
                        ids_of(infos@),
                    ) by {
                        if is_canonical_key(old_view.keys[k as int], ids_of(infos@)) {
                            lemma_canonical_key_unique(old_view.keys[k as int], key);
                            assert(old_view.keys.contains(key));
                        }
                    }
                }
                self.enter(ids)
            },
        };
        let ghost found = old_view.keys.contains(key);
        let ghost mid_map = self.archetypes@;
        proof {
            assert(is_canonical_key(key, ids_of(infos@)));
            assert(mid_map == old(self).archetypes@);
            assert(found ==> old_view.keys[number as int] == key);
            assert(mid_map.contains_key(number) <==> found) by {
                assert(old_view.archetypes.contains_key(number) <==> number < old_view.next);
            }
            assert forall|k: u32|
                k < old_view.next && is_canonical_key(
                    #[trigger] old_view.keys[k as int],
                    ids_of(infos@),
                ) implies k == number && found by {
                lemma_canonical_key_unique(old_view.keys[k as int], key);
                assert(old_view.keys.contains(key));
            }
            if found {
                assert(old_view.archetypes[number].inv());
                assert(old_view.archetypes[number] == mid_map[number]@);
            }
        }
        let arch = match self.archetypes.entry(number) {
            Entry::Occupied(entry) => entry.into_mut(),
            Entry::Vacant(entry) => {
                let made = Archetype::from_info(ArchetypeId(number), infos);
                proof {
                    lemma_canonical_key_unique(made@.ids, key);
                    lemma_with_new_keeps_inv(old_view, made@);
                }
                entry.insert(made)
            },
        };
        let ghost mid = if found {
            old_view
        } else {
            old_view.with_new(arch@)
        };
        proof {
            assert forall|after: ArchetypeView|
                after.inv() && after.id == arch@.id && after.ids == arch@.ids implies (
            #[trigger] mid.with_archetype(number, after)).inv() by {
                lemma_with_archetype_keeps_inv(mid, number, after);
            }
        }
        arch
    }

    /// The number of archetypes.
    pub fn len(&self) -> (r: usize)
        requires
            self.wf(),
        ensures
            r == self@.next,
    {
        self.index.len()
    }

    /// Whether all archetype identifiers have been handed out, so that no
    /// new archetype can be made.
    pub fn is_full(&self) -> (r: bool)
        ensures
            r == (self@.next == u32::MAX),
    {
        self.next == u32::MAX
    }

    /// Gives up the manager and returns what is left to do for the storage
    /// of its archetypes, archetype after archetype in the order of their
    /// identifiers.
    pub fn teardown(self) -> (steps: Vec<TeardownStep>)
        requires
            self.wf(),
        ensures
            step_views(steps@) == self@.teardown(),
    {
        let ghost view = self@;
        let mut archetypes = self.archetypes;
        let mut steps: Vec<TeardownStep> = Vec::new();
        let mut k: u32 = 0;
        proof {
            assert(step_views(steps@) =~= view.teardown_upto(0));
            assert forall|j: u32| j < view.next implies #[trigger] archetypes@.contains_key(j) by {
                assert(view.archetypes.contains_key(j));
            }
        }
        while k < self.next
            invariant
                k <= self.next,
                self.next == view.next,
                view.inv(),
                forall|j: u32| k <= j < view.next ==> #[trigger] archetypes@.contains_key(j),
                forall|j: u32|
                    k <= j < view.next ==> (#[trigger] archetypes@[j])@ == view.archetypes[j],
                step_views(steps@) == view.teardown_upto(k as nat),
            decreases self.next - k,
        {
            let ghost before = archetypes@;
            let ghost earlier = steps@;
            let arch = archetypes.remove(&k).unwrap();
            assert(arch == before[k]);
            assert(arch@.inv());
            let mut part = arch.teardown();
            let ghost added = part@;
            steps.append(&mut part);
            assert(step_views(steps@) =~= step_views(earlier) + step_views(added));
            k = k + 1;
        }
        steps
    }

    /// The archetype with the identifier `id`, where there is one.
    pub fn get_by_id(&self, id: &ArchetypeId) -> (r: Option<&Archetype>)
        ensures
            match r {
                Some(arch) => self@.archetypes.contains_key(id.0) && arch@ == self@.archetypes[id.0],
                None => !self@.archetypes.contains_key(id.0),
            },
    {
        self.archetypes.get(&id.0)
    }

    /// The archetypes that hold the component type `id`, in the order of
    /// their identifiers; absent where no archetype holds it.
    pub fn query_component(&self, id: ComponentId) -> (r: Option<&[ArchetypeId]>)
        ensures
            match r {
                Some(list) => self@.by_component.contains_key(id) && list@ == self@.by_component[id],
                None => !self@.by_component.contains_key(id),
            },
    {
        match self.component_index.get(&id.0) {
            Some(list) => Some(list.as_slice()),
            None => None,
        }
    }
}

} // verus!
