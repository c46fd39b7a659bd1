use vstd::prelude::*;
use crate::assoc::{AssocMap, KeyLike};
use crate::memory::{MemoryModuleTrait, MemoryStore, accepts, read_view, same_memory};
use crate::modules::{ComponentInstance, ComponentModule};
use crate::strings::join3;
use crate::types::{ComponentId, IdView, id_views};

verus! {

pub open spec fn exists_message(id: Seq<char>) -> Seq<char> {
    "Component with ID '"@ + id + "' already exists"@
}

/// Statistics about component counts
#[derive(Debug, Clone)]
pub struct ComponentCounts {
    pub total: usize,
    pub processing: usize,
    pub memory: usize,
}

/// The registry's memories after registering the memory component `instance`:
/// its memory joins them under its identifier, as a store holding the same
/// memory, and the others stay.
pub open spec fn memory_registered(before: &ComponentRegistry, after: &ComponentRegistry, instance: ComponentInstance) -> bool {
    &&& after.memory_map().dom() == before.memory_map().dom().insert(instance.id@)
    &&& same_memory(after.memory_map()[instance.id@], instance.module->Memory_0)
    &&& forall|k: IdView| k != instance.id@ && #[trigger] before.memory_map().contains_key(k) ==> after.memory_map()[k]
        == before.memory_map()[k]
}

/// Registering a memory component keeps its memory as it was handed in: the
/// registry's memory under its identifier reads, at every address, what the
/// registered memory reads there, and takes a write of a value exactly when
/// the registered memory would; the other memories stay as they were.
pub proof fn lemma_registered_memory_kept(
    before: &ComponentRegistry,
    after: &ComponentRegistry,
    instance: ComponentInstance,
)
    requires
        instance.module is Memory,
        memory_registered(before, after, instance),
    ensures
        after.memory_map().contains_key(instance.id@),
        after.memory_map()[instance.id@].id_view() == instance.module->Memory_0.id_view(),
        forall|a: Seq<char>| #[trigger] read_view(after.memory_map()[instance.id@], a) == read_view(instance.module->Memory_0, a),
        forall|v: crate::values::ValueView| #[trigger] accepts(after.memory_map()[instance.id@], v) == accepts(instance.module->Memory_0, v),
        forall|k: IdView| k != instance.id@ ==> (#[trigger] after.memory_map().contains_key(k) == before.memory_map().contains_key(k)),
{
    assert(after.memory_map().dom().contains(instance.id@));
}

/// Manages registration and storage of all components, keeping the memory
/// modules apart for direct access.
pub struct ComponentRegistry {
    components: AssocMap<ComponentId, ComponentInstance>,
    memory_modules: AssocMap<ComponentId, MemoryStore>,
}

/// Number of entries in `s` whose module is a processing module.
pub open spec fn count_processing(s: Seq<ComponentInstance>) -> nat
    decreases s.len(),
{
    if s.len() == 0 {
        0
    } else {
        count_processing(s.drop_last()) + if s.last().module is Processing { 1nat } else { 0nat }
    }
}

/// Number of entries in `s` whose module is a memory module.
pub open spec fn count_memory(s: Seq<ComponentInstance>) -> nat
    decreases s.len(),
{
    if s.len() == 0 {
        0
    } else {
        count_memory(s.drop_last()) + if s.last().module is Memory { 1nat } else { 0nat }
    }
}

pub proof fn lemma_counts_bounded(s: Seq<ComponentInstance>)
    ensures
        count_processing(s) + count_memory(s) == s.len(),
    decreases s.len(),
{
    if s.len() > 0 {
        lemma_counts_bounded(s.drop_last());
    }
}

impl ComponentRegistry {
    /// The registered components by identifier.
    pub closed spec fn components_map(&self) -> Map<IdView, ComponentInstance> {
        self.components.as_map()
    }

    /// The identifiers in registration order.
    pub closed spec fn id_order(&self) -> Seq<IdView> {
        self.components.key_seq()
    }

    /// The instances in registration order.
    pub closed spec fn instances(&self) -> Seq<ComponentInstance> {
        self.components.value_seq()
    }

    /// A component is registered exactly when its identifier is in the
    /// registration order.
    pub proof fn lemma_id_order(&self)
        ensures
            forall|k: IdView| #[trigger] self.components_map().contains_key(k) <==> self.id_order().contains(k),
    {
    }

    /// The memory modules kept apart, by identifier.
    pub closed spec fn memory_map(&self) -> Map<IdView, MemoryStore> {
        self.memory_modules.as_map()
    }

    pub fn new() -> (r: Self)
        ensures
            r.components_map() == Map::<IdView, ComponentInstance>::empty(),
            r.memory_map() == Map::<IdView, MemoryStore>::empty(),
    {
        ComponentRegistry { components: AssocMap::new(), memory_modules: AssocMap::new() }
    }

    /// Register a component instance; an identifier can be registered once.
    pub fn register_component(&mut self, instance: ComponentInstance) -> (r: Result<(), String>)
        ensures
            r is Ok <==> !old(self).components_map().contains_key(instance.id@),
            match r {
                Ok(_) => final(self).components_map() == old(self).components_map().insert(instance.id@, instance)
                    && (instance.module is Memory ==> memory_registered(old(self), final(self), instance))
                    && (instance.module is Processing ==> final(self).memory_map() == old(self).memory_map()),
                Err(e) => final(self).components_map() == old(self).components_map()
                    && final(self).memory_map() == old(self).memory_map()
                    && e@ == exists_message(instance.id@.0),
            },
    {
        if self.components.contains_key(&instance.id) {
            return Err(join3("Component with ID '", instance.id.id(), "' already exists"));
        }
        let id = instance.id.duplicate();
        match &instance.module {
            ComponentModule::Memory(memory_module) => {
                self.memory_modules.insert(id.duplicate(), memory_module.clone_module());
            },
            _ => {},
        }
        self.components.insert(id, instance);
        Ok(())
    }

    /// Get a component by ID
    pub fn get_component(&self, id: &ComponentId) -> (r: Option<&ComponentInstance>)
        ensures
            match r {
                Some(c) => self.components_map().contains_key(id@) && *c == self.components_map()[id@],
                None => !self.components_map().contains_key(id@),
            },
    {
        self.components.get(id)
    }

    /// Get all components
    pub fn components(&self) -> (r: &AssocMap<ComponentId, ComponentInstance>)
        ensures
            r.as_map() == self.components_map(),
            r.key_seq() == self.id_order(),
    {
        &self.components
    }

    /// Get memory modules
    pub fn memory_modules(&self) -> (r: &AssocMap<ComponentId, MemoryStore>)
        ensures
            r.as_map() == self.memory_map(),
    {
        &self.memory_modules
    }

    /// Check if a component exists
    pub fn has_component(&self, id: &ComponentId) -> (b: bool)
        ensures
            b == self.components_map().contains_key(id@),
    {
        self.components.contains_key(id)
    }

    /// Check if a processing component exists
    pub fn has_processing_component(&self, id: &ComponentId) -> (b: bool)
        ensures
            b == (self.components_map().contains_key(id@) && self.components_map()[id@].module is Processing),
    {
        match self.components.get(id) {
            Some(c) => c.is_processing(),
            None => false,
        }
    }

    /// Check if a memory component exists
    pub fn has_memory_component(&self, id: &ComponentId) -> (b: bool)
        ensures
            b == (self.components_map().contains_key(id@) && self.components_map()[id@].module is Memory),
    {
        match self.components.get(id) {
            Some(c) => c.is_memory(),
            None => false,
        }
    }

    /// Get all component IDs, in registration order
    pub fn component_ids(&self) -> (r: Vec<&ComponentId>)
        ensures
            r@.map_values(|c: &ComponentId| c@) == self.id_order(),
    {
        let mut r: Vec<&ComponentId> = Vec::new();
        let n = self.components.len();
        let mut i: usize = 0;
        while i < n
            invariant
                n == self.components.entries().len(),
                i <= n,
                r@.map_values(|c: &ComponentId| c@) == self.components.key_seq().take(i as int),
            decreases n - i,
        {
            let ghost before = r@;
            r.push(self.components.key_at(i));
            proof {
                assert(r@.map_values(|c: &ComponentId| c@) =~= before.map_values(|c: &ComponentId| c@).push(self.components.key_seq()[i as int]));
                assert(self.components.key_seq().take(i as int + 1) =~= self.components.key_seq().take(i as int).push(self.components.key_seq()[i as int]));
            }
            i = i + 1;
        }
        assert(self.components.key_seq().take(n as int) =~= self.components.key_seq());
        r
    }

    /// The identifiers of the components of one kind, in registration order.
    fn ids_of_kind(&self, processing: bool) -> (r: Vec<ComponentId>)
        ensures
            forall|v: IdView| id_views(r@).contains(v) <==> (self.components_map().contains_key(v)
                && (self.components_map()[v].module is Processing) == processing),
            id_views(r@).no_duplicates(),
    {
        let mut r: Vec<ComponentId> = Vec::new();
        let n = self.components.len();
        let ghost ks = self.components.key_seq();
        let ghost vs = self.components.value_seq();
        let mut i: usize = 0;
        while i < n
            invariant
                n == self.components.entries().len(),
                ks == self.components.key_seq(),
                vs == self.components.value_seq(),
                i <= n,
                self.components.wf(),
                id_views(r@).no_duplicates(),
                forall|v: IdView| id_views(r@).contains(v) <==> exists|j: int| 0 <= j < i && #[trigger] ks[j] == v
                    && (vs[j].module is Processing) == processing,
            decreases n - i,
        {
            let ghost before = id_views(r@);
            if self.components.value_at(i).is_processing() == processing {
                r.push(self.components.key_at(i).duplicate());
                proof {
                    assert(id_views(r@) =~= before.push(ks[i as int]));
                    assert forall|a: int, b: int| 0 <= a < id_views(r@).len() && 0 <= b < id_views(r@).len() && a != b
                        implies id_views(r@)[a] != id_views(r@)[b] by {
                        if a == before.len() as int || b == before.len() as int {
                            let o = if a == before.len() as int { b } else { a };
                            if before[o] == ks[i as int] {
                                assert(before.contains(ks[i as int]));
                                let j = choose|j: int| 0 <= j < i && #[trigger] ks[j] == ks[i as int]
                                    && (vs[j].module is Processing) == processing;
                            }
                        }
                    }
                }
            }
            proof {
                assert forall|v: IdView| id_views(r@).contains(v) <==> exists|j: int| 0 <= j < i + 1 && #[trigger] ks[j] == v
                    && (vs[j].module is Processing) == processing by {
                    if id_views(r@).contains(v) && v != ks[i as int] {
                        let rv = id_views(r@);
                        let x = choose|x: int| 0 <= x < rv.len() && #[trigger] rv[x] == v;
                        assert(before[x] == v);
                        assert(before.contains(v));
                    }
                    if exists|j: int| 0 <= j < i + 1 && #[trigger] ks[j] == v && (vs[j].module is Processing) == processing {
                        let j = choose|j: int| 0 <= j < i + 1 && #[trigger] ks[j] == v && (vs[j].module is Processing) == processing;
                        if j < i {
                            assert(before.contains(v));
                            let x = choose|x: int| 0 <= x < before.len() && before[x] == v;
                            assert(id_views(r@)[x] == v);
                        } else {
                            assert(id_views(r@)[id_views(r@).len() - 1] == v);
                        }
                    }
                }
            }
            i = i + 1;
        }
        proof {
            assert forall|v: IdView| id_views(r@).contains(v) <==> (self.components_map().contains_key(v)
                && (self.components_map()[v].module is Processing) == processing) by {
                if self.components_map().contains_key(v) {
                    let k = ks.index_of(v);
                    self.components.lemma_view_at(k);
                }
                if exists|j: int| 0 <= j < n && #[trigger] ks[j] == v && (vs[j].module is Processing) == processing {
                    let j = choose|j: int| 0 <= j < n && #[trigger] ks[j] == v && (vs[j].module is Processing) == processing;
                    self.components.lemma_view_at(j);
                }
            }
        }
        r
    }

    /// Get processing component IDs
    pub fn processing_component_ids(&self) -> (r: Vec<ComponentId>)
        ensures
            forall|v: IdView| id_views(r@).contains(v) <==> (self.components_map().contains_key(v)
                && self.components_map()[v].module is Processing),
            id_views(r@).no_duplicates(),
    {
        self.ids_of_kind(true)
    }

    /// Get memory component IDs
    pub fn memory_component_ids(&self) -> (r: Vec<ComponentId>)
        ensures
            forall|v: IdView| id_views(r@).contains(v) <==> (self.components_map().contains_key(v)
                && self.components_map()[v].module is Memory),
            id_views(r@).no_duplicates(),
    {
        self.ids_of_kind(false)
    }

    /// Remove a component by ID, together with its memory module
    pub fn remove_component(&mut self, id: &ComponentId) -> (r: Option<ComponentInstance>)
        ensures
            final(self).components_map() == old(self).components_map().remove(id@),
            final(self).memory_map() == old(self).memory_map().remove(id@),
            match r {
                Some(c) => old(self).components_map().contains_key(id@) && c == old(self).components_map()[id@],
                None => !old(self).components_map().contains_key(id@),
            },
    {
        self.memory_modules.remove(id);
        self.components.remove(id)
    }

    /// Get component count by type
    pub fn component_counts(&self) -> (r: ComponentCounts)
        ensures
            r.total == self.components_map().len(),
            r.processing == count_processing(self.instances()),
            r.memory == count_memory(self.instances()),
    {
        let n = self.components.len();
        let mut processing: usize = 0;
        let mut memory: usize = 0;
        let mut i: usize = 0;
        while i < n
            invariant
                n == self.components.entries().len(),
                i <= n,
                processing == count_processing(self.components.value_seq().take(i as int)),
                memory == count_memory(self.components.value_seq().take(i as int)),
            decreases n - i,
        {
            proof {
                let t = self.components.value_seq().take(i as int + 1);
                assert(t.drop_last() =~= self.components.value_seq().take(i as int));
                lemma_counts_bounded(self.components.value_seq().take(i as int));
            }
            if self.components.value_at(i).is_processing() {
                processing = processing + 1;
            } else {
                memory = memory + 1;
            }
            i = i + 1;
        }
        assert(self.components.value_seq().take(n as int) =~= self.components.value_seq());
        ComponentCounts { total: n, processing, memory }
    }

    /// Clear all components
    pub fn clear(&mut self)
        ensures
            final(self).components_map() == Map::<IdView, ComponentInstance>::empty(),
            final(self).memory_map() == Map::<IdView, MemoryStore>::empty(),
    {
        self.components.clear();
        self.memory_modules.clear();
    }

    /// Check registry consistency: the memory modules kept apart are exactly
    /// those of the registered memory components.
    pub fn validate_consistency(&self) -> (r: Result<(), String>)
        ensures
            r is Ok <==> (forall|v: IdView| #[trigger] self.memory_map().contains_key(v) ==>
                self.components_map().contains_key(v) && self.components_map()[v].module is Memory)
                && (forall|v: IdView| #[trigger] self.components_map().contains_key(v)
                && self.components_map()[v].module is Memory ==> self.memory_map().contains_key(v)),
    {
        let m = self.memory_modules.len();
        let mut i: usize = 0;
        while i < m
            invariant
                m == self.memory_modules.entries().len(),
                i <= m,
                self.memory_modules.wf(),
                forall|j: int| 0 <= j < i ==> self.components.as_map().contains_key(#[trigger] self.memory_modules.key_seq()[j])
                    && self.components.as_map()[self.memory_modules.key_seq()[j]].module is Memory,
            decreases m - i,
        {
            let memory_id = self.memory_modules.key_at(i);
            match self.components.get(memory_id) {
                None => {
                    proof {
                        self.memory_modules.lemma_view_at(i as int);
                        assert(self.memory_modules.key_seq()[i as int] == memory_id@);
                        assert(self.memory_map().contains_key(memory_id@));
                    }
                    return Err(join3("Memory module '", memory_id.id(), "' has no corresponding component instance"));
                },
                Some(instance) => {
                    if !instance.is_memory() {
                        proof {
                            self.memory_modules.lemma_view_at(i as int);
                            assert(self.memory_modules.key_seq()[i as int] == memory_id@);
                            assert(self.memory_map().contains_key(memory_id@));
                        }
                        return Err(join3("Component '", memory_id.id(), "' has memory module but is not a memory component"));
                    }
                },
            }
            i = i + 1;
        }
        let n = self.components.len();
        let mut j: usize = 0;
        while j < n
            invariant
                n == self.components.entries().len(),
                j <= n,
                self.components.wf(),
                forall|k: int| 0 <= k < j && (#[trigger] self.components.value_seq()[k]).module is Memory
                    ==> self.memory_modules.as_map().contains_key(self.components.key_seq()[k]),
            decreases n - j,
        {
            let id = self.components.key_at(j);
            if self.components.value_at(j).is_memory() && !self.memory_modules.contains_key(id) {
                proof {
                    self.components.lemma_view_at(j as int);
                    assert(self.components.key_seq()[j as int] == id@);
                    assert(self.components_map().contains_key(id@));
                }
                return Err(join3("Memory component '", id.id(), "' has no corresponding memory module"));
            }
            j = j + 1;
        }
        proof {
            assert forall|v: IdView| #[trigger] self.memory_map().contains_key(v) implies
                self.components_map().contains_key(v) && self.components_map()[v].module is Memory by {
                let k = self.memory_modules.key_seq().index_of(v);
                assert(self.memory_modules.key_seq()[k] == v);
            }
            assert forall|v: IdView| #[trigger] self.components_map().contains_key(v)
                && self.components_map()[v].module is Memory implies self.memory_map().contains_key(v) by {
                let k = self.components.key_seq().index_of(v);
                self.components.lemma_view_at(k);
            }
        }
        Ok(())
    }
}

impl Default for ComponentRegistry {
    fn default() -> (r: Self)
        ensures
            r.components_map() == Map::<IdView, ComponentInstance>::empty(),
            r.memory_map() == Map::<IdView, MemoryStore>::empty(),
    {
        Self::new()
    }
}

impl ComponentRegistry {
    /// Puts back the memory modules after a component has used them.
    pub(crate) fn replace_memory_modules(&mut self, modules: AssocMap<ComponentId, MemoryStore>)
        ensures
            final(self).memory_map() == modules.as_map(),
            final(self).components_map() == old(self).components_map(),
            final(self).id_order() == old(self).id_order(),
    {
        self.memory_modules = modules;
    }

    /// Every memory module takes its snapshot.
    pub(crate) fn snapshot_memory_modules(&mut self)
        ensures
            crate::engine::all_snapshotted(old(self).memory_map(), final(self).memory_map()),
            final(self).components_map() == old(self).components_map(),
            final(self).id_order() == old(self).id_order(),
    {
        let ghost m0 = self.memory_map();
        let ghost ks = self.memory_modules.key_seq();
        let n = self.memory_modules.len();
        let mut i: usize = 0;
        while i < n
            invariant
                n == ks.len(),
                i <= n,
                ks == self.memory_modules.key_seq(),
                ks.no_duplicates(),
                self.memory_map().dom() == m0.dom(),
                forall|k: IdView| #[trigger] self.memory_map().contains_key(k) ==> if ks.index_of(k) < i {
                    self.memory_map()[k].snapshot_state() == m0[k].current() && self.memory_map()[k].current()
                        == m0[k].current() && self.memory_map()[k].data_kind() == m0[k].data_kind()
                        && self.memory_map()[k].id_view() == m0[k].id_view()
                } else {
                    self.memory_map()[k] == m0[k]
                },
                self.components_map() == old(self).components_map(),
                self.id_order() == old(self).id_order(),
            decreases n - i,
        {
            proof {
                self.memory_modules.lemma_view_at(i as int);
            }
            let kind = self.memory_modules.value_at(i).kind();
            let ghost kv = ks[i as int];
            let mut store = self.memory_modules.set_value_at(i, MemoryStore::new("", kind));
            store.create_snapshot();
            self.memory_modules.set_value_at(i, store);
            proof {
                crate::assoc::lemma_index_of_distinct(ks, i as int);
                assert forall|k: IdView| #[trigger] self.memory_map().contains_key(k) implies if ks.index_of(k) < i + 1 {
                    self.memory_map()[k].snapshot_state() == m0[k].current() && self.memory_map()[k].current()
                        == m0[k].current() && self.memory_map()[k].data_kind() == m0[k].data_kind()
                        && self.memory_map()[k].id_view() == m0[k].id_view()
                } else {
                    self.memory_map()[k] == m0[k]
                } by {
                    if k != kv {
                        let x = ks.index_of(k);
                        crate::assoc::lemma_index_of_distinct(ks, x);
                    }
                }
                assert(self.memory_map().dom() =~= m0.dom());
            }
            i = i + 1;
        }
        proof {
            assert forall|k: IdView| #[trigger] self.memory_map().contains_key(k) implies ks.index_of(k) < n by {
                assert(ks.contains(k));
            }
        }
    }
}

impl ComponentRegistry {
    /// The components of one kind, by identifier.
    fn instances_of_kind(&self, processing: bool) -> (r: AssocMap<ComponentId, &ComponentInstance>)
        ensures
            forall|k: IdView| #[trigger] r.as_map().contains_key(k) <==> (self.components_map().contains_key(k)
                && (self.components_map()[k].module is Processing) == processing),
            forall|k: IdView| #[trigger] r.as_map().contains_key(k) ==> *r.as_map()[k] == self.components_map()[k],
    {
        let mut r: AssocMap<ComponentId, &ComponentInstance> = AssocMap::new();
        let n = self.components.len();
        let ghost ks = self.components.key_seq();
        let mut i: usize = 0;
        while i < n
            invariant
                n == self.components.entries().len(),
                i <= n,
                self.components.wf(),
                ks == self.components.key_seq(),
                forall|k: IdView| #[trigger] r.as_map().contains_key(k) <==> (ks.take(i as int).contains(k)
                    && (self.components_map()[k].module is Processing) == processing),
                forall|k: IdView| #[trigger] r.as_map().contains_key(k) ==> *r.as_map()[k] == self.components_map()[k],
            decreases n - i,
        {
            proof {
                self.components.lemma_view_at(i as int);
                crate::assoc::lemma_take_one_more(ks, i as int);
            }
            let key = self.components.key_at(i);
            let instance = self.components.value_at(i);
            if instance.is_processing() == processing {
                r.insert(key.duplicate(), instance);
            }
            i = i + 1;
        }
        proof {
            assert(ks.take(n as int) =~= ks);
            assert forall|k: IdView| self.components_map().contains_key(k) <==> ks.contains(k) by {
                if self.components_map().contains_key(k) {
                    let x = ks.index_of(k);
                }
            }
        }
        r
    }

    /// Get all processing components, by identifier
    pub fn processing_components(&self) -> (r: AssocMap<ComponentId, &ComponentInstance>)
        ensures
            forall|k: IdView| #[trigger] r.as_map().contains_key(k) <==> (self.components_map().contains_key(k)
                && self.components_map()[k].module is Processing),
            forall|k: IdView| #[trigger] r.as_map().contains_key(k) ==> *r.as_map()[k] == self.components_map()[k],
    {
        self.instances_of_kind(true)
    }

    /// Get all memory components, by identifier
    pub fn memory_component_instances(&self) -> (r: AssocMap<ComponentId, &ComponentInstance>)
        ensures
            forall|k: IdView| #[trigger] r.as_map().contains_key(k) <==> (self.components_map().contains_key(k)
                && self.components_map()[k].module is Memory),
            forall|k: IdView| #[trigger] r.as_map().contains_key(k) ==> *r.as_map()[k] == self.components_map()[k],
    {
        self.instances_of_kind(false)
    }
}

} // verus!
