use vstd::prelude::*;
use crate::assoc::{AssocMap, KeyLike, lemma_index_of_distinct, lemma_take_one_more};
use crate::components::spec_names;
use crate::connections::{check_required_inputs, connection_view, memory_view, driven, drivers_unique, is_driven, lemma_connect_keeps_drivers_unique, required_message, required_unconnected, targets_or_empty};
use crate::manager::{ComponentManager, counter_after, generated_id, not_found_message, required_port_missing};
use crate::maps::string_views;
use crate::memory::MemoryData;
use crate::modules::{ComponentInstance, ComponentModule, module_copy};
use crate::registry::{count_memory, count_processing, lemma_counts_bounded};
use crate::strings::{decimal, decimal_string, join3, join5, concat_strs, owned, outcome};
use crate::traits::{Component, MemoryComponent, memory_ports_check};
use crate::types::{ComponentId, IdView, InputPort, MemoryPort, OutputPort, PortRef, PortView, id_views, port_views};
use crate::engine::CycleEngine;
use crate::config::ConcurrencyMode;
use crate::components::ProcessorModule;
use crate::memory::MemoryStore;
use crate::port_validator::{PortValidator, has_input_port, has_memory_port, has_output_port, memory_port_message, source_port_message, target_port_message};

verus! {

/// What follows the last `::` of a type path, scanning the way `split("::")`
/// does: left to right, separators not overlapping.
pub open spec fn last_segment(s: Seq<char>) -> Seq<char> {
    last_piece(s, Seq::empty())
}

/// The last piece of `s` when the piece read so far is `piece`.
pub open spec fn last_piece(s: Seq<char>, piece: Seq<char>) -> Seq<char>
    decreases s.len(),
{
    if s.len() == 0 {
        piece
    } else if s.len() >= 2 && s[0] == ':' && s[1] == ':' {
        last_piece(s.skip(2), Seq::empty())
    } else {
        last_piece(s.skip(1), piece.push(s[0]))
    }
}

/// The last `::`-separated piece of a type path.
pub fn last_path_segment(path: &str) -> (r: &str)
    ensures
        r@ == last_segment(path@),
{
    let n = path.unicode_len();
    let mut start: usize = 0;
    let mut i: usize = 0;
    assert(path@.skip(0) =~= path@);
    assert(path@.subrange(0, 0) =~= Seq::<char>::empty());
    while i < n
        invariant
            n == path@.len(),
            start <= i <= n,
            last_segment(path@) == last_piece(path@.skip(i as int), path@.subrange(start as int, i as int)),
        decreases n - i,
    {
        let ghost rest = path@.skip(i as int);
        if i + 1 < n && path.get_char(i) == ':' && path.get_char(i + 1) == ':' {
            proof {
                assert(rest[0] == ':' && rest[1] == ':');
                assert(rest.skip(2) =~= path@.skip(i + 2));
                assert(path@.subrange(i + 2, i + 2) =~= Seq::<char>::empty());
            }
            i = i + 2;
            start = i;
        } else {
            proof {
                assert(rest.skip(1) =~= path@.skip(i + 1));
                assert(path@.subrange(start as int, i as int).push(rest[0]) =~= path@.subrange(start as int, i + 1));
            }
            i = i + 1;
        }
    }
    proof {
        assert(path@.skip(n as int) =~= Seq::<char>::empty());
    }
    path.substring_char(start, n)
}

/// Each connected output drives exactly one input, and each input is driven
/// once.
pub open spec fn links_one_to_one(c: Map<PortView, Seq<PortView>>) -> bool {
    drivers_unique(c) && forall|k: PortView| #[trigger] c.contains_key(k) ==> c[k].len() == 1
}

/// What connecting an output port to an input port of the simulation gives.
pub open spec fn sim_connect_check(
    cm: Map<IdView, ComponentInstance>,
    c: Map<PortView, Seq<PortView>>,
    s: PortView,
    t: PortView,
) -> Result<(), Seq<char>> {
    if !cm.contains_key(s.0) {
        Err("Source component '"@ + s.0.0 + "' not found"@)
    } else if !cm.contains_key(t.0) {
        Err("Target component '"@ + t.0.0 + "' not found"@)
    } else if !(cm[s.0].module is Processing) {
        Err("Source component '"@ + s.0.0 + "' is not a processing component"@)
    } else if !spec_names(cm[s.0].module->Processing_0.output_ports@).contains(s.1) {
        Err("Component '"@ + s.0.0 + "' does not have output port '"@ + s.1 + "'"@)
    } else if !(cm[t.0].module is Processing) {
        Err("Target component '"@ + t.0.0 + "' is not a processing component"@)
    } else if !spec_names(cm[t.0].module->Processing_0.input_ports@).contains(t.1) {
        Err("Component '"@ + t.0.0 + "' does not have input port '"@ + t.1 + "'"@)
    } else if c.contains_key(s) {
        Err("Output port '"@ + s.1 + "' on component '"@ + s.0.0 + "' is already connected"@)
    } else if is_driven(c, t) {
        Err("Input port '"@ + t.1 + "' on component '"@ + t.0.0 + "' is already connected"@)
    } else {
        Ok(())
    }
}

/// What wiring a memory port of the simulation to a memory component gives;
/// `by_memory_port` tells which of the two handles named the port.
pub open spec fn sim_memory_check(
    cm: Map<IdView, ComponentInstance>,
    mc: Map<PortView, IdView>,
    p: PortView,
    m: IdView,
    by_memory_port: bool,
) -> Result<(), Seq<char>> {
    if !cm.contains_key(m) {
        Err("Memory component '"@ + m.0 + "' not found"@)
    } else if !(cm[m].module is Memory) {
        Err("Component '"@ + m.0 + "' is not a memory component"@)
    } else if !cm.contains_key(p.0) {
        Err("Source component '"@ + p.0.0 + "' not found"@)
    } else if mc.contains_key(p) {
        Err("Memory port '"@ + p.1 + "' on component '"@ + p.0.0 + "' is already connected"@)
    } else if !(cm[p.0].module is Processing) {
        if by_memory_port {
            Err("Source component '"@ + p.0.0 + "' is not a processing component"@)
        } else {
            Err("Only processing components can connect to memory components"@)
        }
    } else if !spec_names(cm[p.0].module->Processing_0.memory_ports@).contains(p.1) {
        Err("Component '"@ + p.0.0 + "' does not have memory port '"@ + p.1 + "'"@)
    } else {
        Ok(())
    }
}

/// The component `id` holds, as a processing module, a module that its type's
/// `into_module` returned.
pub open spec fn holds_module_of<T: Component>(cm: Map<IdView, ComponentInstance>, id: IdView) -> bool {
    &&& cm.contains_key(id)
    &&& cm[id].module is Processing
    &&& call_ensures(T::into_module, (), cm[id].module->Processing_0)
}

/// The component `id` holds, as a memory module, the memory that its type's
/// `into_memory_module` returned for `type_path`: the same identifier, state
/// and snapshot, and the type's data kind.
pub open spec fn holds_memory_of<T: MemoryComponent + MemoryData>(
    cm: Map<IdView, ComponentInstance>,
    id: IdView,
    type_path: &str,
) -> bool {
    &&& cm.contains_key(id)
    &&& cm[id].module is Memory
    &&& exists|mm: crate::memory::MemoryModule<T>| #[trigger] call_ensures(T::into_memory_module, (type_path,), mm)
        && cm[id].module->Memory_0.id_view() == mm.id_view() && cm[id].module->Memory_0.current() == mm.current()
        && cm[id].module->Memory_0.snapshot_state() == mm.snapshot_state() && (mm.wf()
        ==> cm[id].module->Memory_0.data_kind() == T::data_tag())
}

/// A component added by its type keeps the module the type gives: when the
/// type's `into_module` is known to give `m`, the component's module is `m`,
/// with every port `m` declares; and each memory port of that module can be
/// wired, through either kind of handle, to any memory component of the
/// simulation while the port is still free.
pub proof fn lemma_added_component_keeps_module<T: Component>(
    cm: Map<IdView, ComponentInstance>,
    mc: Map<PortView, IdView>,
    id: IdView,
    port: Seq<char>,
    memory: IdView,
)
    requires
        holds_module_of::<T>(cm, id),
    ensures
        forall|m: ProcessorModule| (forall|x: ProcessorModule| #[trigger] call_ensures(T::into_module, (), x) ==> x == m)
            ==> cm[id].module == ComponentModule::Processing(m),
        cm.contains_key(memory) && cm[memory].module is Memory && spec_names(
            cm[id].module->Processing_0.memory_ports@,
        ).contains(port) && !mc.contains_key((id, port)) ==> sim_memory_check(cm, mc, (id, port), memory, true) is Ok
            && sim_memory_check(cm, mc, (id, port), memory, false) is Ok,
{
    assert forall|m: ProcessorModule| (forall|x: ProcessorModule| #[trigger] call_ensures(T::into_module, (), x) ==> x == m)
        implies cm[id].module == ComponentModule::Processing(m) by {
        assert(call_ensures(T::into_module, (), cm[id].module->Processing_0));
    }
}

/// Wiring a memory port named by a memory port handle and by an output port
/// handle are the same check: both succeed or both fail, and with the same
/// error unless the component is not a processing component.
pub proof fn lemma_memory_wirings_agree(cm: Map<IdView, ComponentInstance>, mc: Map<PortView, IdView>, p: PortView, m: IdView)
    ensures
        sim_memory_check(cm, mc, p, m, true) is Ok <==> sim_memory_check(cm, mc, p, m, false) is Ok,
        (cm.contains_key(p.0) && cm[p.0].module is Processing) || !cm.contains_key(p.0) || mc.contains_key(p)
            || !cm.contains_key(m) || !(cm[m].module is Memory) ==> sim_memory_check(cm, mc, p, m, true)
            == sim_memory_check(cm, mc, p, m, false),
{
}

/// The `i`-th input port of the module is required and no source drives that
/// port of the component.
pub open spec fn required_port_undriven(m: ComponentModule, c: Map<PortView, Seq<PortView>>, id: IdView, i: int) -> bool {
    match m {
        ComponentModule::Processing(p) => 0 <= i < p.input_ports@.len() && p.input_ports@[i].required
            && !is_driven(c, (id, p.input_ports@[i].name@)),
        ComponentModule::Memory(_) => false,
    }
}

/// A processing component's module is registered under its name, and every
/// required input port of that template is driven.
pub open spec fn component_ports_ok(
    tm: Map<Seq<char>, ComponentModule>,
    cm: Map<IdView, ComponentInstance>,
    c: Map<PortView, Seq<PortView>>,
    id: IdView,
) -> bool {
    match cm[id].module {
        ComponentModule::Processing(p) => tm.contains_key(p.name@) && forall|i: int| !#[trigger] required_port_undriven(
            tm[p.name@],
            c,
            id,
            i,
        ),
        ComponentModule::Memory(_) => true,
    }
}

/// The error text is what checking the component's required ports reports.
pub open spec fn is_ports_error(
    tm: Map<Seq<char>, ComponentModule>,
    cm: Map<IdView, ComponentInstance>,
    c: Map<PortView, Seq<PortView>>,
    id: IdView,
    e: Seq<char>,
) -> bool {
    match cm[id].module {
        ComponentModule::Processing(p) => if !tm.contains_key(p.name@) {
            e == not_found_message(p.name@)
        } else {
            exists|i: int| #[trigger] required_port_undriven(tm[p.name@], c, id, i) && e == "Required input port '"@
                + tm[p.name@]->Processing_0.input_ports@[i].name@ + "' is not connected for component type '"@
                + p.name@ + "'"@
        },
        ComponentModule::Memory(_) => false,
    }
}

/// Statistics about the simulation configuration
#[derive(Debug, Clone)]
pub struct SimulationStats {
    pub total_components: usize,
    pub processing_components: usize,
    pub memory_components: usize,
    pub total_connections: usize,
    pub memory_connections: usize,
}

/// Imperative API for creating and configuring simulations
pub struct Simulation {
    /// Component manager for creating instances from registered modules
    component_manager: ComponentManager,
    /// Created component instances mapped by ID
    components: AssocMap<ComponentId, ComponentInstance>,
    /// Port connections: (source_id, source_port) -> targets
    connections: Links,
    /// Memory connections: (component_id, port) -> memory_id
    memory_connections: AssocMap<PortRef, ComponentId>,
    /// Counter for automatic ID generation
    id_counter: u64,
}

/// The port connections of a simulation: (source_id, source_port) -> targets.
struct Links {
    map: AssocMap<PortRef, Vec<PortRef>>,
}

impl Links {
    /// Whatever calls built the simulation, its connections are one to one:
    /// each connected output drives exactly one input, and no input has two
    /// drivers.
    #[verifier::type_invariant]
    spec fn one_to_one(self) -> bool {
        links_one_to_one(connection_view(self.map))
    }
}

/// The ports of the component driven by some connection, by name.
fn connected_inputs(connections: &AssocMap<PortRef, Vec<PortRef>>, id: &ComponentId) -> (r: Vec<String>)
    ensures
        forall|p: Seq<char>| string_views(r@).contains(p) <==> is_driven(connection_view(*connections), (id@, p)),
{
    let ghost c = connection_view(*connections);
    let mut r: Vec<String> = Vec::new();
    let n = connections.len();
    let mut i: usize = 0;
    while i < n
        invariant
            n == connections.entries().len(),
            i <= n,
            connections.wf(),
            c == connection_view(*connections),
            forall|p: Seq<char>| string_views(r@).contains(p) <==> exists|a: int, b: int| 0 <= a < i && 0 <= b
                < connections.entries()[a].1@.len() && #[trigger] port_view_at(connections.entries()[a].1, b) == (id@, p),
        decreases n - i,
    {
        let targets = connections.value_at(i);
        let mut j: usize = 0;
        while j < targets.len()
            invariant
                j <= targets@.len(),
                i < n,
                n == connections.entries().len(),
                *targets == connections.entries()[i as int].1,
                forall|p: Seq<char>| string_views(r@).contains(p) <==> (exists|a: int, b: int| 0 <= a < i && 0 <= b
                    < connections.entries()[a].1@.len() && #[trigger] port_view_at(connections.entries()[a].1, b) == (
                    id@,
                    p,
                )) || (exists|b: int| 0 <= b < j && #[trigger] port_view_at(*targets, b) == (id@, p)),
            decreases targets@.len() - j,
        {
            let ghost before = string_views(r@);
            if targets[j].0.same_as(id) {
                r.push(targets[j].1.clone());
                proof {
                    assert(string_views(r@) =~= before.push(targets@[j as int].1@));
                    assert(port_view_at(*targets, j as int) == (id@, targets@[j as int].1@));
                    assert forall|p: Seq<char>| string_views(r@).contains(p) implies (exists|a: int, b: int| 0 <= a < i
                        && 0 <= b < connections.entries()[a].1@.len() && #[trigger] port_view_at(
                        connections.entries()[a].1,
                        b,
                    ) == (id@, p)) || (exists|b: int| 0 <= b < j + 1 && #[trigger] port_view_at(*targets, b) == (
                        id@,
                        p,
                    )) by {
                        if p == targets@[j as int].1@ {
                            assert(port_view_at(*targets, j as int) == (id@, p));
                        } else {
                            let x = string_views(r@).index_of(p);
                            assert(x < before.len());
                            assert(before[x] == p);
                            assert(before.contains(p));
                        }
                    }
                    assert forall|p: Seq<char>| (exists|a: int, b: int| 0 <= a < i && 0 <= b
                        < connections.entries()[a].1@.len() && #[trigger] port_view_at(connections.entries()[a].1, b) == (
                        id@,
                        p,
                    )) implies string_views(r@).contains(p) by {
                        assert(before.contains(p));
                        let x = before.index_of(p);
                        assert(string_views(r@)[x] == p);
                    }
                    assert forall|p: Seq<char>| (exists|b: int| 0 <= b < j + 1 && #[trigger] port_view_at(*targets, b)
                        == (id@, p)) implies string_views(r@).contains(p) by {
                        let b = choose|b: int| 0 <= b < j + 1 && #[trigger] port_view_at(*targets, b) == (id@, p);
                        if b == j {
                            assert(string_views(r@)[before.len() as int] == p);
                        } else {
                            assert(exists|b: int| 0 <= b < j && #[trigger] port_view_at(*targets, b) == (id@, p));
                            assert(before.contains(p));
                            let x = before.index_of(p);
                            assert(string_views(r@)[x] == p);
                        }
                    }
                }
            } else {
                proof {
                    assert(port_view_at(*targets, j as int).0 != id@);
                    assert forall|p: Seq<char>| (exists|b: int| 0 <= b < j + 1 && #[trigger] port_view_at(*targets, b)
                        == (id@, p)) implies string_views(r@).contains(p) by {
                        let b = choose|b: int| 0 <= b < j + 1 && #[trigger] port_view_at(*targets, b) == (id@, p);
                        assert(b != j);
                        assert(exists|b: int| 0 <= b < j && #[trigger] port_view_at(*targets, b) == (id@, p));
                    }
                    assert forall|p: Seq<char>| string_views(r@).contains(p) implies (exists|a: int, b: int| 0 <= a < i
                        && 0 <= b < connections.entries()[a].1@.len() && #[trigger] port_view_at(
                        connections.entries()[a].1,
                        b,
                    ) == (id@, p)) || (exists|b: int| 0 <= b < j + 1 && #[trigger] port_view_at(*targets, b) == (
                        id@,
                        p,
                    )) by {
                        if exists|b: int| 0 <= b < j && #[trigger] port_view_at(*targets, b) == (id@, p) {
                            let b = choose|b: int| 0 <= b < j && #[trigger] port_view_at(*targets, b) == (id@, p);
                            assert(0 <= b < j + 1);
                        }
                    }
                }
            }
            j = j + 1;
        }
        proof {
            assert forall|p: Seq<char>| string_views(r@).contains(p) <==> exists|a: int, b: int| 0 <= a < i + 1 && 0
                <= b < connections.entries()[a].1@.len() && #[trigger] port_view_at(connections.entries()[a].1, b) == (
                id@,
                p,
            ) by {
                if exists|a: int, b: int| 0 <= a < i + 1 && 0 <= b < connections.entries()[a].1@.len()
                    && #[trigger] port_view_at(connections.entries()[a].1, b) == (id@, p) {
                    let (a, b) = choose|a: int, b: int| 0 <= a < i + 1 && 0 <= b < connections.entries()[a].1@.len()
                        && #[trigger] port_view_at(connections.entries()[a].1, b) == (id@, p);
                    if a == i {
                        assert(port_view_at(*targets, b) == (id@, p));
                    }
                }
            }
        }
        i = i + 1;
    }
    proof {
        assert forall|p: Seq<char>| string_views(r@).contains(p) <==> is_driven(c, (id@, p)) by {
            if string_views(r@).contains(p) {
                let (a, b) = choose|a: int, b: int| 0 <= a < n && 0 <= b < connections.entries()[a].1@.len()
                    && #[trigger] port_view_at(connections.entries()[a].1, b) == (id@, p);
                connections.lemma_view_at(a);
                let k = connections.key_seq()[a];
                assert(c[k][b] == (id@, p));
                assert(c[k].contains((id@, p)));
            }
            if is_driven(c, (id@, p)) {
                let k = choose|k: PortView| c.contains_key(k) && #[trigger] c[k].contains((id@, p));
                let a = connections.key_seq().index_of(k);
                connections.lemma_view_at(a);
                let b = c[k].index_of((id@, p));
                assert(port_view_at(connections.entries()[a].1, b) == (id@, p));
            }
        }
    }
    r
}

/// The view of the `b`-th port of a list.
pub open spec fn port_view_at(v: Vec<PortRef>, b: int) -> PortView {
    v@[b].key_view()
}

impl Simulation {
    /// The components by identifier.
    pub closed spec fn comps(&self) -> Map<IdView, ComponentInstance> {
        self.components.as_map()
    }

    /// The component identifiers in the order they were added.
    pub closed spec fn comp_order(&self) -> Seq<IdView> {
        self.components.key_seq()
    }

    /// The components in the order they were added.
    pub closed spec fn comp_seq(&self) -> Seq<ComponentInstance> {
        self.components.value_seq()
    }

    /// The targets of each connected output port.
    pub closed spec fn conns(&self) -> Map<PortView, Seq<PortView>> {
        connection_view(self.connections.map)
    }

    /// The memory component wired to each memory port.
    pub closed spec fn mems(&self) -> Map<PortView, IdView> {
        memory_view(self.memory_connections)
    }

    /// The module templates registered by name.
    pub closed spec fn templates(&self) -> Map<Seq<char>, ComponentModule> {
        self.component_manager.templates()
    }

    /// The counter for components added directly.
    pub closed spec fn counter(&self) -> u64 {
        self.id_counter
    }

    /// The counter for components made from templates.
    pub closed spec fn template_counter(&self) -> u64 {
        self.component_manager.counter()
    }

    /// Create a new simulation
    pub fn new() -> (r: Self)
        ensures
            r.comps() == Map::<IdView, ComponentInstance>::empty(),
            r.comp_order() == Seq::<IdView>::empty(),
            r.conns() == Map::<PortView, Seq<PortView>>::empty(),
            r.mems() == Map::<PortView, IdView>::empty(),
            r.templates() == Map::<Seq<char>, ComponentModule>::empty(),
            r.counter() == 0,
            r.template_counter() == 0,
            links_one_to_one(r.conns()),
    {
        let map: AssocMap<PortRef, Vec<PortRef>> = AssocMap::new();
        assert(connection_view(map) =~= Map::<PortView, Seq<PortView>>::empty());
        let r = Simulation {
            component_manager: ComponentManager::new(),
            components: AssocMap::new(),
            connections: Links { map },
            memory_connections: AssocMap::new(),
            id_counter: 0,
        };
        proof {
            assert(r.comp_order() =~= Seq::<IdView>::empty());
            assert(r.mems() =~= Map::<PortView, IdView>::empty());
        }
        r
    }

    /// Stores a component under its identifier, replacing one with the same ID.
    fn store(&mut self, instance: ComponentInstance)
        ensures
            final(self).comps() == old(self).comps().insert(instance.id@, instance),
            final(self).conns() == old(self).conns(),
            final(self).mems() == old(self).mems(),
            final(self).templates() == old(self).templates(),
            final(self).counter() == old(self).counter(),
            final(self).template_counter() == old(self).template_counter(),
    {
        let id = instance.id.duplicate();
        self.components.insert(id, instance);
    }

    /// The identifier a directly added component gets: the last piece of its
    /// type path followed by the counter, which then advances.
    fn next_id(&mut self, type_path: &str) -> (r: ComponentId)
        ensures
            r@ == (last_segment(type_path@) + decimal(old(self).counter() as nat), type_path@),
            final(self).counter() == counter_after(old(self).counter(), 1),
            final(self).comps() == old(self).comps(),
            final(self).comp_order() == old(self).comp_order(),
            final(self).conns() == old(self).conns(),
            final(self).mems() == old(self).mems(),
            final(self).templates() == old(self).templates(),
            final(self).template_counter() == old(self).template_counter(),
    {
        let counter = self.id_counter;
        self.id_counter = counter.wrapping_add(1);
        let clean = last_path_segment(type_path);
        let number = decimal_string(counter);
        let id = concat_strs(clean, number.as_str());
        ComponentId::new(id, owned(type_path))
    }

    /// Add a component of a processor type, given the type's path; its ID is
    /// the last piece of the path followed by the simulation's counter
    pub fn add_component<T: Component>(&mut self, component: T, type_path: &str) -> (r: ComponentId)
        ensures
            final(self).template_counter() == old(self).template_counter(),
            r@ == (last_segment(type_path@) + decimal(old(self).counter() as nat), type_path@),
            final(self).counter() == counter_after(old(self).counter(), 1),
            final(self).comps() == old(self).comps().insert(r@, final(self).comps()[r@]),
            final(self).comps()[r@].id@ == r@,
            final(self).comps()[r@].module is Processing,
            holds_module_of::<T>(final(self).comps(), r@),
            final(self).conns() == old(self).conns(),
            final(self).mems() == old(self).mems(),
            final(self).templates() == old(self).templates(),
    {
        let component_id = self.next_id(type_path);
        let module = T::into_module();
        let instance = ComponentInstance { id: component_id.duplicate(), module: ComponentModule::Processing(module) };
        self.store(instance);
        component_id
    }

    /// Add a memory component of a memory type, given the type's path, whose
    /// declared ports are one input and one output; its ID is the last piece
    /// of the path followed by the simulation's counter
    pub fn add_memory_component<T: MemoryComponent + MemoryData>(&mut self, component: T, type_path: &str) -> (r: ComponentId)
        requires
            memory_ports_check(T::declared_ports(), type_path@) is Ok,
        ensures
            final(self).template_counter() == old(self).template_counter(),
            final(self).counter() == counter_after(old(self).counter(), 1),
            final(self).conns() == old(self).conns(),
            final(self).mems() == old(self).mems(),
            final(self).templates() == old(self).templates(),
            r@ == (last_segment(type_path@) + decimal(old(self).counter() as nat), type_path@),
            final(self).comps() == old(self).comps().insert(r@, final(self).comps()[r@]),
            final(self).comps()[r@].id@ == r@,
            final(self).comps()[r@].module is Memory,
            holds_memory_of::<T>(final(self).comps(), r@, type_path),
    {
        let component_id = self.next_id(type_path);
        let module = T::into_memory_module(type_path);
        let ghost made = module;
        let instance = ComponentInstance { id: component_id.duplicate(), module: ComponentModule::Memory(module.into_store()) };
        self.store(instance);
        assert(call_ensures(T::into_memory_module, (type_path,), made));
        component_id
    }

    /// Connect an output port to an input port; each output and each input
    /// takes part in one connection at most
    pub fn connect(&mut self, source: OutputPort, target: InputPort) -> (r: Result<(), String>)
        ensures
            final(self).counter() == old(self).counter(),
            final(self).templates() == old(self).templates(),
            final(self).template_counter() == old(self).template_counter(),
            outcome(r) == sim_connect_check(old(self).comps(), old(self).conns(), source@, target@),
            final(self).conns() == if r is Ok {
                old(self).conns().insert(source@, seq![target@])
            } else {
                old(self).conns()
            },
            final(self).comps() == old(self).comps(),
            final(self).mems() == old(self).mems(),
            links_one_to_one(final(self).conns()),
    {
        proof {
            use_type_invariant(&self.connections);
        }
        let source_id = source.component_id();
        let source_port = source.port_name();
        let target_id = target.component_id();
        let target_port = target.port_name();
        let source_component = match self.components.get(source_id) {
            Some(c) => c,
            None => return Err(join3("Source component '", source_id.id(), "' not found")),
        };
        let target_component = match self.components.get(target_id) {
            Some(c) => c,
            None => return Err(join3("Target component '", target_id.id(), "' not found")),
        };
        match &source_component.module {
            ComponentModule::Processing(processor) => {
                if !processor.has_output_port(source_port) {
                    return Err(join5("Component '", source_id.id(), "' does not have output port '", source_port, "'"));
                }
            },
            ComponentModule::Memory(_) => {
                return Err(join3("Source component '", source_id.id(), "' is not a processing component"));
            },
        }
        match &target_component.module {
            ComponentModule::Processing(processor) => {
                if !processor.has_input_port(target_port) {
                    return Err(join5("Component '", target_id.id(), "' does not have input port '", target_port, "'"));
                }
            },
            ComponentModule::Memory(_) => {
                return Err(join3("Target component '", target_id.id(), "' is not a processing component"));
            },
        }
        let source_key = (source_id.duplicate(), owned(source_port));
        if self.connections.map.contains_key(&source_key) {
            return Err(join5("Output port '", source_port, "' on component '", source_id.id(), "' is already connected"));
        }
        if driven(&self.connections.map, target_id, target_port) {
            return Err(join5("Input port '", target_port, "' on component '", target_id.id(), "' is already connected"));
        }
        let ghost c0 = self.conns();
        let ghost sv = source@;
        let ghost tv = target@;
        let mut targets: Vec<PortRef> = Vec::new();
        targets.push((target_id.duplicate(), owned(target_port)));
        let empty: AssocMap<PortRef, Vec<PortRef>> = AssocMap::new();
        assert(connection_view(empty) =~= Map::<PortView, Seq<PortView>>::empty());
        let mut links = Links { map: empty };
        std::mem::swap(&mut links, &mut self.connections);
        let mut map = links.map;
        map.insert(source_key, targets);
        proof {
            assert(port_views(targets@) =~= seq![tv]);
            assert(connection_view(map) =~= c0.insert(sv, seq![tv]));
            assert(targets_or_empty(c0, sv) =~= Seq::<PortView>::empty());
            assert(targets_or_empty(c0, sv).push(tv) =~= seq![tv]);
            lemma_connect_keeps_drivers_unique(c0, sv, tv);
        }
        self.connections = Links { map };
        Ok(())
    }

    /// Connect two component ports using port handles (the same as `connect`)
    pub fn connect_component(&mut self, source: OutputPort, target: InputPort) -> (r: Result<(), String>)
        ensures
            final(self).counter() == old(self).counter(),
            final(self).templates() == old(self).templates(),
            final(self).template_counter() == old(self).template_counter(),
            outcome(r) == sim_connect_check(old(self).comps(), old(self).conns(), source@, target@),
            final(self).conns() == if r is Ok {
                old(self).conns().insert(source@, seq![target@])
            } else {
                old(self).conns()
            },
            final(self).comps() == old(self).comps(),
            final(self).mems() == old(self).mems(),
            links_one_to_one(final(self).conns()),
    {
        self.connect(source, target)
    }

    /// Wires a memory port of a processing component to a memory component.
    fn wire_memory(&mut self, comp_id: &ComponentId, port_name: &str, memory_id: ComponentId, by_memory_port: bool) -> (r:
        Result<(), String>)
        ensures
            final(self).counter() == old(self).counter(),
            final(self).templates() == old(self).templates(),
            final(self).template_counter() == old(self).template_counter(),
            outcome(r) == sim_memory_check(old(self).comps(), old(self).mems(), (comp_id@, port_name@), memory_id@,
                by_memory_port),
            final(self).mems() == if r is Ok {
                old(self).mems().insert((comp_id@, port_name@), memory_id@)
            } else {
                old(self).mems()
            },
            final(self).comps() == old(self).comps(),
            final(self).conns() == old(self).conns(),
    {
        let memory_component = match self.components.get(&memory_id) {
            Some(c) => c,
            None => return Err(join3("Memory component '", memory_id.id(), "' not found")),
        };
        if !memory_component.is_memory() {
            return Err(join3("Component '", memory_id.id(), "' is not a memory component"));
        }
        let source_component = match self.components.get(comp_id) {
            Some(c) => c,
            None => return Err(join3("Source component '", comp_id.id(), "' not found")),
        };
        let connection_key = (comp_id.duplicate(), owned(port_name));
        if self.memory_connections.contains_key(&connection_key) {
            return Err(join5("Memory port '", port_name, "' on component '", comp_id.id(), "' is already connected"));
        }
        match &source_component.module {
            ComponentModule::Processing(processor) => {
                if !processor.has_memory_port(port_name) {
                    return Err(join5("Component '", comp_id.id(), "' does not have memory port '", port_name, "'"));
                }
            },
            ComponentModule::Memory(_) => {
                if by_memory_port {
                    return Err(join3("Source component '", comp_id.id(), "' is not a processing component"));
                } else {
                    return Err(owned("Only processing components can connect to memory components"));
                }
            },
        }
        let ghost m0 = self.mems();
        let ghost kv = (comp_id@, port_name@);
        self.memory_connections.insert(connection_key, memory_id);
        assert(self.mems() =~= m0.insert(kv, memory_id@));
        Ok(())
    }

    /// Connect a component memory port, named by an output port handle, to a
    /// memory component; each memory port is wired once
    pub fn connect_memory(&mut self, component_port: OutputPort, memory_id: ComponentId) -> (r: Result<(), String>)
        ensures
            final(self).counter() == old(self).counter(),
            final(self).templates() == old(self).templates(),
            final(self).template_counter() == old(self).template_counter(),
            outcome(r) == sim_memory_check(old(self).comps(), old(self).mems(), component_port@, memory_id@, false),
            final(self).mems() == if r is Ok {
                old(self).mems().insert(component_port@, memory_id@)
            } else {
                old(self).mems()
            },
            final(self).comps() == old(self).comps(),
            final(self).conns() == old(self).conns(),
    {
        self.wire_memory(component_port.component_id(), component_port.port_name(), memory_id, false)
    }

    /// Connect a component memory port, named by a memory port handle, to a
    /// memory component; each memory port is wired once
    pub fn connect_memory_port(&mut self, component_port: MemoryPort, memory_id: ComponentId) -> (r: Result<(), String>)
        ensures
            final(self).counter() == old(self).counter(),
            final(self).templates() == old(self).templates(),
            final(self).template_counter() == old(self).template_counter(),
            outcome(r) == sim_memory_check(old(self).comps(), old(self).mems(), component_port@, memory_id@, true),
            final(self).mems() == if r is Ok {
                old(self).mems().insert(component_port@, memory_id@)
            } else {
                old(self).mems()
            },
            final(self).comps() == old(self).comps(),
            final(self).conns() == old(self).conns(),
    {
        self.wire_memory(component_port.component_id(), component_port.port_name(), memory_id, true)
    }

    /// Register a component module template
    pub fn register_module(&mut self, name: &str, module: ComponentModule) -> (r: Result<(), String>)
        ensures
            final(self).counter() == old(self).counter(),
            r is Ok <==> !old(self).templates().contains_key(name@),
            final(self).templates() == if r is Ok {
                old(self).templates().insert(name@, module)
            } else {
                old(self).templates()
            },
            final(self).comps() == old(self).comps(),
            final(self).conns() == old(self).conns(),
            final(self).mems() == old(self).mems(),
            final(self).template_counter() == old(self).template_counter(),
            match r {
                Ok(_) => true,
                Err(e) => e@ == "Component module '"@ + name@ + "' is already registered"@,
            },
    {
        self.component_manager.register_module(name, module)
    }

    /// Create a component from a registered module, with a generated ID
    pub fn create_component(&mut self, module_name: &str) -> (r: Result<ComponentId, String>)
        ensures
            final(self).counter() == old(self).counter(),
            r is Ok <==> old(self).templates().contains_key(module_name@),
            final(self).template_counter() == counter_after(old(self).template_counter(), 1),
            final(self).templates() == old(self).templates(),
            final(self).conns() == old(self).conns(),
            final(self).mems() == old(self).mems(),
            match r {
                Ok(id) => id@ == generated_id(module_name@, old(self).template_counter() as nat)
                    && final(self).comps() == old(self).comps().insert(id@, final(self).comps()[id@])
                    && final(self).comps()[id@].id@ == id@
                    && module_copy(final(self).comps()[id@].module, old(self).templates()[module_name@]),
                Err(e) => e@ == not_found_message(module_name@) && final(self).comps() == old(self).comps(),
            },
    {
        let instance = self.component_manager.create_component_auto_id(module_name)?;
        let id = instance.id.duplicate();
        self.store(instance);
        Ok(id)
    }

    /// Create a component from a registered module with a specific ID, which
    /// must not be taken
    pub fn create_component_with_id(&mut self, module_name: &str, id_string: String) -> (r: Result<ComponentId, String>)
        ensures
            final(self).counter() == old(self).counter(),
            r is Ok <==> !old(self).comps().contains_key((id_string@, module_name@)) && old(self).templates().contains_key(
                module_name@,
            ),
            final(self).templates() == old(self).templates(),
            final(self).template_counter() == old(self).template_counter(),
            final(self).conns() == old(self).conns(),
            final(self).mems() == old(self).mems(),
            match r {
                Ok(id) => id@ == (id_string@, module_name@) && final(self).comps() == old(self).comps().insert(
                    id@,
                    final(self).comps()[id@],
                ) && final(self).comps()[id@].id@ == id@ && module_copy(
                    final(self).comps()[id@].module,
                    old(self).templates()[module_name@],
                ),
                Err(e) => final(self).comps() == old(self).comps() && if old(self).comps().contains_key(
                    (id_string@, module_name@),
                ) {
                    e@ == "Component with ID '"@ + id_string@ + "' already exists"@
                } else {
                    e@ == not_found_message(module_name@)
                },
            },
    {
        let temp_id = ComponentId::new(id_string.clone(), owned(module_name));
        if self.components.contains_key(&temp_id) {
            return Err(join3("Component with ID '", id_string.as_str(), "' already exists"));
        }
        let instance = self.component_manager.create_component(module_name, id_string)?;
        let id = instance.id.duplicate();
        self.store(instance);
        Ok(id)
    }

    /// Stores the components in order and gives their identifiers.
    fn store_all(&mut self, instances: Vec<ComponentInstance>) -> (r: Vec<ComponentId>)
        ensures
            id_views(r@) == instances@.map_values(|c: ComponentInstance| c.id@),
            forall|k: IdView| #[trigger] final(self).comps().contains_key(k) <==> old(self).comps().contains_key(k)
                || id_views(r@).contains(k),
            id_views(r@).no_duplicates() ==> forall|i: int| 0 <= i < r@.len() ==> #[trigger] final(self).comps()[
                r@[i]@] == instances@[i],
            forall|k: IdView| old(self).comps().contains_key(k) && !id_views(r@).contains(k)
                ==> #[trigger] final(self).comps()[k] == old(self).comps()[k],
            final(self).conns() == old(self).conns(),
            final(self).mems() == old(self).mems(),
            final(self).templates() == old(self).templates(),
            final(self).counter() == old(self).counter(),
            final(self).template_counter() == old(self).template_counter(),
    {
        let ghost all = instances@;
        let mut list = instances;
        let mut ids: Vec<ComponentId> = Vec::new();
        while list.len() > 0
            invariant
                list@.len() + ids@.len() == all.len(),
                list@ == all.skip(ids@.len() as int),
                id_views(ids@) == all.take(ids@.len() as int).map_values(|c: ComponentInstance| c.id@),
                forall|q: IdView| #[trigger] self.comps().contains_key(q) <==> old(self).comps().contains_key(q)
                    || id_views(ids@).contains(q),
                id_views(ids@).no_duplicates() ==> forall|a: int| 0 <= a < ids@.len() ==> #[trigger] self.comps()[
                    ids@[a]@] == all[a],
                forall|q: IdView| old(self).comps().contains_key(q) && !id_views(ids@).contains(q)
                    ==> #[trigger] self.comps()[q] == old(self).comps()[q],
                self.conns() == old(self).conns(),
                self.mems() == old(self).mems(),
                self.templates() == old(self).templates(),
                self.counter() == old(self).counter(),
                self.template_counter() == old(self).template_counter(),
            decreases list@.len(),
        {
            let ghost m = ids@.len() as int;
            let ghost before = id_views(ids@);
            let ghost comps0 = self.comps();
            let instance = list.remove(0);
            assert(instance == all[m]);
            ids.push(instance.id.duplicate());
            self.store(instance);
            proof {
                assert(id_views(ids@) =~= before.push(all[m].id@));
                assert(all.take(m + 1).map_values(|c: ComponentInstance| c.id@) =~= all.take(m).map_values(
                    |c: ComponentInstance| c.id@,
                ).push(all[m].id@));
                assert(list@ =~= all.skip(m + 1));
                assert(id_views(ids@)[m] == all[m].id@);
                assert forall|q: IdView| #[trigger] self.comps().contains_key(q) <==> old(self).comps().contains_key(q)
                    || id_views(ids@).contains(q) by {
                    if q == all[m].id@ {
                        assert(id_views(ids@)[m] == q);
                    }
                    if before.contains(q) {
                        let x = before.index_of(q);
                        assert(id_views(ids@)[x] == q);
                    }
                    if id_views(ids@).contains(q) && q != all[m].id@ {
                        let x = id_views(ids@).index_of(q);
                        assert(before[x] == q);
                    }
                }
                if id_views(ids@).no_duplicates() {
                    assert(before.no_duplicates()) by {
                        assert forall|a: int, b: int| 0 <= a < before.len() && 0 <= b < before.len() && a != b
                            implies before[a] != before[b] by {
                            assert(id_views(ids@)[a] == before[a]);
                            assert(id_views(ids@)[b] == before[b]);
                        }
                    }
                    assert forall|a: int| 0 <= a < ids@.len() implies #[trigger] self.comps()[ids@[a]@] == all[a] by {
                        if a < m {
                            assert(id_views(ids@)[a] == ids@[a]@);
                            assert(id_views(ids@)[m] == ids@[m]@);
                            assert(ids@[a]@ != ids@[m]@);
                        }
                    }
                }
                assert forall|q: IdView| old(self).comps().contains_key(q) && !id_views(ids@).contains(q)
                    implies #[trigger] self.comps()[q] == old(self).comps()[q] by {
                    assert(id_views(ids@)[m] == all[m].id@);
                    if before.contains(q) {
                        let x = before.index_of(q);
                        assert(id_views(ids@)[x] == q);
                    }
                }
            }
        }
        proof {
            assert(all.take(all.len() as int) =~= all);
        }
        ids
    }

    /// Create several components of one registered module with generated IDs
    pub fn create_components(&mut self, module_name: &str, count: usize) -> (r: Result<Vec<ComponentId>, String>)
        ensures
            final(self).counter() == old(self).counter(),
            r is Ok <==> (count == 0 || old(self).templates().contains_key(module_name@)),
            final(self).templates() == old(self).templates(),
            final(self).conns() == old(self).conns(),
            final(self).mems() == old(self).mems(),
            match r {
                Ok(ids) => ids@.len() == count && final(self).template_counter() == counter_after(
                    old(self).template_counter(),
                    count as nat,
                ) && (forall|i: int| 0 <= i < count ==> (#[trigger] ids@[i])@ == generated_id(
                    module_name@,
                    counter_after(old(self).template_counter(), i as nat),
                )) && (forall|k: IdView| #[trigger] final(self).comps().contains_key(k) <==> old(
                    self,
                ).comps().contains_key(k) || id_views(ids@).contains(k)),
                Err(e) => e@ == not_found_message(module_name@) && final(self).comps() == old(self).comps(),
            },
    {
        let instances = self.component_manager.create_components(module_name, count)?;
        let ghost iv = instances@;
        let ids = self.store_all(instances);
        proof {
            assert forall|i: int| 0 <= i < count implies (#[trigger] ids@[i])@ == generated_id(
                module_name@,
                counter_after(old(self).template_counter(), i as nat),
            ) by {
                assert(id_views(ids@)[i] == ids@[i]@);
                assert(iv[i].id@ == generated_id(module_name@, counter_after(old(self).template_counter(), i as nat)));
            }
        }
        Ok(ids)
    }

    /// Create components of one registered module whose IDs are a prefix, an
    /// underscore and their position
    #[verifier::spinoff_prover]
    pub fn create_components_with_prefix(&mut self, module_name: &str, prefix: &str, count: usize) -> (r: Result<
        Vec<ComponentId>,
        String,
    >)
        ensures
            final(self).counter() == old(self).counter(),
            r is Ok <==> (count == 0 || old(self).templates().contains_key(module_name@)),
            final(self).templates() == old(self).templates(),
            final(self).conns() == old(self).conns(),
            final(self).mems() == old(self).mems(),
            final(self).template_counter() == old(self).template_counter(),
            match r {
                Ok(ids) => ids@.len() == count && (forall|i: int| 0 <= i < count ==> (#[trigger] ids@[i])@ == (
                    prefix@ + "_"@ + decimal(i as nat),
                    module_name@,
                )) && (forall|k: IdView| #[trigger] final(self).comps().contains_key(k) <==> old(
                    self,
                ).comps().contains_key(k) || id_views(ids@).contains(k)),
                Err(e) => e@ == not_found_message(module_name@) && final(self).comps() == old(self).comps(),
            },
    {
        let instances = self.component_manager.create_components_with_prefix(module_name, prefix, count)?;
        let ghost iv = instances@;
        let ids = self.store_all(instances);
        proof {
            assert forall|i: int| 0 <= i < count implies (#[trigger] ids@[i])@ == (
                prefix@ + "_"@ + decimal(i as nat),
                module_name@,
            ) by {
                assert(id_views(ids@)[i] == ids@[i]@);
                assert(iv[i].id@ == (prefix@ + "_"@ + decimal(i as nat), module_name@));
            }
            assert(ids@.len() == count);
        }
        Ok(ids)
    }

    /// Check that every required input port of every processing component is
    /// connected; the first one found that is not is reported
    pub fn validate_connections(&self) -> (r: Result<(), String>)
        ensures
            r is Ok <==> !exists|id: IdView, i: int| #[trigger] required_unconnected(self.comps(), self.conns(), id, i),
            match r {
                Ok(_) => true,
                Err(e) => exists|id: IdView, i: int| #[trigger] required_unconnected(self.comps(), self.conns(), id, i)
                    && e@ == required_message(self.comps(), id, i),
            },
    {
        let r = check_required_inputs(&self.components, &self.connections.map);
        assert(self.components.as_map() == self.comps());
        assert(connection_view(self.connections.map) == self.conns());
        r
    }

    /// Check each processing component against the template registered under
    /// its module's name: the template must exist and its required input ports
    /// must be connected on the component
    pub fn validate_required_ports(&self) -> (r: Result<(), String>)
        ensures
            r is Ok <==> forall|id: IdView| #[trigger] self.comps().contains_key(id) ==> component_ports_ok(
                self.templates(),
                self.comps(),
                self.conns(),
                id,
            ),
            match r {
                Ok(_) => true,
                Err(e) => exists|id: IdView| #[trigger] self.comps().contains_key(id) && !component_ports_ok(
                    self.templates(),
                    self.comps(),
                    self.conns(),
                    id,
                ) && is_ports_error(self.templates(), self.comps(), self.conns(), id, e@),
            },
    {
        let ghost tm = self.templates();
        let ghost cm = self.comps();
        let ghost c = self.conns();
        let n = self.components.len();
        let mut a: usize = 0;
        while a < n
            invariant
                n == self.components.entries().len(),
                a <= n,
                self.components.wf(),
                tm == self.templates(),
                cm == self.comps(),
                c == self.conns(),
                forall|x: int| 0 <= x < a ==> #[trigger] component_ports_ok(tm, cm, c, self.components.key_seq()[x]),
            decreases n - a,
        {
            proof {
                self.components.lemma_view_at(a as int);
            }
            let id = self.components.key_at(a);
            let instance = self.components.value_at(a);
            let ghost idv = self.components.key_seq()[a as int];
            assert(idv == id@);
            assert(cm.contains_key(idv) && cm[idv] == *instance);
            match &instance.module {
                ComponentModule::Processing(proc_module) => {
                    let connected = connected_inputs(&self.connections.map, id);
                    let ghost sv = string_views(connected@);
                    let checked = self.component_manager.validate_component_ports(
                        proc_module.name.as_str(),
                        connected.as_slice(),
                    );
                    proof {
                        let name = proc_module.name@;
                        if tm.contains_key(name) {
                            assert forall|i: int| #[trigger] required_port_missing(tm[name], sv, i)
                                == required_port_undriven(tm[name], c, idv, i) by {
                                match tm[name] {
                                    ComponentModule::Processing(p) => {
                                        if 0 <= i < p.input_ports@.len() {
                                            assert(sv.contains(p.input_ports@[i].name@) == is_driven(
                                                c,
                                                (idv, p.input_ports@[i].name@),
                                            ));
                                        }
                                    },
                                    ComponentModule::Memory(_) => {},
                                }
                            }
                        }
                    }
                    match checked {
                        Ok(_) => {
                            proof {
                                let name = proc_module.name@;
                                assert forall|i: int| !#[trigger] required_port_undriven(tm[name], c, idv, i) by {
                                    assert(!required_port_missing(tm[name], sv, i));
                                }
                            }
                        },
                        Err(e) => {
                            proof {
                                let name = proc_module.name@;
                                if tm.contains_key(name) {
                                    let i = choose|i: int| #[trigger] required_port_missing(tm[name], sv, i) && (
                                    forall|j: int| 0 <= j < i ==> !required_port_missing(tm[name], sv, j))
                                        && e@ == "Required input port '"@ + match tm[name] {
                                        ComponentModule::Processing(p) => p.input_ports@[i].name@,
                                        ComponentModule::Memory(_) => Seq::empty(),
                                    } + "' is not connected for component type '"@ + name + "'"@;
                                    assert(required_port_undriven(tm[name], c, idv, i));
                                }
                                assert(is_ports_error(tm, cm, c, idv, e@));
                            }
                            return Err(e);
                        },
                    }
                    assert(component_ports_ok(tm, cm, c, idv));
                },
                ComponentModule::Memory(_) => {},
            }
            a = a + 1;
        }
        proof {
            assert forall|id: IdView| #[trigger] cm.contains_key(id) implies component_ports_ok(tm, cm, c, id) by {
                let x = self.components.key_seq().index_of(id);
                self.components.lemma_view_at(x);
            }
        }
        Ok(())
    }

    /// Get component statistics
    pub fn component_stats(&self) -> (r: SimulationStats)
        ensures
            r.total_components == self.comps().dom().len(),
            r.processing_components == count_processing(self.comp_seq()),
            r.memory_components == count_memory(self.comp_seq()),
            r.total_connections == self.conns().dom().len(),
            r.memory_connections == self.mems().dom().len(),
    {
        let n = self.components.len();
        let mut processing: usize = 0;
        let mut memory: usize = 0;
        let mut i: usize = 0;
        while i < n
            invariant
                n == self.components.entries().len(),
                i <= n,
                processing == count_processing(self.components.value_seq().take(i as int)),
                memory == count_memory(self.components.value_seq().take(i as int)),
            decreases n - i,
        {
            proof {
                let t = self.components.value_seq().take(i as int + 1);
                assert(t.drop_last() =~= self.components.value_seq().take(i as int));
                lemma_counts_bounded(self.components.value_seq().take(i as int));
            }
            if self.components.value_at(i).is_processing() {
                processing = processing + 1;
            } else {
                memory = memory + 1;
            }
            i = i + 1;
        }
        assert(self.components.value_seq().take(n as int) =~= self.components.value_seq());
        let total_connections = self.connections.map.len();
        let memory_connections = self.memory_connections.len();
        proof {
            assert(self.comps().dom() =~= self.components.as_map().dom());
            assert(self.conns().dom() =~= self.connections.map.as_map().dom());
            assert(self.mems().dom() =~= self.memory_connections.as_map().dom());
        }
        SimulationStats {
            total_components: n,
            processing_components: processing,
            memory_components: memory,
            total_connections,
            memory_connections,
        }
    }

    /// Get all component IDs, in the order the components were added
    pub fn component_ids(&self) -> (r: Vec<&ComponentId>)
        ensures
            r@.map_values(|c: &ComponentId| c@) == self.comp_order(),
    {
        let mut r: Vec<&ComponentId> = Vec::new();
        let n = self.components.len();
        let mut i: usize = 0;
        while i < n
            invariant
                n == self.components.entries().len(),
                i <= n,
                r@.map_values(|c: &ComponentId| c@) == self.components.key_seq().take(i as int),
            decreases n - i,
        {
            let ghost before = r@;
            r.push(self.components.key_at(i));
            proof {
                assert(r@.map_values(|c: &ComponentId| c@) =~= before.map_values(|c: &ComponentId| c@).push(
                    self.components.key_seq()[i as int],
                ));
                assert(self.components.key_seq().take(i as int + 1) =~= self.components.key_seq().take(i as int).push(
                    self.components.key_seq()[i as int],
                ));
            }
            i = i + 1;
        }
        assert(self.components.key_seq().take(n as int) =~= self.components.key_seq());
        r
    }

    /// Get component by ID
    pub fn get_component(&self, id: &ComponentId) -> (r: Option<&ComponentInstance>)
        ensures
            match r {
                Some(c) => self.comps().contains_key(id@) && *c == self.comps()[id@],
                None => !self.comps().contains_key(id@),
            },
    {
        self.components.get(id)
    }

    /// Check if component exists
    pub fn has_component(&self, id: &ComponentId) -> (b: bool)
        ensures
            b == self.comps().contains_key(id@),
    {
        self.components.contains_key(id)
    }
}

impl Default for Simulation {
    fn default() -> (r: Self)
        ensures
            r.comps() == Map::<IdView, ComponentInstance>::empty(),
            r.conns() == Map::<PortView, Seq<PortView>>::empty(),
            r.mems() == Map::<PortView, IdView>::empty(),
    {
        Self::new()
    }
}

/// Extension trait for fluent simulation building
pub trait SimulationExt {
    /// Start building a simulation
    fn simulation() -> Simulation {
        Simulation::new()
    }
}

impl SimulationExt for () {}

/// The error of a stored link's source, if any: a missing component, or an
/// output port it lacks.
pub open spec fn link_source_error(cm: Map<IdView, ComponentInstance>, s: PortView) -> Option<Seq<char>> {
    if !cm.contains_key(s.0) {
        Some("Source component '"@ + s.0.0 + "' not found"@)
    } else if !has_output_port(cm[s.0], s.1) {
        Some(source_port_message(cm[s.0], s.1))
    } else {
        None
    }
}

/// The error of a stored link's target, if any: a missing component, or an
/// input port it lacks.
pub open spec fn link_target_error(cm: Map<IdView, ComponentInstance>, t: PortView) -> Option<Seq<char>> {
    if !cm.contains_key(t.0) {
        Some("Target component '"@ + t.0.0 + "' not found"@)
    } else if !has_input_port(cm[t.0], t.1) {
        Some(target_port_message(cm[t.0], t.1))
    } else {
        None
    }
}

/// The error of a stored memory link's port, if any: a missing component, or
/// a memory port it lacks.
pub open spec fn memory_link_error(cm: Map<IdView, ComponentInstance>, p: PortView) -> Option<Seq<char>> {
    if !cm.contains_key(p.0) {
        Some("Component '"@ + p.0.0 + "' not found"@)
    } else if !has_memory_port(cm[p.0], p.1) {
        Some(memory_port_message(cm[p.0], p.1))
    } else {
        None
    }
}

/// A stored source port and all its targets are sound.
pub open spec fn source_links_ok(cm: Map<IdView, ComponentInstance>, c: Map<PortView, Seq<PortView>>, k: PortView) -> bool {
    &&& link_source_error(cm, k) is None
    &&& forall|i: int| 0 <= i < c[k].len() ==> link_target_error(cm, #[trigger] c[k][i]) is None
}

/// Every stored link names components that exist and ports they have.
pub open spec fn links_valid(
    cm: Map<IdView, ComponentInstance>,
    c: Map<PortView, Seq<PortView>>,
    mc: Map<PortView, IdView>,
) -> bool {
    &&& forall|k: PortView| #[trigger] c.contains_key(k) ==> source_links_ok(cm, c, k)
    &&& forall|p: PortView| #[trigger] mc.contains_key(p) ==> memory_link_error(cm, p) is None
}

/// The text is the error of one of the stored links.
pub open spec fn is_link_error(
    cm: Map<IdView, ComponentInstance>,
    c: Map<PortView, Seq<PortView>>,
    mc: Map<PortView, IdView>,
    e: Seq<char>,
) -> bool {
    ||| exists|k: PortView| #[trigger] c.contains_key(k) && (link_source_error(cm, k) == Some(e) || exists|i: int|
        0 <= i < c[k].len() && link_target_error(cm, #[trigger] c[k][i]) == Some(e))
    ||| exists|p: PortView| #[trigger] mc.contains_key(p) && memory_link_error(cm, p) == Some(e)
}

impl Simulation {
    /// Check every stored link: its components exist and have the ports; the
    /// first one that does not is reported
    fn validate_port_connections(&self) -> (r: Result<(), String>)
        ensures
            r is Ok <==> links_valid(self.comps(), self.conns(), self.mems()),
            match r {
                Ok(_) => true,
                Err(e) => is_link_error(self.comps(), self.conns(), self.mems(), e@),
            },
    {
        let ghost cm = self.comps();
        let ghost c = self.conns();
        let ghost mc = self.mems();
        let n = self.connections.map.len();
        let mut i: usize = 0;
        while i < n
            invariant
                n == self.connections.map.entries().len(),
                i <= n,
                self.connections.map.wf(),
                cm == self.comps(),
                c == self.conns(),
                mc == self.mems(),
                forall|x: int| 0 <= x < i ==> #[trigger] source_links_ok(cm, c, self.connections.map.key_seq()[x]),
            decreases n - i,
        {
            proof {
                self.connections.map.lemma_view_at(i as int);
            }
            let source = self.connections.map.key_at(i);
            let targets = self.connections.map.value_at(i);
            let ghost k = source.key_view();
            assert(k == self.connections.map.key_seq()[i as int]);
            assert(c.contains_key(k));
            assert(c[k] == port_views(targets@));
            match self.components.get(&source.0) {
                None => return Err(join3("Source component '", source.0.id(), "' not found")),
                Some(component) => match PortValidator::validate_source_port(component, source.1.as_str()) {
                    Ok(_) => {},
                    Err(e) => return Err(e),
                },
            }
            let mut j: usize = 0;
            while j < targets.len()
                invariant
                    j <= targets@.len(),
                    cm == self.comps(),
                    c == self.conns(),
                    mc == self.mems(),
                    c.contains_key(k),
                    c[k] == port_views(targets@),
                    link_source_error(cm, k) is None,
                    forall|y: int| 0 <= y < j ==> link_target_error(cm, #[trigger] c[k][y]) is None,
                decreases targets@.len() - j,
            {
                let target = &targets[j];
                assert(c[k][j as int] == target.key_view());
                match self.components.get(&target.0) {
                    None => return Err(join3("Target component '", target.0.id(), "' not found")),
                    Some(component) => match PortValidator::validate_target_port(component, target.1.as_str()) {
                        Ok(_) => {},
                        Err(e) => return Err(e),
                    },
                }
                j = j + 1;
            }
            assert(source_links_ok(cm, c, k));
            i = i + 1;
        }
        let m = self.memory_connections.len();
        let mut a: usize = 0;
        while a < m
            invariant
                m == self.memory_connections.entries().len(),
                a <= m,
                self.memory_connections.wf(),
                cm == self.comps(),
                c == self.conns(),
                mc == self.mems(),
                forall|k: PortView| #[trigger] c.contains_key(k) ==> source_links_ok(cm, c, k),
                forall|x: int| 0 <= x < a ==> memory_link_error(cm, #[trigger] self.memory_connections.key_seq()[x]) is None,
            decreases m - a,
        {
            proof {
                self.memory_connections.lemma_view_at(a as int);
            }
            let port = self.memory_connections.key_at(a);
            let ghost p = port.key_view();
            assert(p == self.memory_connections.key_seq()[a as int]);
            assert(mc.contains_key(p));
            match self.components.get(&port.0) {
                None => return Err(join3("Component '", port.0.id(), "' not found")),
                Some(component) => match PortValidator::validate_memory_port(component, port.1.as_str()) {
                    Ok(_) => {},
                    Err(e) => return Err(e),
                },
            }
            a = a + 1;
        }
        proof {
            assert forall|p: PortView| #[trigger] mc.contains_key(p) implies memory_link_error(cm, p) is None by {
                let x = self.memory_connections.key_seq().index_of(p);
                self.memory_connections.lemma_view_at(x);
            }
        }
        Ok(())
    }
}

/// The processing modules of the components, by identifier.
pub open spec fn processing_of(cm: Map<IdView, ComponentInstance>) -> Map<IdView, ProcessorModule> {
    Map::new(|k: IdView| cm.contains_key(k) && cm[k].module is Processing, |k: IdView| cm[k].module->Processing_0)
}

/// The memory modules of the components, by identifier.
pub open spec fn memories_of(cm: Map<IdView, ComponentInstance>) -> Map<IdView, MemoryStore> {
    Map::new(|k: IdView| cm.contains_key(k) && cm[k].module is Memory, |k: IdView| cm[k].module->Memory_0)
}

/// The links of the source ports that have targets.
pub open spec fn nonempty_links(c: Map<PortView, Seq<PortView>>) -> Map<PortView, Seq<PortView>> {
    Map::new(|k: PortView| c.contains_key(k) && c[k].len() > 0, |k: PortView| c[k])
}

/// Every stored memory link ends at a memory component.
pub open spec fn memories_present(cm: Map<IdView, ComponentInstance>, mc: Map<PortView, IdView>) -> bool {
    forall|p: PortView| #[trigger] mc.contains_key(p) ==> memories_of(cm).contains_key(mc[p])
}

/// The links of the first sources that have targets.
pub open spec fn links_upto(c: Map<PortView, Seq<PortView>>, keys: Seq<PortView>, i: int) -> Map<PortView, Seq<PortView>> {
    Map::new(|k: PortView| keys.take(i).contains(k) && c[k].len() > 0, |k: PortView| c[k])
}

impl Simulation {
    /// Build the simulation into a cycle engine: the stored links are checked
    /// first; then every component is registered under its identifier, and
    /// every link and memory link made, in the order they were stored
    pub fn build(self) -> (r: Result<CycleEngine, String>)
        ensures
            r is Ok <==> links_valid(self.comps(), self.conns(), self.mems()) && memories_present(self.comps(), self.mems()),
            match r {
                Ok(engine) => engine.procs().dom() == processing_of(self.comps()).dom() && (forall|k: IdView|
                    #[trigger] engine.procs().contains_key(k) ==> engine.procs()[k].module == processing_of(self.comps())[k])
                    && engine.mems() == memories_of(self.comps()) && engine.conns() == nonempty_links(self.conns())
                    && engine.mem_conns() == self.mems() && engine.cycle_count() == 0
                    && engine.configuration().concurrency_mode == ConcurrencyMode::Sequential,
                Err(e) => if !links_valid(self.comps(), self.conns(), self.mems()) {
                    is_link_error(self.comps(), self.conns(), self.mems(), e@)
                } else {
                    exists|p: PortView| #[trigger] self.mems().contains_key(p) && !memories_of(self.comps()).contains_key(
                        self.mems()[p],
                    ) && e@ == "Memory component '"@ + self.mems()[p].0 + "' not found"@
                },
            },
    {
        match self.validate_port_connections() {
            Ok(_) => {},
            Err(e) => return Err(e),
        }
        let ghost cm = self.comps();
        let ghost c = self.conns();
        let ghost mc = self.mems();
        let ghost keys = self.components.key_seq();
        let Simulation { component_manager: _, components, connections: links, memory_connections, id_counter: _ } = self;
        let connections = links.map;
        let mut engine = CycleEngine::new_sequential();
        let mut entries = components.into_entries();
        let ghost all = entries@;
        let n = entries.len();
        let mut i: usize = 0;
        while i < n
            invariant
                n == all.len(),
                i <= n,
                entries@ == all.skip(i as int),
                all == components.entries(),
                components.wf(),
                keys == components.key_seq(),
                cm == components.as_map(),
                engine.procs().dom() == Set::new(|k: IdView| keys.take(i as int).contains(k) && cm[k].module is Processing),
                forall|k: IdView| #[trigger] engine.procs().contains_key(k) ==> engine.procs()[k].module == cm[k].module->Processing_0,
                engine.mems() == Map::new(|k: IdView| keys.take(i as int).contains(k) && cm[k].module is Memory, |k: IdView| cm[k].module->Memory_0),
                engine.conns() == Map::<PortView, Seq<PortView>>::empty(),
                engine.mem_conns() == Map::<PortView, IdView>::empty(),
                engine.cycle_count() == 0,
                engine.configuration().concurrency_mode == ConcurrencyMode::Sequential,
            decreases n - i,
        {
            proof {
                components.lemma_view_at(i as int);
            }
            let (id, instance) = entries.remove(0);
            let ghost kv = id@;
            assert(kv == keys[i as int]);
            assert(cm[kv] == instance);
            let ghost module = instance.module;
            let ghost before_procs = engine.procs();
            engine.register_component_instance(ComponentInstance { id, module: instance.module });
            proof {
                assert(entries@ =~= all.skip(i as int + 1));
                lemma_index_of_distinct(keys, i as int);
                lemma_take_one_more(keys, i as int);
                assert(engine.procs().dom() =~= Set::new(|k: IdView| keys.take(i as int + 1).contains(k) && cm[k].module is Processing));
                assert(engine.mems() =~= Map::new(|k: IdView| keys.take(i as int + 1).contains(k) && cm[k].module is Memory, |k: IdView| cm[k].module->Memory_0));
            }
            i = i + 1;
        }
        proof {
            assert(keys.take(n as int) =~= keys);
            assert forall|k: IdView| keys.contains(k) <==> cm.contains_key(k) by {
                if cm.contains_key(k) {
                    let x = keys.index_of(k);
                }
            }
            assert(engine.procs().dom() =~= processing_of(cm).dom());
            assert(engine.mems() =~= memories_of(cm));
        }
        let ghost pmap = engine.procs();
        let ghost skeys = connections.key_seq();
        let cn = connections.len();
        let mut s: usize = 0;
        while s < cn
            invariant
                cn == connections.entries().len(),
                s <= cn,
                connections.wf(),
                skeys == connections.key_seq(),
                c == connection_view(connections),
                links_valid(cm, c, mc),
                engine.procs() == pmap,
                pmap.dom() == processing_of(cm).dom(),
                engine.mems() == memories_of(cm),
                engine.conns() == links_upto(c, skeys, s as int),
                engine.mem_conns() == Map::<PortView, IdView>::empty(),
                engine.cycle_count() == 0,
                engine.configuration().concurrency_mode == ConcurrencyMode::Sequential,
            decreases cn - s,
        {
            proof {
                connections.lemma_view_at(s as int);
            }
            let source = connections.key_at(s);
            let targets = connections.value_at(s);
            let ghost sv = source.key_view();
            assert(sv == skeys[s as int]);
            assert(c.contains_key(sv) && c[sv] == port_views(targets@));
            assert(source_links_ok(cm, c, sv));
            proof {
                lemma_index_of_distinct(skeys, s as int);
                assert(!skeys.take(s as int).contains(sv)) by {
                    if skeys.take(s as int).contains(sv) {
                        let x = choose|x: int| 0 <= x < s && skeys.take(s as int)[x] == sv;
                        assert(skeys[x] == sv);
                    }
                }
            }
            let mut j: usize = 0;
            while j < targets.len()
                invariant
                    j <= targets@.len(),
                    c.contains_key(sv),
                    c[sv] == port_views(targets@),
                    source_links_ok(cm, c, sv),
                    sv == source.key_view(),
                    !skeys.take(s as int).contains(sv),
                    engine.procs() == pmap,
                    pmap.dom() == processing_of(cm).dom(),
                    engine.mems() == memories_of(cm),
                    engine.conns() == if j == 0 {
                        links_upto(c, skeys, s as int)
                    } else {
                        links_upto(c, skeys, s as int).insert(sv, c[sv].take(j as int))
                    },
                    engine.mem_conns() == Map::<PortView, IdView>::empty(),
                    engine.cycle_count() == 0,
                    engine.configuration().concurrency_mode == ConcurrencyMode::Sequential,
                decreases targets@.len() - j,
            {
                let target = &targets[j];
                let ghost tv = target.key_view();
                assert(c[sv][j as int] == tv);
                assert(link_target_error(cm, c[sv][j as int]) is None);
                let ghost before = engine.conns();
                assert(processing_of(cm).contains_key(sv.0) || memories_of(cm).contains_key(sv.0));
                assert(processing_of(cm).contains_key(tv.0) || memories_of(cm).contains_key(tv.0));
                let result = engine.connect((source.0.duplicate(), source.1.clone()), (target.0.duplicate(), target.1.clone()));
                match result {
                    Ok(_) => {},
                    Err(e) => return Err(e),
                }
                proof {
                    assert(c[sv].take(j as int + 1) =~= c[sv].take(j as int).push(tv));
                    if j == 0 {
                        assert(!before.contains_key(sv));
                        assert(c[sv].take(0) =~= Seq::<PortView>::empty());
                    }
                    assert(engine.conns() =~= links_upto(c, skeys, s as int).insert(sv, c[sv].take(j as int + 1)));
                }
                j = j + 1;
            }
            proof {
                assert(c[sv].take(c[sv].len() as int) =~= c[sv]);
                lemma_take_one_more(skeys, s as int);
                assert(engine.conns() =~= links_upto(c, skeys, s as int + 1));
            }
            s = s + 1;
        }
        proof {
            assert(skeys.take(cn as int) =~= skeys);
            assert forall|k: PortView| skeys.contains(k) <==> c.contains_key(k) by {
                if c.contains_key(k) {
                    let x = skeys.index_of(k);
                }
            }
            assert(engine.conns() =~= nonempty_links(c));
        }
        let ghost mkeys = memory_connections.key_seq();
        let mn = memory_connections.len();
        let mut a: usize = 0;
        while a < mn
            invariant
                mn == memory_connections.entries().len(),
                a <= mn,
                memory_connections.wf(),
                mkeys == memory_connections.key_seq(),
                mc == memory_view(memory_connections),
                cm == self.comps(),
                c == self.conns(),
                mc == self.mems(),
                links_valid(cm, c, mc),
                engine.procs() == pmap,
                pmap.dom() == processing_of(cm).dom(),
                engine.mems() == memories_of(cm),
                engine.conns() == nonempty_links(c),
                engine.mem_conns() == Map::new(|k: PortView| mkeys.take(a as int).contains(k), |k: PortView| mc[k]),
                forall|x: int| 0 <= x < a ==> memories_of(cm).contains_key(mc[#[trigger] mkeys[x]]),
                engine.cycle_count() == 0,
                engine.configuration().concurrency_mode == ConcurrencyMode::Sequential,
            decreases mn - a,
        {
            proof {
                memory_connections.lemma_view_at(a as int);
            }
            let port = memory_connections.key_at(a);
            let memory = memory_connections.value_at(a);
            let ghost pv = port.key_view();
            assert(pv == mkeys[a as int]);
            assert(mc.contains_key(pv) && mc[pv] == memory@);
            assert(memory_link_error(cm, pv) is None);
            assert(processing_of(cm).contains_key(pv.0) || memories_of(cm).contains_key(pv.0));
            let result = engine.connect_memory((port.0.duplicate(), port.1.clone()), memory.duplicate());
            match result {
                Ok(_) => {},
                Err(e) => {
                    proof {
                        assert(!memories_of(cm).contains_key(mc[pv]));
                        assert(!memories_present(cm, mc));
                    }
                    return Err(e);
                },
            }
            proof {
                lemma_take_one_more(mkeys, a as int);
                assert(engine.mem_conns() =~= Map::new(|k: PortView| mkeys.take(a as int + 1).contains(k), |k: PortView| mc[k]));
            }
            a = a + 1;
        }
        proof {
            assert(mkeys.take(mn as int) =~= mkeys);
            assert forall|k: PortView| mkeys.contains(k) <==> mc.contains_key(k) by {
                if mc.contains_key(k) {
                    let x = mkeys.index_of(k);
                }
            }
            assert(engine.mem_conns() =~= mc);
            assert forall|p: PortView| #[trigger] mc.contains_key(p) implies memories_of(cm).contains_key(mc[p]) by {
                let x = mkeys.index_of(p);
                assert(mkeys[x] == p);
            }
        }
        Ok(engine)
    }
}

/// The module names and requested identifiers of a batch, by view.
pub open spec fn batch_specs(specs: Seq<(&str, Option<&str>)>) -> Seq<(Seq<char>, Option<Seq<char>>)> {
    specs.map_values(
        |p: (&str, Option<&str>)| (
            p.0@,
            match p.1 {
                Some(s) => Some(s@),
                None => None,
            },
        ),
    )
}

/// Identifiers made so far, followed by what the rest gives.
pub open spec fn prepend_ids(done: Seq<IdView>, rest: Result<Seq<IdView>, Seq<char>>) -> Result<Seq<IdView>, Seq<char>> {
    match rest {
        Ok(ids) => Ok(done + ids),
        Err(e) => Err(e),
    }
}

/// What creating the components of a batch one after another gives: the
/// identifiers made, or the first error.  `taken` are the identifiers in use
/// and `counter` the counter for generated identifiers.
pub open spec fn batch_outcome(
    templates: Map<Seq<char>, ComponentModule>,
    taken: Set<IdView>,
    counter: u64,
    specs: Seq<(Seq<char>, Option<Seq<char>>)>,
) -> Result<Seq<IdView>, Seq<char>>
    decreases specs.len(),
{
    if specs.len() == 0 {
        Ok(Seq::empty())
    } else {
        let name = specs[0].0;
        match specs[0].1 {
            Some(s) => if taken.contains((s, name)) {
                Err("Component with ID '"@ + s + "' already exists"@)
            } else if !templates.contains_key(name) {
                Err(not_found_message(name))
            } else {
                prepend_ids(seq![(s, name)], batch_outcome(templates, taken.insert((s, name)), counter, specs.drop_first()))
            },
            None => if !templates.contains_key(name) {
                Err(not_found_message(name))
            } else {
                let g = generated_id(name, counter as nat);
                prepend_ids(
                    seq![g],
                    batch_outcome(templates, taken.insert(g), counter_after(counter, 1) as u64, specs.drop_first()),
                )
            },
        }
    }
}

/// Prepending twice is prepending the joined prefix.
proof fn lemma_prepend_twice(a: Seq<IdView>, b: Seq<IdView>, r: Result<Seq<IdView>, Seq<char>>)
    ensures
        prepend_ids(a, prepend_ids(b, r)) == prepend_ids(a + b, r),
{
    match r {
        Ok(ids) => assert(a + (b + ids) =~= (a + b) + ids),
        Err(_) => {},
    }
}

impl Simulation {
    /// Create components one after another, each with the given identifier
    /// or, without one, a generated one; the first failure stops the batch
    pub fn create_components_batch(&mut self, specs: Vec<(&str, Option<&str>)>) -> (r: Result<Vec<ComponentId>, String>)
        ensures
            final(self).counter() == old(self).counter(),
            final(self).templates() == old(self).templates(),
            final(self).conns() == old(self).conns(),
            final(self).mems() == old(self).mems(),
            match batch_outcome(old(self).templates(), old(self).comps().dom(), old(self).template_counter(), batch_specs(specs@)) {
                Ok(ids) => r is Ok && id_views(r->Ok_0@) == ids,
                Err(e) => r is Err && r->Err_0@ == e,
            },
    {
        let ghost sv = batch_specs(specs@);
        let ghost t0 = self.templates();
        let ghost whole = batch_outcome(t0, self.comps().dom(), self.template_counter(), sv);
        let mut component_ids: Vec<ComponentId> = Vec::new();
        let n = specs.len();
        let mut i: usize = 0;
        proof {
            assert(sv.skip(0) =~= sv);
            assert(id_views(component_ids@) =~= Seq::<IdView>::empty());
            assert(Seq::<IdView>::empty() + Seq::<IdView>::empty() =~= Seq::<IdView>::empty());
            match whole {
                Ok(ids) => assert(Seq::<IdView>::empty() + ids =~= ids),
                Err(_) => {},
            }
        }
        while i < n
            invariant
                n == specs@.len(),
                i <= n,
                sv == batch_specs(specs@),
                t0 == self.templates(),
                t0 == old(self).templates(),
                self.conns() == old(self).conns(),
                self.mems() == old(self).mems(),
                self.counter() == old(self).counter(),
                whole == batch_outcome(t0, old(self).comps().dom(), old(self).template_counter(), sv),
                whole == prepend_ids(id_views(component_ids@), batch_outcome(t0, self.comps().dom(), self.template_counter(), sv.skip(i as int))),
            decreases n - i,
        {
            let (module_name, component_id) = specs[i];
            let ghost done = id_views(component_ids@);
            let ghost rest = sv.skip(i as int);
            let ghost before_dom = self.comps().dom();
            let ghost before_counter = self.template_counter();
            proof {
                assert(rest[0] == sv[i as int]);
                assert(rest.drop_first() =~= sv.skip(i as int + 1));
            }
            let id = match component_id {
                Some(id) => match self.create_component_with_id(module_name, owned(id)) {
                    Ok(x) => x,
                    Err(e) => return Err(e),
                },
                None => match self.create_component(module_name) {
                    Ok(x) => x,
                    Err(e) => return Err(e),
                },
            };
            let ghost iv = id@;
            component_ids.push(id);
            proof {
                assert(id_views(component_ids@) =~= done.push(iv));
                assert(self.comps().dom() =~= before_dom.insert(iv));
                let tail = batch_outcome(t0, self.comps().dom(), self.template_counter(), sv.skip(i as int + 1));
                assert(batch_outcome(t0, before_dom, before_counter, rest) == prepend_ids(seq![iv], tail));
                lemma_prepend_twice(done, seq![iv], tail);
                assert(done + seq![iv] =~= done.push(iv));
            }
            i = i + 1;
        }
        Ok(component_ids)
    }
}

} // verus!
