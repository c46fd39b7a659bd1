use vstd::prelude::*;
use crate::assoc::{AssocMap, KeyLike, lemma_index_of_distinct};
use crate::components::ProcessorModule;
use crate::config::{ConcurrencyMode, SimulationConfig};
use crate::connections::{connection_view, memory_view, targets_or_empty};
use crate::contexts::EvaluationContext;
use crate::execution_order::{ExecutionOrderBuilder, Stage, gets_stuck, level_views, stage_views, valid_stages};
use crate::maps::{EventInputMap, EventOutputMap, EventOutputs};
use crate::memory::{MemoryData, MemoryModuleTrait, MemoryStore};
use crate::modules::{ComponentInstance, ComponentModule};
use crate::proxy::{MemoryProxy, MemoryWrite, WriteView, current_after, memory_step, proxy_effect, proxy_target, read_view,
    write_allowed, writes_fit};
use crate::strings::{decimal, decimal_string, join3, join5, owned, outcome};
use crate::types::{ComponentId, IdView, PortRef, PortView, id_views, port_views};
use crate::values::{Event, TypedData, TypeTag, ValueView, tag_name};

verus! {

/// Processing component instance
pub struct ProcessingComponent {
    pub id: ComponentId,
    pub module: ProcessorModule,
}

/// Where an input of a component comes from: the source port, and the input
/// port it feeds.
pub struct InputConnection {
    pub source_id: ComponentId,
    pub source_port: String,
    pub target_port: String,
}

/// The abstract value of an input connection: source port, then input port.
pub type InputView = (PortView, Seq<char>);

impl View for InputConnection {
    type V = InputView;

    open spec fn view(&self) -> InputView {
        ((self.source_id@, self.source_port@), self.target_port@)
    }
}

/// The abstract value of an event: its identifier, timestamp and payload.
pub type EventView = (u64, u64, ValueView);

pub open spec fn event_view(e: Event) -> EventView {
    (e.event_id, e.timestamp, e.payload@)
}

/// The views of the events of a map.
pub open spec fn event_views<K>(m: Map<K, Event>) -> Map<K, EventView> {
    m.map_values(|e: Event| event_view(e))
}

/// Evaluates processing modules: the simulation's user supplies what each
/// module computes from its inputs and memory.
pub trait Evaluator {
    /// Whether evaluating the module named `module` for `component` on `inputs`,
    /// with outputs that get the timestamp `stamp` when set, may end in
    /// `result` (the outputs it set, by port, or its error) after making the
    /// memory writes `writes`, in order.  An evaluator that says nothing more
    /// allows every result.
    open spec fn evaluates_to(
        &self,
        component: IdView,
        module: Seq<char>,
        inputs: Map<Seq<char>, EventView>,
        stamp: u64,
        result: Result<Map<Seq<char>, EventView>, Seq<char>>,
        writes: Seq<WriteView>,
    ) -> bool {
        true
    }

    /// Evaluate a processing module in a context, setting its outputs.  The
    /// context's memory is used through reads and writes of its proxy only:
    /// the writes that took effect are the ones the evaluation names.
    fn evaluate(&self, module: &ProcessorModule, context: &mut EvaluationContext, outputs: &mut EventOutputMap) -> (r:
        Result<(), String>)
        ensures
            exists|ws: Seq<WriteView>|
                #[trigger] self.evaluates_to(
                    old(context).component_id@,
                    module.name@,
                    event_views(old(context).inputs.events()),
                    old(outputs).stamp(),
                    evaluation_view(r, final(outputs).events()),
                    ws,
                ) && proxy_effect(old(context).memory, final(context).memory, ws),
            final(context).component_id@ == old(context).component_id@,
    ;
}

/// The result of an evaluation, by view: the outputs set, or the error.
pub open spec fn evaluation_view(r: Result<(), String>, outputs: Map<Seq<char>, Event>) -> Result<
    Map<Seq<char>, EventView>,
    Seq<char>,
> {
    match r {
        Ok(_) => Ok(event_views(outputs)),
        Err(e) => Err(e@),
    }
}

/// The inputs a component receives: for each connection feeding it, in order,
/// the event its source produced this cycle, if any; a later connection to the
/// same input port replaces an earlier one.
pub open spec fn collected(conns: Seq<InputView>, buffer: Map<PortView, EventView>) -> Map<Seq<char>, EventView>
    decreases conns.len(),
{
    if conns.len() == 0 {
        Map::empty()
    } else {
        let prev = collected(conns.drop_last(), buffer);
        let c = conns.last();
        if buffer.contains_key(c.0) {
            prev.insert(c.1, buffer[c.0])
        } else {
            prev
        }
    }
}

/// Ports of the given component.
pub open spec fn on_component(id: IdView) -> spec_fn(PortView) -> bool {
    |t: PortView| t.0 == id
}

/// The input connection from a source port to a port of a target.
pub open spec fn fed_from(s: PortView) -> spec_fn(PortView) -> InputView {
    |t: PortView| (s, t.1)
}

/// The memory component a memory port is wired to.
pub open spec fn wired_to(mc: Map<PortView, IdView>) -> spec_fn(PortView) -> IdView {
    |k: PortView| mc[k]
}

/// The input connections of a component, derived from the connection map: for
/// each source in order, each of its targets on the component.
pub open spec fn inputs_from(sources: Seq<PortView>, c: Map<PortView, Seq<PortView>>, id: IdView) -> Seq<InputView>
    decreases sources.len(),
{
    if sources.len() == 0 {
        Seq::empty()
    } else {
        let s = sources.last();
        inputs_from(sources.drop_last(), c, id) + targets_or_empty(c, s).filter(on_component(id)).map_values(
            fed_from(s),
        )
    }
}

/// The memory components a component's memory ports are wired to, in the order
/// the wiring is stored.
pub open spec fn memory_deps(mem_order: Seq<PortView>, mc: Map<PortView, IdView>, id: IdView) -> Seq<IdView> {
    mem_order.filter(on_component(id)).map_values(wired_to(mc))
}

/// The views of the input connections recorded for a component.
pub open spec fn recorded_of(m: AssocMap<ComponentId, Vec<InputConnection>>, id: IdView) -> Seq<InputView> {
    if m.as_map().contains_key(id) {
        m.as_map()[id]@.map_values(|c: InputConnection| c@)
    } else {
        Seq::empty()
    }
}

/// Appends an input connection to the list of its target component.
fn push_input(map: &mut AssocMap<ComponentId, Vec<InputConnection>>, target: ComponentId, conn: InputConnection)
    ensures
        forall|id: IdView| #[trigger] recorded_of(*final(map), id) == if id == target@ {
            recorded_of(*old(map), id).push(conn@)
        } else {
            recorded_of(*old(map), id)
        },
{
    let ghost cv = conn@;
    let ghost tv = target@;
    match map.find(&target) {
        Some(i) => {
            proof {
                map.lemma_view_at(i as int);
            }
            let mut v = map.set_value_at(i, Vec::new());
            let ghost v0 = v@;
            v.push(conn);
            map.set_value_at(i, v);
            proof {
                assert(v@.map_values(|c: InputConnection| c@) =~= v0.map_values(|c: InputConnection| c@).push(cv));
            }
        },
        None => {
            let mut v: Vec<InputConnection> = Vec::new();
            v.push(conn);
            map.insert(target, v);
            proof {
                assert(v@.map_values(|c: InputConnection| c@) =~= Seq::<InputView>::empty().push(cv));
            }
        },
    }
}

/// The input connections of every component, from the connection map.
fn build_input_connections(connections: &AssocMap<PortRef, Vec<PortRef>>) -> (r: AssocMap<ComponentId, Vec<InputConnection>>)
    ensures
        forall|id: IdView| #[trigger] recorded_of(r, id) == inputs_from(connections.key_seq(), connection_view(*connections), id),
{
    let ghost c = connection_view(*connections);
    let ghost ks = connections.key_seq();
    let mut r: AssocMap<ComponentId, Vec<InputConnection>> = AssocMap::new();
    let n = connections.len();
    let mut i: usize = 0;
    while i < n
        invariant
            n == connections.entries().len(),
            i <= n,
            connections.wf(),
            c == connection_view(*connections),
            ks == connections.key_seq(),
            forall|id: IdView| #[trigger] recorded_of(r, id) == inputs_from(ks.take(i as int), c, id),
        decreases n - i,
    {
        proof {
            connections.lemma_view_at(i as int);
        }
        let key = connections.key_at(i);
        let targets = connections.value_at(i);
        let ghost s = ks[i as int];
        assert(s == (key.0@, key.1@));
        assert(c[s] == port_views(targets@));
        let mut j: usize = 0;
        while j < targets.len()
            invariant
                j <= targets@.len(),
                s == (key.0@, key.1@),
                forall|id: IdView| #[trigger] recorded_of(r, id) == inputs_from(ks.take(i as int), c, id) + port_views(
                    targets@.take(j as int),
                ).filter(on_component(id)).map_values(fed_from(s)),
            decreases targets@.len() - j,
        {
            let ghost before = r;
            let t = &targets[j];
            let ghost tv = (t.0@, t.1@);
            let conn = InputConnection { source_id: key.0.duplicate(), source_port: key.1.clone(), target_port: t.1.clone() };
            assert(conn@ == (s, tv.1));
            push_input(&mut r, t.0.duplicate(), conn);
            proof {
                assert(port_views(targets@.take(j as int + 1)) =~= port_views(targets@.take(j as int)).push(tv));
                assert forall|id: IdView| #[trigger] recorded_of(r, id) == inputs_from(ks.take(i as int), c, id) + port_views(
                    targets@.take(j as int + 1),
                ).filter(on_component(id)).map_values(fed_from(s)) by {
                    crate::assoc::lemma_filter_push(port_views(targets@.take(j as int)), tv, on_component(id));
                    let f0 = port_views(targets@.take(j as int)).filter(on_component(id));
                    if id == tv.0 {
                        assert(f0.push(tv).map_values(fed_from(s)) =~= f0.map_values(fed_from(s)).push((s, tv.1)));
                        assert(recorded_of(r, id) == recorded_of(before, id).push((s, tv.1)));
                        assert((inputs_from(ks.take(i as int), c, id) + f0.map_values(fed_from(s))).push((s, tv.1))
                            =~= inputs_from(ks.take(i as int), c, id) + f0.push(tv).map_values(fed_from(s)));
                    }
                }
            }
            j = j + 1;
        }
        proof {
            assert(targets@.take(targets@.len() as int) =~= targets@);
            assert(ks.take(i as int + 1).drop_last() =~= ks.take(i as int));
            assert(targets_or_empty(c, s) == port_views(targets@));
        }
        i = i + 1;
    }
    assert(ks.take(n as int) =~= ks);
    r
}

/// `after` has every memory module with its snapshot taken.
pub open spec fn all_snapshotted(before: Map<IdView, MemoryStore>, after: Map<IdView, MemoryStore>) -> bool {
    &&& after.dom() == before.dom()
    &&& forall|k: IdView| #[trigger] after.contains_key(k) ==> after[k].snapshot_state() == before[k].current()
        && after[k].current() == before[k].current() && after[k].data_kind() == before[k].data_kind()
        && after[k].id_view() == before[k].id_view()
}

/// Runs the processing components of a simulation cycle by cycle, in an order
/// that respects their connections, and keeps the memory components.
pub struct CycleEngine {
    /// Processing component instances
    processing_components: AssocMap<ComponentId, ProcessingComponent>,
    /// Memory component instances
    memory_components: AssocMap<ComponentId, MemoryStore>,
    /// Port connections: (source_id, source_port) -> targets
    connections: AssocMap<PortRef, Vec<PortRef>>,
    /// Current cycle number
    current_cycle: u64,
    /// Execution order for processing components, in stages
    execution_order: Vec<Vec<ComponentId>>,
    /// Execution order with each stage split into sub-levels
    sub_level_execution_order: Vec<Stage>,
    /// Outputs of the current cycle
    output_buffer: AssocMap<PortRef, Event>,
    /// Memory connections: (component_id, port) -> memory_id
    memory_connections: AssocMap<PortRef, ComponentId>,
    /// The input connections of each component, in the order of the connections
    input_connections: AssocMap<ComponentId, Vec<InputConnection>>,
    /// Simulation configuration
    config: SimulationConfig,
    /// The memory components each processing component may use
    component_memory_map: AssocMap<ComponentId, Vec<ComponentId>>,
}

impl CycleEngine {
    /// The processing components by identifier.
    pub closed spec fn procs(&self) -> Map<IdView, ProcessingComponent> {
        self.processing_components.as_map()
    }

    /// The processing components' identifiers, in registration order.
    pub closed spec fn proc_order(&self) -> Seq<IdView> {
        self.processing_components.key_seq()
    }

    /// The memory components by identifier.
    pub closed spec fn mems(&self) -> Map<IdView, MemoryStore> {
        self.memory_components.as_map()
    }

    /// The memory components' identifiers, in registration order.
    pub closed spec fn mem_order(&self) -> Seq<IdView> {
        self.memory_components.key_seq()
    }

    /// The connections by source port.
    pub closed spec fn conns(&self) -> Map<PortView, Seq<PortView>> {
        connection_view(self.connections)
    }

    /// The connected source ports, in the order they were first connected.
    pub closed spec fn sources(&self) -> Seq<PortView> {
        self.connections.key_seq()
    }

    /// The memory component each memory port is wired to.
    pub closed spec fn mem_conns(&self) -> Map<PortView, IdView> {
        memory_view(self.memory_connections)
    }

    /// The wired memory ports, in the order they were wired.
    pub closed spec fn mem_conn_order(&self) -> Seq<PortView> {
        self.memory_connections.key_seq()
    }

    /// The current cycle.
    pub closed spec fn cycle_count(&self) -> u64 {
        self.current_cycle
    }

    /// The outputs produced in the current cycle, by port.
    pub closed spec fn outputs(&self) -> Map<PortView, Event> {
        self.output_buffer.as_map()
    }

    /// The staged execution order.
    pub closed spec fn order(&self) -> Seq<Seq<IdView>> {
        stage_views(self.execution_order@)
    }

    /// The configuration.
    pub closed spec fn configuration(&self) -> SimulationConfig {
        self.config
    }

    /// The input connections recorded for a component, if any.
    pub closed spec fn recorded_inputs(&self, id: IdView) -> Seq<InputView> {
        recorded_of(self.input_connections, id)
    }

    /// The connection map itself.
    pub closed spec fn connection_map(&self) -> AssocMap<PortRef, Vec<PortRef>> {
        self.connections
    }

    /// The memory components recorded as usable by a component.
    pub closed spec fn recorded_deps(&self, id: IdView) -> Seq<IdView> {
        deps_of(self.component_memory_map, id)
    }

    /// Create a new cycle engine with configuration
    pub fn new(config: SimulationConfig) -> (r: Self)
        ensures
            r.procs() == Map::<IdView, ProcessingComponent>::empty(),
            r.mems() == Map::<IdView, MemoryStore>::empty(),
            r.conns() == Map::<PortView, Seq<PortView>>::empty(),
            r.mem_conns() == Map::<PortView, IdView>::empty(),
            r.cycle_count() == 0,
            r.outputs() == Map::<PortView, Event>::empty(),
            r.order() == Seq::<Seq<IdView>>::empty(),
            r.configuration() == config,
    {
        let r = CycleEngine {
            processing_components: AssocMap::new(),
            memory_components: AssocMap::new(),
            connections: AssocMap::new(),
            current_cycle: 0,
            execution_order: Vec::new(),
            sub_level_execution_order: Vec::new(),
            output_buffer: AssocMap::new(),
            memory_connections: AssocMap::new(),
            input_connections: AssocMap::new(),
            config,
            component_memory_map: AssocMap::new(),
        };
        proof {
            assert(r.conns() =~= Map::<PortView, Seq<PortView>>::empty());
            assert(r.mem_conns() =~= Map::<PortView, IdView>::empty());
            assert(r.order() =~= Seq::<Seq<IdView>>::empty());
        }
        r
    }

    /// Create a new cycle engine with the default, sequential configuration
    pub fn new_sequential() -> (r: Self)
        ensures
            r.procs() == Map::<IdView, ProcessingComponent>::empty(),
            r.mems() == Map::<IdView, MemoryStore>::empty(),
            r.conns() == Map::<PortView, Seq<PortView>>::empty(),
            r.mem_conns() == Map::<PortView, IdView>::empty(),
            r.cycle_count() == 0,
            r.configuration().concurrency_mode == ConcurrencyMode::Sequential,
    {
        Self::new(SimulationConfig::default())
    }

    /// Register a component instance: a processing component joins the
    /// processing components, a memory component the memory components
    pub fn register_component_instance(&mut self, instance: ComponentInstance) -> (r: Result<(), String>)
        ensures
            r is Ok,
            final(self).procs() == match instance.module {
                ComponentModule::Processing(m) => old(self).procs().insert(
                    instance.id@,
                    ProcessingComponent { id: instance.id, module: m },
                ),
                ComponentModule::Memory(_) => old(self).procs(),
            },
            final(self).mems() == match instance.module {
                ComponentModule::Processing(_) => old(self).mems(),
                ComponentModule::Memory(s) => old(self).mems().insert(instance.id@, s),
            },
            final(self).conns() == old(self).conns(),
            final(self).mem_conns() == old(self).mem_conns(),
            final(self).cycle_count() == old(self).cycle_count(),
            final(self).configuration() == old(self).configuration(),
    {
        let id = instance.id.duplicate();
        match instance.module {
            ComponentModule::Processing(module) => {
                self.processing_components.insert(id, ProcessingComponent { id: instance.id, module });
            },
            ComponentModule::Memory(module) => {
                self.memory_components.insert(id, module);
            },
        }
        Ok(())
    }

    /// Check if a component exists
    pub fn has_component(&self, id: &ComponentId) -> (b: bool)
        ensures
            b == (self.procs().contains_key(id@) || self.mems().contains_key(id@)),
    {
        self.processing_components.contains_key(id) || self.memory_components.contains_key(id)
    }

    /// Add a connection between components that both exist
    pub fn connect(&mut self, source: PortRef, target: PortRef) -> (r: Result<(), String>)
        ensures
            r is Ok <==> (old(self).procs().contains_key(source.0@) || old(self).mems().contains_key(source.0@))
                && (old(self).procs().contains_key(target.0@) || old(self).mems().contains_key(target.0@)),
            final(self).conns() == if r is Ok {
                old(self).conns().insert(
                    source.key_view(),
                    targets_or_empty(old(self).conns(), source.key_view()).push(target.key_view()),
                )
            } else {
                old(self).conns()
            },
            final(self).procs() == old(self).procs(),
            final(self).mems() == old(self).mems(),
            final(self).mem_conns() == old(self).mem_conns(),
            final(self).cycle_count() == old(self).cycle_count(),
            final(self).configuration() == old(self).configuration(),
            match r {
                Ok(_) => true,
                Err(e) => if !(old(self).procs().contains_key(source.0@) || old(self).mems().contains_key(source.0@)) {
                    e@ == "Source component '"@ + source.0@.0 + "' not found"@
                } else {
                    e@ == "Target component '"@ + target.0@.0 + "' not found"@
                },
            },
    {
        if !self.has_component(&source.0) {
            return Err(join3("Source component '", source.0.id(), "' not found"));
        }
        if !self.has_component(&target.0) {
            return Err(join3("Target component '", target.0.id(), "' not found"));
        }
        crate::connections::push_target(&mut self.connections, source, target);
        Ok(())
    }

    /// Wire a component's memory port to a memory component
    pub fn connect_memory(&mut self, component_port: PortRef, memory_id: ComponentId) -> (r: Result<(), String>)
        ensures
            r is Ok <==> (old(self).procs().contains_key(component_port.0@) || old(self).mems().contains_key(
                component_port.0@,
            )) && old(self).mems().contains_key(memory_id@),
            final(self).mem_conns() == if r is Ok {
                old(self).mem_conns().insert(component_port.key_view(), memory_id@)
            } else {
                old(self).mem_conns()
            },
            final(self).procs() == old(self).procs(),
            final(self).mems() == old(self).mems(),
            final(self).conns() == old(self).conns(),
            final(self).cycle_count() == old(self).cycle_count(),
            final(self).configuration() == old(self).configuration(),
            match r {
                Ok(_) => true,
                Err(e) => if !(old(self).procs().contains_key(component_port.0@) || old(self).mems().contains_key(
                    component_port.0@,
                )) {
                    e@ == "Component '"@ + component_port.0@.0 + "' not found"@
                } else {
                    e@ == "Memory component '"@ + memory_id@.0 + "' not found"@
                },
            },
    {
        if !self.has_component(&component_port.0) {
            return Err(join3("Component '", component_port.0.id(), "' not found"));
        }
        if !self.memory_components.contains_key(&memory_id) {
            return Err(join3("Memory component '", memory_id.id(), "' not found"));
        }
        let ghost m0 = self.mem_conns();
        let ghost kv = component_port.key_view();
        self.memory_connections.insert(component_port, memory_id);
        assert(self.mem_conns() =~= m0.insert(kv, memory_id@));
        Ok(())
    }

    /// Get the current cycle number
    pub fn current_cycle(&self) -> (r: u64)
        ensures
            r == self.cycle_count(),
    {
        self.current_cycle
    }

    /// The configuration the engine runs with
    pub fn config(&self) -> (r: &SimulationConfig)
        ensures
            *r == self.configuration(),
    {
        &self.config
    }

    /// The staged execution order
    pub fn execution_order(&self) -> (r: &Vec<Vec<ComponentId>>)
        ensures
            stage_views(r@) == self.order(),
    {
        &self.execution_order
    }

    /// The execution order with each stage split into sub-levels
    pub fn sub_level_execution_order(&self) -> (r: &Vec<Stage>)
        ensures
            r@ == self.sub_order(),
    {
        &self.sub_level_execution_order
    }

    /// Get all component IDs: the processing components, then the memory
    /// components, each in registration order
    pub fn component_ids(&self) -> (r: Vec<&ComponentId>)
        ensures
            r@.map_values(|c: &ComponentId| c@) == self.proc_order() + self.mem_order(),
    {
        let mut r: Vec<&ComponentId> = Vec::new();
        let n = self.processing_components.len();
        let mut i: usize = 0;
        while i < n
            invariant
                n == self.processing_components.entries().len(),
                i <= n,
                r@.map_values(|c: &ComponentId| c@) == self.processing_components.key_seq().take(i as int),
            decreases n - i,
        {
            let ghost before = r@;
            r.push(self.processing_components.key_at(i));
            proof {
                assert(r@.map_values(|c: &ComponentId| c@) =~= before.map_values(|c: &ComponentId| c@).push(
                    self.processing_components.key_seq()[i as int],
                ));
                assert(self.processing_components.key_seq().take(i as int + 1)
                    =~= self.processing_components.key_seq().take(i as int).push(
                    self.processing_components.key_seq()[i as int],
                ));
            }
            i = i + 1;
        }
        assert(self.processing_components.key_seq().take(n as int) =~= self.processing_components.key_seq());
        let m = self.memory_components.len();
        let mut j: usize = 0;
        while j < m
            invariant
                m == self.memory_components.entries().len(),
                j <= m,
                r@.map_values(|c: &ComponentId| c@) == self.processing_components.key_seq()
                    + self.memory_components.key_seq().take(j as int),
            decreases m - j,
        {
            let ghost before = r@;
            r.push(self.memory_components.key_at(j));
            proof {
                assert(r@.map_values(|c: &ComponentId| c@) =~= before.map_values(|c: &ComponentId| c@).push(
                    self.memory_components.key_seq()[j as int],
                ));
                assert(self.memory_components.key_seq().take(j as int + 1) =~= self.memory_components.key_seq().take(
                    j as int,
                ).push(self.memory_components.key_seq()[j as int]));
            }
            j = j + 1;
        }
        assert(self.memory_components.key_seq().take(m as int) =~= self.memory_components.key_seq());
        r
    }
    /// Copies of the processing components' identifiers, in registration order.
    fn processing_ids(&self) -> (r: Vec<ComponentId>)
        ensures
            id_views(r@) == self.proc_order(),
            self.proc_order().no_duplicates(),
    {
        let mut r: Vec<ComponentId> = Vec::new();
        let n = self.processing_components.len();
        let mut i: usize = 0;
        while i < n
            invariant
                n == self.processing_components.entries().len(),
                i <= n,
                id_views(r@) == self.processing_components.key_seq().take(i as int),
            decreases n - i,
        {
            let ghost before = r@;
            r.push(self.processing_components.key_at(i).duplicate());
            proof {
                assert(id_views(r@) =~= id_views(before).push(self.processing_components.key_seq()[i as int]));
                assert(self.processing_components.key_seq().take(i as int + 1)
                    =~= self.processing_components.key_seq().take(i as int).push(
                    self.processing_components.key_seq()[i as int],
                ));
            }
            i = i + 1;
        }
        assert(self.processing_components.key_seq().take(n as int) =~= self.processing_components.key_seq());
        r
    }

    /// The memory components wired to the component's memory ports, in the
    /// order the wiring is stored.
    fn memory_dependencies(&self, id: &ComponentId) -> (r: Vec<ComponentId>)
        ensures
            id_views(r@) == memory_deps(self.mem_conn_order(), self.mem_conns(), id@),
    {
        let ghost ks = self.memory_connections.key_seq();
        let ghost mc = self.mem_conns();
        let mut r: Vec<ComponentId> = Vec::new();
        let n = self.memory_connections.len();
        let mut i: usize = 0;
        while i < n
            invariant
                n == self.memory_connections.entries().len(),
                i <= n,
                self.memory_connections.wf(),
                ks == self.memory_connections.key_seq(),
                mc == self.mem_conns(),
                id_views(r@) == ks.take(i as int).filter(on_component(id@)).map_values(wired_to(mc)),
            decreases n - i,
        {
            proof {
                self.memory_connections.lemma_view_at(i as int);
                assert(ks.take(i as int + 1) =~= ks.take(i as int).push(ks[i as int]));
                crate::assoc::lemma_filter_push(ks.take(i as int), ks[i as int], on_component(id@));
            }
            let ghost before = r@;
            let key = self.memory_connections.key_at(i);
            assert(ks[i as int] == (key.0@, key.1@));
            if key.0.same_as(id) {
                let memory_id = self.memory_connections.value_at(i);
                assert(mc[ks[i as int]] == memory_id@);
                r.push(memory_id.duplicate());
                proof {
                    let f0 = ks.take(i as int).filter(on_component(id@));
                    assert(id_views(r@) =~= id_views(before).push(memory_id@));
                    assert(f0.push(ks[i as int]).map_values(wired_to(mc)) =~= f0.map_values(wired_to(mc)).push(
                        mc[ks[i as int]],
                    ));
                }
            }
            i = i + 1;
        }
        assert(ks.take(n as int) =~= ks);
        r
    }

    /// The memory components each processing component may use; components
    /// with none are left out.
    fn build_memory_map(&self) -> (r: AssocMap<ComponentId, Vec<ComponentId>>)
        ensures
            forall|id: IdView| #[trigger] deps_of(r, id) == if self.procs().contains_key(id) {
                memory_deps(self.mem_conn_order(), self.mem_conns(), id)
            } else {
                Seq::<IdView>::empty()
            },
    {
        let mut r: AssocMap<ComponentId, Vec<ComponentId>> = AssocMap::new();
        let ghost ks = self.processing_components.key_seq();
        let n = self.processing_components.len();
        let mut i: usize = 0;
        while i < n
            invariant
                n == self.processing_components.entries().len(),
                i <= n,
                self.processing_components.wf(),
                ks == self.processing_components.key_seq(),
                forall|id: IdView| #[trigger] deps_of(r, id) == if ks.contains(id) && ks.index_of(id) < i {
                    memory_deps(self.mem_conn_order(), self.mem_conns(), id)
                } else {
                    Seq::<IdView>::empty()
                },
                forall|id: IdView| #[trigger] r.as_map().contains_key(id) ==> ks.contains(id) && ks.index_of(id) < i,
            decreases n - i,
        {
            proof {
                self.processing_components.lemma_view_at(i as int);
            }
            let comp_id = self.processing_components.key_at(i);
            let ghost kv = comp_id@;
            assert(kv == ks[i as int]);
            let deps = self.memory_dependencies(comp_id);
            let ghost before = r;
            if deps.len() > 0 {
                let ghost dv = id_views(deps@);
                proof {
                    assert(!before.as_map().contains_key(kv));
                }
                r.insert(comp_id.duplicate(), deps);
            } else {
                assert(id_views(deps@) =~= Seq::<IdView>::empty());
            }
            proof {
                assert forall|id: IdView| #[trigger] ks.contains(id) implies (ks.index_of(id) < i + 1 <==> (ks.index_of(id)
                    < i || id == kv)) by {
                    let x = ks.index_of(id);
                    lemma_index_of_distinct(ks, x);
                }
                lemma_index_of_distinct(ks, i as int);
                assert forall|id: IdView| #[trigger] deps_of(r, id) == if ks.contains(id) && ks.index_of(id) < i + 1 {
                    memory_deps(self.mem_conn_order(), self.mem_conns(), id)
                } else {
                    Seq::<IdView>::empty()
                } by {
                    if id == kv {
                        assert(ks.contains(kv));
                    } else {
                        assert(deps_of(r, id) == deps_of(before, id));
                    }
                }
                assert forall|id: IdView| #[trigger] r.as_map().contains_key(id) implies ks.contains(id) && ks.index_of(id)
                    < i + 1 by {
                    if id == kv {
                        assert(ks.contains(kv));
                    }
                }
            }
            i = i + 1;
        }
        proof {
            assert forall|id: IdView| #[trigger] ks.contains(id) implies ks.index_of(id) < n by {}
        }
        r
    }

    /// Build the execution order: the staged order of the processing components,
    /// the same split into sub-levels, the input connections of each component,
    /// and the memory components each may use.  A dependency cycle leaves the
    /// engine as it was.
    pub fn build_execution_order(&mut self) -> (r: Result<(), String>)
        ensures
            final(self).procs() == old(self).procs(),
            final(self).mems() == old(self).mems(),
            final(self).conns() == old(self).conns(),
            final(self).mem_conns() == old(self).mem_conns(),
            final(self).cycle_count() == old(self).cycle_count(),
            final(self).connection_map() == old(self).connection_map(),
            final(self).proc_order() == old(self).proc_order(),
            final(self).sources() == old(self).sources(),
            final(self).mem_conn_order() == old(self).mem_conn_order(),
            r is Ok <==> !gets_stuck(&old(self).connection_map(), old(self).proc_order().to_set()),
            match r {
                Ok(_) => valid_stages(&final(self).connection_map(), final(self).proc_order(), final(self).order())
                    && final(self).sub_order().len() == final(self).order().len() && (forall|k: int|
                    0 <= k < final(self).order().len() ==> (#[trigger] final(self).sub_order()[k]).sub_levels@.len() == 1
                        && id_views(final(self).sub_order()[k].sub_levels@[0].components@) == final(self).order()[k])
                    && (forall|id: IdView| #[trigger] final(self).recorded_inputs(id) == inputs_from(
                        final(self).sources(),
                        final(self).conns(),
                        id,
                    )) && (forall|id: IdView| final(self).procs().contains_key(id) ==> #[trigger] final(self).recorded_deps(id)
                        == memory_deps(final(self).mem_conn_order(), final(self).mem_conns(), id)),
                Err(e) => e@ == crate::execution_order::cycle_message() && gets_stuck(
                    &final(self).connection_map(),
                    final(self).proc_order().to_set(),
                ) && *final(self) == *old(self),
            },
    {
        let ids = self.processing_ids();
        let stages = ExecutionOrderBuilder::build_execution_order_stages(ids.as_slice(), &self.connections)?;
        let sub_levels = ExecutionOrderBuilder::build_execution_order_with_sub_levels(ids.as_slice(), &self.connections)?;
        proof {
            let st = choose|st: Seq<Seq<IdView>>| #[trigger] valid_stages(&self.connections, id_views(ids@), st)
                && sub_levels@.len() == st.len() && forall|k: int| 0 <= k < st.len() ==> (#[trigger] sub_levels@[k]).sub_levels@.len() == 1
                    && id_views(sub_levels@[k].sub_levels@[0].components@) == st[k];
            crate::execution_order::lemma_valid_stages_unique(&self.connections, id_views(ids@), st, stage_views(stages@));
        }
        self.execution_order = stages;
        self.sub_level_execution_order = sub_levels;
        self.input_connections = build_input_connections(&self.connections);
        self.component_memory_map = self.build_memory_map();
        proof {
            crate::execution_order::lemma_valid_stages_not_stuck(&self.connection_map(), self.proc_order(), self.order());
            assert forall|id: IdView| self.procs().contains_key(id) implies #[trigger] self.recorded_deps(id)
                == memory_deps(self.mem_conn_order(), self.mem_conns(), id) by {
                assert(deps_of(self.component_memory_map, id) == memory_deps(self.mem_conn_order(), self.mem_conns(), id));
            }
        }
        Ok(())
    }
}

/// The memory components recorded for a component.
pub open spec fn deps_of(m: AssocMap<ComponentId, Vec<ComponentId>>, id: IdView) -> Seq<IdView> {
    if m.as_map().contains_key(id) {
        id_views(m.as_map()[id]@)
    } else {
        Seq::empty()
    }
}

impl CycleEngine {
    /// Collect the inputs of a component from the outputs produced so far in
    /// the cycle
    fn collect_inputs(&self, component_id: &ComponentId) -> (r: EventInputMap)
        ensures
            event_views(r.events()) == collected(self.recorded_inputs(component_id@), event_views(self.outputs())),
    {
        let mut inputs = EventInputMap::new();
        let ghost buffer = event_views(self.outputs());
        match self.input_connections.get(component_id) {
            Some(conns) => {
                let ghost cs = conns@.map_values(|c: InputConnection| c@);
                let mut j: usize = 0;
                assert(event_views(inputs.events()) =~= collected(cs.take(0), buffer));
                while j < conns.len()
                    invariant
                        j <= conns@.len(),
                        cs == conns@.map_values(|c: InputConnection| c@),
                        buffer == event_views(self.outputs()),
                        event_views(inputs.events()) == collected(cs.take(j as int), buffer),
                    decreases conns@.len() - j,
                {
                    let c = &conns[j];
                    let ghost before = event_views(inputs.events());
                    proof {
                        assert(cs.take(j as int + 1).drop_last() =~= cs.take(j as int));
                        assert(cs.take(j as int + 1).last() == c@);
                    }
                    let key = (c.source_id.duplicate(), c.source_port.clone());
                    match self.output_buffer.get(&key) {
                        Some(event) => {
                            let ghost ev = event_view(*event);
                            inputs.insert_event(c.target_port.clone(), event.duplicate());
                            assert(event_views(inputs.events()) =~= before.insert(c@.1, ev));
                        },
                        None => {},
                    }
                    j = j + 1;
                }
                assert(cs.take(conns@.len() as int) =~= cs);
            },
            None => {
                assert(event_views(inputs.events()) =~= Map::<Seq<char>, EventView>::empty());
            },
        }
        inputs
    }

    /// The memory wiring of one component.
    fn component_memory_connections(&self, component_id: &ComponentId) -> (r: AssocMap<PortRef, ComponentId>)
        ensures
            memory_view(r) == self.mem_conns().restrict(self.mem_conns().dom().filter(on_component(component_id@))),
    {
        let ghost mc = self.mem_conns();
        let ghost ks = self.memory_connections.key_seq();
        let mut r: AssocMap<PortRef, ComponentId> = AssocMap::new();
        let n = self.memory_connections.len();
        let mut i: usize = 0;
        while i < n
            invariant
                n == self.memory_connections.entries().len(),
                i <= n,
                self.memory_connections.wf(),
                mc == self.mem_conns(),
                ks == self.memory_connections.key_seq(),
                memory_view(r) == Map::new(
                    |k: PortView| ks.contains(k) && ks.index_of(k) < i && k.0 == component_id@,
                    |k: PortView| mc[k],
                ),
            decreases n - i,
        {
            proof {
                self.memory_connections.lemma_view_at(i as int);
            }
            let key = self.memory_connections.key_at(i);
            let ghost kv = key.key_view();
            assert(kv == ks[i as int]);
            let ghost before = memory_view(r);
            if key.0.same_as(component_id) {
                let memory_id = self.memory_connections.value_at(i);
                assert(mc[kv] == memory_id@);
                r.insert(key.copy_key(), memory_id.duplicate());
                assert(memory_view(r) =~= before.insert(kv, mc[kv]));
            }
            proof {
                assert forall|k: PortView| #[trigger] ks.contains(k) implies (ks.index_of(k) < i + 1 <==> (ks.index_of(k) < i
                    || k == kv)) by {
                    let x = ks.index_of(k);
                    lemma_index_of_distinct(ks, x);
                }
                assert(memory_view(r) =~= Map::new(
                    |k: PortView| ks.contains(k) && ks.index_of(k) < i + 1 && k.0 == component_id@,
                    |k: PortView| mc[k],
                ));
            }
            i = i + 1;
        }
        proof {
            assert(memory_view(r) =~= mc.restrict(mc.dom().filter(on_component(component_id@))));
        }
        r
    }

    /// The memory components a component may use, as recorded.
    fn recorded_dependencies(&self, component_id: &ComponentId) -> (r: Vec<ComponentId>)
        ensures
            id_views(r@) == self.recorded_deps(component_id@),
    {
        match self.component_memory_map.get(component_id) {
            Some(deps) => copy_ids(deps),
            None => {
                let r: Vec<ComponentId> = Vec::new();
                assert(id_views(r@) =~= Seq::<IdView>::empty());
                r
            },
        }
    }

    /// Copies of the memory modules a component may use.
    fn memory_subset(&self, deps: &Vec<ComponentId>) -> (r: AssocMap<ComponentId, MemoryStore>)
        ensures
            forall|k: IdView| #[trigger] r.as_map().contains_key(k) <==> (id_views(deps@).contains(k)
                && self.mems().contains_key(k)),
            forall|k: IdView| #[trigger] r.as_map().contains_key(k) ==> self.mems().contains_key(k)
                && r.as_map()[k].snapshot_state() == self.mems()[k].snapshot_state()
                && r.as_map()[k].current() == self.mems()[k].current()
                && r.as_map()[k].data_kind() == self.mems()[k].data_kind()
                && r.as_map()[k].id_view() == self.mems()[k].id_view(),
    {
        let mut r: AssocMap<ComponentId, MemoryStore> = AssocMap::new();
        let mut i: usize = 0;
        while i < deps.len()
            invariant
                i <= deps@.len(),
                forall|k: IdView| #[trigger] r.as_map().contains_key(k) <==> (id_views(deps@).take(i as int).contains(k)
                    && self.mems().contains_key(k)),
                forall|k: IdView| #[trigger] r.as_map().contains_key(k) ==> self.mems().contains_key(k)
                    && r.as_map()[k].snapshot_state() == self.mems()[k].snapshot_state()
                    && r.as_map()[k].current() == self.mems()[k].current()
                    && r.as_map()[k].data_kind() == self.mems()[k].data_kind()
                    && r.as_map()[k].id_view() == self.mems()[k].id_view(),
            decreases deps@.len() - i,
        {
            proof {
                crate::assoc::lemma_take_one_more(id_views(deps@), i as int);
            }
            match self.memory_components.get(&deps[i]) {
                Some(m) => {
                    r.insert(deps[i].duplicate(), m.clone_module());
                },
                None => {},
            }
            i = i + 1;
        }
        proof {
            assert(id_views(deps@).take(deps@.len() as int) =~= id_views(deps@));
        }
        r
    }

    /// Puts updated memory modules back, replacing the ones with their
    /// identifiers.
    fn merge_memory_components(&mut self, updated: AssocMap<ComponentId, MemoryStore>)
        ensures
            final(self).mems() == old(self).mems().union_prefer_right(updated.as_map()),
            final(self).procs() == old(self).procs(),
            final(self).conns() == old(self).conns(),
            final(self).mem_conns() == old(self).mem_conns(),
            final(self).cycle_count() == old(self).cycle_count(),
            final(self).outputs() == old(self).outputs(),
            final(self).order() == old(self).order(),
            final(self).mem_order().to_set() == old(self).mem_order().to_set() + updated.key_seq().to_set(),
            final(self).same_plan(&*old(self)),
    {
        let ghost m0 = self.mems();
        let ghost o0 = self.mem_order();
        let n = updated.len();
        let mut rest = updated;
        let ghost all = rest.as_map();
        let ghost keys = rest.key_seq();
        let mut i: usize = 0;
        while i < n
            invariant
                n == keys.len(),
                i <= n,
                keys.no_duplicates(),
                all == updated.as_map(),
                keys == updated.key_seq(),
                rest.key_seq() == keys,
                forall|k: IdView| #[trigger] rest.as_map().contains_key(k) ==> all.contains_key(k),
                forall|j: int| i <= j < n ==> rest.as_map()[#[trigger] keys[j]] == all[keys[j]],
                self.mems() == m0.union_prefer_right(all.restrict(keys.take(i as int).to_set())),
                self.mem_order().to_set() == o0.to_set() + keys.take(i as int).to_set(),
                self.procs() == old(self).procs(),
                self.conns() == old(self).conns(),
                self.mem_conns() == old(self).mem_conns(),
                self.cycle_count() == old(self).cycle_count(),
                self.outputs() == old(self).outputs(),
                self.order() == old(self).order(),
                self.same_plan(&*old(self)),
            decreases n - i,
        {
            let key = rest.key_at(i).duplicate();
            let ghost kv = key@;
            assert(kv == keys[i as int]);
            let store = rest.set_value_at(i, MemoryStore::new("", rest.value_at(i).kind()));
            assert(store == all[kv]);
            let ghost before = self.mems();
            let ghost before_order = self.mem_order();
            let old_v = self.memory_components.insert(key, store);
            proof {
                assert forall|j: int| i + 1 <= j < n implies rest.as_map()[#[trigger] keys[j]] == all[keys[j]] by {
                    assert(keys[j] != keys[i as int]);
                }
                assert(keys.take(i as int + 1).to_set() =~= keys.take(i as int).to_set().insert(kv)) by {
                    assert(keys.take(i as int + 1) =~= keys.take(i as int).push(kv));
                    crate::assoc::lemma_push_to_set(keys.take(i as int), kv);
                }
                assert(self.mems() =~= m0.union_prefer_right(all.restrict(keys.take(i as int + 1).to_set())));
                match old_v {
                    Some(_) => {
                        assert(before.contains_key(kv));
                        assert(before_order.to_set().contains(kv)) by {
                            let x = before_order.index_of(kv);
                            assert(self.memory_components.key_seq() == before_order);
                        }
                        assert(self.mem_order().to_set() =~= o0.to_set() + keys.take(i as int + 1).to_set());
                    },
                    None => {
                        crate::assoc::lemma_push_to_set(before_order, kv);
                        assert(self.mem_order().to_set() =~= o0.to_set() + keys.take(i as int + 1).to_set());
                    },
                }
            }
            i = i + 1;
        }
        proof {
            assert(keys.take(n as int) =~= keys);
            assert(all.restrict(keys.to_set()) =~= all) by {
                assert forall|k: IdView| all.contains_key(k) implies keys.to_set().contains(k) by {
                    assert(updated.as_map().contains_key(k));
                }
            }
        }
    }
}

/// Copies of a list of identifiers.
fn copy_ids(ids: &Vec<ComponentId>) -> (r: Vec<ComponentId>)
    ensures
        id_views(r@) == id_views(ids@),
{
    let mut r: Vec<ComponentId> = Vec::new();
    let mut i: usize = 0;
    while i < ids.len()
        invariant
            i <= ids@.len(),
            id_views(r@) == id_views(ids@).take(i as int),
        decreases ids@.len() - i,
    {
        let ghost before = r@;
        r.push(ids[i].duplicate());
        proof {
            assert(id_views(r@) =~= id_views(before).push(ids@[i as int]@));
            assert(id_views(ids@).take(i as int + 1) =~= id_views(ids@).take(i as int).push(ids@[i as int]@));
        }
        i = i + 1;
    }
    assert(id_views(ids@).take(ids@.len() as int) =~= id_views(ids@));
    r
}

/// The failures of a group of components, each as "Component 'id': error",
/// separated by commas.
pub open spec fn failure_list(f: Seq<(Seq<char>, Seq<char>)>) -> Seq<char>
    decreases f.len(),
{
    if f.len() == 0 {
        Seq::empty()
    } else if f.len() == 1 {
        "Component '"@ + f[0].0 + "': "@ + f[0].1
    } else {
        failure_list(f.drop_last()) + ", "@ + "Component '"@ + f.last().0 + "': "@ + f.last().1
    }
}

/// The message for a group of components some of which failed.
pub open spec fn group_failure_message(kind: Seq<char>, f: Seq<(Seq<char>, Seq<char>)>) -> Seq<char> {
    kind + " execution failed in "@ + decimal(f.len()) + " components: ["@ + failure_list(f) + "]"@
}

/// The failures among the results of a group, with the component of each.
pub open spec fn failures_of(ids: Seq<IdView>, results: Seq<Result<(PortEventsView, Seq<WriteView>), Seq<char>>>) -> Seq<
    (Seq<char>, Seq<char>),
>
    decreases results.len(),
{
    if results.len() == 0 {
        Seq::empty()
    } else {
        let prev = failures_of(ids, results.drop_last());
        match results.last() {
            Ok(_) => prev,
            Err(e) => prev.push((ids[results.len() - 1].0, e)),
        }
    }
}

/// The abstract value of a component's outputs.
pub type PortEventsView = Map<Seq<char>, EventView>;

/// The result of evaluating one component in a group, by view.
pub open spec fn group_result_view(r: Result<(AssocMap<String, Event>, Vec<MemoryWrite>), String>) -> Result<
    (PortEventsView, Seq<WriteView>),
    Seq<char>,
> {
    match r {
        Ok((o, w)) => Ok((event_views(o.as_map()), w@.map_values(|x: MemoryWrite| x@))),
        Err(e) => Err(e@),
    }
}

/// The component was evaluated on the inputs its connections deliver from the
/// outputs `buffer` holds, with outputs stamped `stamp`; the evaluation ended
/// in `res` after making the writes `ws`.
pub open spec fn evaluated_at<V: Evaluator>(
    ev: &V,
    e: &CycleEngine,
    stamp: u64,
    id: IdView,
    buffer: Map<PortView, EventView>,
    res: Result<PortEventsView, Seq<char>>,
    ws: Seq<WriteView>,
) -> bool {
    &&& ev.evaluates_to(id, e.procs()[id].module.name@, collected(e.recorded_inputs(id), buffer), stamp, res, ws)
    &&& writes_allowed(e, id, ws)
}

/// The component was evaluated during the engine's current cycle: its
/// outputs are stamped with the engine's cycle count.
pub open spec fn evaluated<V: Evaluator>(
    ev: &V,
    e: &CycleEngine,
    id: IdView,
    buffer: Map<PortView, EventView>,
    res: Result<PortEventsView, Seq<char>>,
    ws: Seq<WriteView>,
) -> bool {
    evaluated_at(ev, e, e.cycle_count(), id, buffer, res, ws)
}

/// The cycle that runs next on the engine, by which its outputs are stamped.
pub open spec fn next_stamp(e: &CycleEngine) -> u64 {
    (e.cycle_count() + 1) as u64
}

/// Each write is one the component may make: the component is the writer and
/// the memory is one a memory port of it leads to and that it may use.
pub open spec fn writes_allowed(e: &CycleEngine, id: IdView, ws: Seq<WriteView>) -> bool {
    forall|i: int| 0 <= i < ws.len() ==> (#[trigger] ws[i]).3 == id && exists|port: Seq<char>| proxy_target(
        e.mem_conns(),
        id,
        Some(e.recorded_deps(id)),
        port,
    ) == Ok::<IdView, Seq<char>>(ws[i].0)
}

/// What running one component does to the outputs: a successful evaluation
/// adds its outputs, keyed by the component's ports; a failed one leaves the
/// outputs and its error is the result.
pub open spec fn step_outputs(
    before: Map<PortView, EventView>,
    after: Map<PortView, EventView>,
    id: IdView,
    res: Result<PortEventsView, Seq<char>>,
    r: Result<(), Seq<char>>,
) -> bool {
    match res {
        Ok(o) => r is Ok && after == before.union_prefer_right(tagged_outputs(id, o)),
        Err(e) => r == Err::<(), Seq<char>>(e) && after == before,
    }
}

/// What running one component of a group gives: a successful evaluation gives
/// its outputs and the memory writes it made, in order; a failed one gives its
/// error.
pub open spec fn group_step(
    res: Result<PortEventsView, Seq<char>>,
    ws: Seq<WriteView>,
    r: Result<(PortEventsView, Seq<WriteView>), Seq<char>>,
) -> bool {
    match res {
        Ok(o) => r == Ok::<(PortEventsView, Seq<WriteView>), Seq<char>>((o, ws)),
        Err(err) => r == Err::<(PortEventsView, Seq<WriteView>), Seq<char>>(err),
    }
}

/// The error for a component the engine does not know.
pub open spec fn not_found_message(id: IdView) -> Seq<char> {
    "Processing component '"@ + id.0 + "' not found"@
}

/// The first `outs.len()` components of `ids` ran one after another in the
/// cycle after `e`'s: each is a processing component, evaluated on the inputs
/// its connections deliver from the outputs of those before it; its evaluation
/// set the outputs `outs[k]` and made the memory writes `wss[k]`.
pub open spec fn sequential_run<V: Evaluator>(
    ev: &V,
    e: &CycleEngine,
    ids: Seq<IdView>,
    outs: Seq<PortEventsView>,
    wss: Seq<Seq<WriteView>>,
) -> bool {
    &&& outs.len() <= ids.len()
    &&& wss.len() == outs.len()
    &&& forall|k: int| 0 <= k < outs.len() ==> e.procs().contains_key(#[trigger] ids[k]) && evaluated_at(
        ev,
        e,
        next_stamp(e),
        ids[k],
        merged_outputs(Map::empty(), ids, outs.take(k)),
        Ok(outs[k]),
        wss[k],
    )
}

/// The run of `ids` stopped with `err` at the component after the first
/// `outs.len()`: it is not a processing component (and wrote nothing), or its
/// evaluation failed after making the writes `last`.
pub open spec fn sequential_stop<V: Evaluator>(
    ev: &V,
    e: &CycleEngine,
    ids: Seq<IdView>,
    outs: Seq<PortEventsView>,
    wss: Seq<Seq<WriteView>>,
    last: Seq<WriteView>,
    err: Seq<char>,
) -> bool {
    let id = ids[outs.len() as int];
    &&& outs.len() < ids.len()
    &&& sequential_run(ev, e, ids, outs, wss)
    &&& if e.procs().contains_key(id) {
        evaluated_at(ev, e, next_stamp(e), id, merged_outputs(Map::empty(), ids, outs), Err(err), last)
    } else {
        err == not_found_message(id) && last.len() == 0
    }
}

/// One more component of a sequential run.
pub proof fn lemma_sequential_step<V: Evaluator>(
    ev: &V,
    e: &CycleEngine,
    ids: Seq<IdView>,
    outs: Seq<PortEventsView>,
    wss: Seq<Seq<WriteView>>,
    o: PortEventsView,
    ws: Seq<WriteView>,
)
    requires
        sequential_run(ev, e, ids, outs, wss),
        outs.len() < ids.len(),
        e.procs().contains_key(ids[outs.len() as int]),
        evaluated_at(ev, e, next_stamp(e), ids[outs.len() as int], merged_outputs(Map::empty(), ids, outs), Ok(o), ws),
    ensures
        sequential_run(ev, e, ids, outs.push(o), wss.push(ws)),
        merged_outputs(Map::empty(), ids, outs.push(o)) == merged_outputs(Map::empty(), ids, outs).union_prefer_right(
            tagged_outputs(ids[outs.len() as int], o),
        ),
        wss.push(ws).flatten() == wss.flatten() + ws,
{
    let outs2 = outs.push(o);
    let wss2 = wss.push(ws);
    assert forall|k: int| 0 <= k < outs2.len() implies e.procs().contains_key(#[trigger] ids[k]) && evaluated_at(
        ev,
        e,
        next_stamp(e),
        ids[k],
        merged_outputs(Map::empty(), ids, outs2.take(k)),
        Ok(outs2[k]),
        wss2[k],
    ) by {
        if k < outs.len() {
            assert(outs2.take(k) =~= outs.take(k));
        } else {
            assert(outs2.take(k) =~= outs);
        }
    }
    assert(outs2.drop_last() =~= outs);
    wss.lemma_flatten_push(ws);
}

/// The groups of a sub-level order: every sub-level of every stage, in order.
pub open spec fn sub_level_groups(stages: Seq<Stage>) -> Seq<Seq<Seq<IdView>>> {
    stages.map_values(|st: Stage| level_views(st.sub_levels@))
}

/// The outputs after the first `outs.len()` groups: each group's outputs
/// merged in turn, in the order of its components.
pub open spec fn groups_buffer(groups: Seq<Seq<IdView>>, outs: Seq<Seq<PortEventsView>>) -> Map<PortView, EventView>
    decreases outs.len(),
{
    if outs.len() == 0 {
        Map::empty()
    } else {
        merged_outputs(groups_buffer(groups, outs.drop_last()), groups[outs.len() - 1], outs.last())
    }
}

/// All memory writes of a run of groups: group by group, component by
/// component, in order.
pub open spec fn groups_writes(wss: Seq<Seq<Seq<WriteView>>>) -> Seq<WriteView> {
    wss.map_values(|w: Seq<Seq<WriteView>>| w.flatten()).flatten()
}

/// The first `outs.len()` groups ran one after another; the components of a
/// group ran side by side, each a processing component evaluated on the inputs
/// its connections deliver from the outputs of the groups before; its
/// evaluation set the outputs `outs[g][i]` and made the writes `wss[g][i]`.
pub open spec fn group_run<V: Evaluator>(
    ev: &V,
    e: &CycleEngine,
    groups: Seq<Seq<IdView>>,
    outs: Seq<Seq<PortEventsView>>,
    wss: Seq<Seq<Seq<WriteView>>>,
) -> bool {
    &&& outs.len() <= groups.len()
    &&& wss.len() == outs.len()
    &&& forall|g: int| 0 <= g < outs.len() ==> (#[trigger] outs[g]).len() == groups[g].len() && wss[g].len()
        == groups[g].len() && forall|i: int|
        0 <= i < groups[g].len() ==> e.procs().contains_key(#[trigger] groups[g][i]) && evaluated_at(
            ev,
            e,
            next_stamp(e),
            groups[g][i],
            groups_buffer(groups, outs.take(g)),
            Ok(outs[g][i]),
            wss[g][i],
        )
}

/// One more group of a run.
pub proof fn lemma_group_step<V: Evaluator>(
    ev: &V,
    e: &CycleEngine,
    groups: Seq<Seq<IdView>>,
    outs: Seq<Seq<PortEventsView>>,
    wss: Seq<Seq<Seq<WriteView>>>,
    o: Seq<PortEventsView>,
    w: Seq<Seq<WriteView>>,
)
    requires
        group_run(ev, e, groups, outs, wss),
        outs.len() < groups.len(),
        o.len() == groups[outs.len() as int].len(),
        w.len() == o.len(),
        forall|i: int| 0 <= i < o.len() ==> e.procs().contains_key(#[trigger] groups[outs.len() as int][i]) && evaluated_at(
            ev,
            e,
            next_stamp(e),
            groups[outs.len() as int][i],
            groups_buffer(groups, outs),
            Ok(o[i]),
            w[i],
        ),
    ensures
        group_run(ev, e, groups, outs.push(o), wss.push(w)),
        groups_buffer(groups, outs.push(o)) == merged_outputs(groups_buffer(groups, outs), groups[outs.len() as int], o),
        groups_writes(wss.push(w)) == groups_writes(wss) + w.flatten(),
{
    let outs2 = outs.push(o);
    let wss2 = wss.push(w);
    assert(outs2.drop_last() =~= outs);
    assert forall|g: int| 0 <= g < outs2.len() implies (#[trigger] outs2[g]).len() == groups[g].len() && wss2[g].len()
        == groups[g].len() && forall|i: int|
        0 <= i < groups[g].len() ==> e.procs().contains_key(#[trigger] groups[g][i]) && evaluated_at(
            ev,
            e,
            next_stamp(e),
            groups[g][i],
            groups_buffer(groups, outs2.take(g)),
            Ok(outs2[g][i]),
            wss2[g][i],
        ) by {
        if g < outs.len() {
            assert(outs2.take(g) =~= outs.take(g));
            assert(outs2[g] == outs[g]);
            assert(wss2[g] == wss[g]);
        } else {
            assert(outs2.take(g) =~= outs);
            assert(outs2[g] == o);
            assert(wss2[g] == w);
        }
    }
    let f = |x: Seq<Seq<WriteView>>| x.flatten();
    assert(wss2.map_values(f) =~= wss.map_values(f).push(w.flatten()));
    wss.map_values(f).lemma_flatten_push(w.flatten());
}

/// A group none of whose components failed: each result is a success.
pub proof fn lemma_no_failures(ids: Seq<IdView>, rs: Seq<Result<(PortEventsView, Seq<WriteView>), Seq<char>>>)
    requires
        failures_of(ids, rs).len() == 0,
    ensures
        forall|i: int| 0 <= i < rs.len() ==> (#[trigger] rs[i]) is Ok,
    decreases rs.len(),
{
    if rs.len() > 0 {
        let prev = failures_of(ids, rs.drop_last());
        match rs.last() {
            Ok(_) => {},
            Err(e) => {
                assert(failures_of(ids, rs) == prev.push((ids[rs.len() - 1].0, e)));
            },
        }
        lemma_no_failures(ids, rs.drop_last());
        assert forall|i: int| 0 <= i < rs.len() implies (#[trigger] rs[i]) is Ok by {
            if i < rs.len() - 1 {
                assert(rs[i] == rs.drop_last()[i]);
            }
        }
    }
}

/// The results of the components of a group run side by side on the outputs
/// `buffer`: an unknown component gives the not-found error; a known one the
/// outcome of its evaluation.
pub open spec fn group_results<V: Evaluator>(
    ev: &V,
    e: &CycleEngine,
    stamp: u64,
    ids: Seq<IdView>,
    buffer: Map<PortView, EventView>,
    rv: Seq<Result<(PortEventsView, Seq<WriteView>), Seq<char>>>,
) -> bool {
    &&& rv.len() == ids.len()
    &&& forall|i: int| 0 <= i < ids.len() && !e.procs().contains_key(#[trigger] ids[i]) ==> rv[i] == Err::<
        (PortEventsView, Seq<WriteView>),
        Seq<char>,
    >(not_found_message(ids[i]))
    &&& forall|i: int|
        0 <= i < ids.len() && e.procs().contains_key(#[trigger] ids[i]) ==> exists|
            res: Result<PortEventsView, Seq<char>>,
            ws: Seq<WriteView>,
        | #[trigger] evaluated_at(ev, e, stamp, ids[i], buffer, res, ws) && group_step(res, ws, rv[i])
}

/// The run of groups stopped at the group after the first `outs.len()`: its
/// components ran side by side on the outputs of the groups before, with the
/// results `rv`; when some of them failed, the error lists every failure.
pub open spec fn group_stop<V: Evaluator>(
    ev: &V,
    e: &CycleEngine,
    groups: Seq<Seq<IdView>>,
    outs: Seq<Seq<PortEventsView>>,
    wss: Seq<Seq<Seq<WriteView>>>,
    rv: Seq<Result<(PortEventsView, Seq<WriteView>), Seq<char>>>,
    kind: Seq<char>,
    err: Seq<char>,
) -> bool {
    let ids = groups[outs.len() as int];
    &&& outs.len() < groups.len()
    &&& group_run(ev, e, groups, outs, wss)
    &&& group_results(ev, e, next_stamp(e), ids, groups_buffer(groups, outs), rv)
    &&& failures_of(ids, rv).len() > 0 ==> err == group_failure_message(kind, failures_of(ids, rv))
}

/// The results of a group, told by an engine with the same plan.
pub proof fn lemma_group_results_same_plan<V: Evaluator>(
    ev: &V,
    e: &CycleEngine,
    before: &CycleEngine,
    stamp: u64,
    ids: Seq<IdView>,
    buffer: Map<PortView, EventView>,
    rv: Seq<Result<(PortEventsView, Seq<WriteView>), Seq<char>>>,
)
    requires
        before.same_plan(e),
        group_results(ev, before, stamp, ids, buffer, rv),
    ensures
        group_results(ev, e, stamp, ids, buffer, rv),
{
    before.lemma_same_plan(e);
    assert forall|i: int|
        0 <= i < ids.len() && e.procs().contains_key(#[trigger] ids[i]) implies exists|
            res: Result<PortEventsView, Seq<char>>,
            ws: Seq<WriteView>,
        | #[trigger] evaluated_at(ev, e, stamp, ids[i], buffer, res, ws) && group_step(res, ws, rv[i]) by {
        let (res, ws) = choose|res: Result<PortEventsView, Seq<char>>, ws: Seq<WriteView>|
            #[trigger] evaluated_at(ev, before, stamp, ids[i], buffer, res, ws) && group_step(res, ws, rv[i]);
        assert(evaluated_at(ev, e, stamp, ids[i], buffer, res, ws));
    }
}

/// What a group that ran without failures adds to a run.
pub proof fn lemma_group_outcome<V: Evaluator>(
    ev: &V,
    e: &CycleEngine,
    groups: Seq<Seq<IdView>>,
    outs: Seq<Seq<PortEventsView>>,
    wss: Seq<Seq<Seq<WriteView>>>,
    ids: Seq<IdView>,
    rv: Seq<Result<(PortEventsView, Seq<WriteView>), Seq<char>>>,
)
    requires
        group_run(ev, e, groups, outs, wss),
        outs.len() < groups.len(),
        groups[outs.len() as int] == ids,
        group_results(ev, e, next_stamp(e), ids, groups_buffer(groups, outs), rv),
        failures_of(ids, rv).len() == 0,
    ensures
        group_run(ev, e, groups, outs.push(ok_outputs(rv)), wss.push(ok_write_lists(rv))),
        groups_buffer(groups, outs.push(ok_outputs(rv))) == merged_outputs(groups_buffer(groups, outs), ids, ok_outputs(rv)),
        groups_writes(wss.push(ok_write_lists(rv))) == groups_writes(wss) + ok_writes(rv),
{
    lemma_no_failures(ids, rv);
    let o = ok_outputs(rv);
    let w = ok_write_lists(rv);
    assert forall|i: int| 0 <= i < o.len() implies e.procs().contains_key(#[trigger] groups[outs.len() as int][i]) && evaluated_at(
        ev,
        e,
        next_stamp(e),
        groups[outs.len() as int][i],
        groups_buffer(groups, outs),
        Ok(o[i]),
        w[i],
    ) by {
        assert(groups[outs.len() as int][i] == ids[i]);
        assert(rv[i] is Ok);
        let (res, ws) = choose|res: Result<PortEventsView, Seq<char>>, ws: Seq<WriteView>|
            #[trigger] evaluated_at(ev, e, next_stamp(e), ids[i], groups_buffer(groups, outs), res, ws) && group_step(res, ws, rv[i]);
        assert(res is Ok);
    }
    lemma_group_step(ev, e, groups, outs, wss, o, w);
}

/// A memory module's state after a cycle: the writes applied to the current
/// state, then the snapshot taken.
pub open spec fn cycle_memory(before: Map<IdView, MemoryStore>, after: Map<IdView, MemoryStore>, ws: Seq<WriteView>) -> bool {
    &&& after.dom() == before.dom()
    &&& forall|k: IdView| #[trigger] before.contains_key(k) ==> after[k].current() == current_after(before[k].current(), ws, k)
        && after[k].snapshot_state() == after[k].current() && after[k].data_kind() == before[k].data_kind()
        && after[k].id_view() == before[k].id_view()
}

/// The memory modules' snapshots are the ones they had: no snapshot was taken.
pub open spec fn snapshots_kept(before: Map<IdView, MemoryStore>, after: Map<IdView, MemoryStore>) -> bool {
    &&& after.dom() == before.dom()
    &&& forall|k: IdView| #[trigger] before.contains_key(k) ==> after[k].snapshot_state() == before[k].snapshot_state()
}

/// Writes applied and then every snapshot taken make a cycle's memory.
pub proof fn lemma_cycle_memory(
    a: Map<IdView, MemoryStore>,
    b: Map<IdView, MemoryStore>,
    c: Map<IdView, MemoryStore>,
    ws: Seq<WriteView>,
)
    requires
        memory_step(a, b, ws),
        all_snapshotted(b, c),
    ensures
        cycle_memory(a, c, ws),
{
}

/// Putting back updated copies of some memory modules, whose writes went only
/// to those copies, applies the writes to the whole registry.
proof fn lemma_merge_memory_step(
    mems: Map<IdView, MemoryStore>,
    subset: Map<IdView, MemoryStore>,
    updated: Map<IdView, MemoryStore>,
    ws: Seq<WriteView>,
)
    requires
        forall|k: IdView| #[trigger] subset.contains_key(k) ==> mems.contains_key(k) && subset[k].snapshot_state()
            == mems[k].snapshot_state() && subset[k].current() == mems[k].current() && subset[k].data_kind()
            == mems[k].data_kind() && subset[k].id_view() == mems[k].id_view(),
        writes_fit(subset, ws),
        memory_step(subset, updated, ws),
    ensures
        memory_step(mems, mems.union_prefer_right(updated), ws),
{
    let m2 = mems.union_prefer_right(updated);
    assert(m2.dom() =~= mems.dom());
    assert forall|k: IdView| #[trigger] mems.contains_key(k) implies m2[k].current() == current_after(mems[k].current(), ws, k)
        && m2[k].snapshot_state() == mems[k].snapshot_state() && m2[k].data_kind() == mems[k].data_kind()
        && m2[k].id_view() == mems[k].id_view() by {
        if !subset.contains_key(k) {
            assert forall|i: int| 0 <= i < ws.len() implies (#[trigger] ws[i]).0 != k by {
                assert(subset.contains_key(ws[i].0));
            }
            crate::proxy::lemma_current_after_untouched(mems[k].current(), ws, k);
        }
    }
}

/// The writes a component's proxy let through are writes the component may
/// make.
proof fn lemma_proxy_writes_allowed(e: &CycleEngine, id: IdView, p: MemoryProxy, ws: Seq<WriteView>)
    requires
        p.conns() == e.mem_conns().restrict(e.mem_conns().dom().filter(on_component(id))),
        p.comp() == id,
        p.subset() == Some(e.recorded_deps(id)),
        forall|i: int| 0 <= i < ws.len() ==> write_allowed(p, #[trigger] ws[i]),
    ensures
        writes_allowed(e, id, ws),
{
    let mc = e.mem_conns();
    assert forall|i: int| 0 <= i < ws.len() implies (#[trigger] ws[i]).3 == id && exists|port: Seq<char>| proxy_target(
        mc,
        id,
        Some(e.recorded_deps(id)),
        port,
    ) == Ok::<IdView, Seq<char>>(ws[i].0) by {
        assert(write_allowed(p, ws[i]));
        let port = choose|port: Seq<char>| proxy_target(p.conns(), p.comp(), p.subset(), port) == Ok::<IdView, Seq<char>>(
            ws[i].0);
        let key = (id, port);
        assert(p.conns().contains_key(key) == mc.contains_key(key));
        assert(proxy_target(mc, id, Some(e.recorded_deps(id)), port) == Ok::<IdView, Seq<char>>(ws[i].0));
    }
}

/// Flattening distributes over concatenation.
pub proof fn lemma_flatten_add<A>(a: Seq<Seq<A>>, b: Seq<Seq<A>>)
    ensures
        (a + b).flatten() == a.flatten() + b.flatten(),
    decreases b.len(),
{
    if b.len() == 0 {
        assert(a + b =~= a);
        assert(b.flatten() =~= Seq::<A>::empty());
        assert(a.flatten() + b.flatten() =~= a.flatten());
    } else {
        let b0 = b.drop_last();
        lemma_flatten_add(a, b0);
        assert(a + b =~= (a + b0).push(b.last()));
        (a + b0).lemma_flatten_push(b.last());
        b0.lemma_flatten_push(b.last());
        assert(b0.push(b.last()) =~= b);
        assert((a + b).flatten() =~= a.flatten() + b.flatten());
    }
}

/// Position of element `c` of group `s` in a flattened sequence of groups.
pub proof fn lemma_flatten_at<A>(g: Seq<Seq<A>>, s: int, c: int)
    requires
        0 <= s < g.len(),
        0 <= c < g[s].len(),
    ensures
        g.take(s).flatten().len() + c < g.flatten().len(),
        g.flatten()[g.take(s).flatten().len() + c] == g[s][c],
        g.take(s + 1).flatten().len() == g.take(s).flatten().len() + g[s].len(),
{
    assert(g.take(s + 1) =~= g.take(s).push(g[s]));
    g.take(s).lemma_flatten_push(g[s]);
    assert(g =~= g.take(s + 1) + g.skip(s + 1));
    lemma_flatten_add(g.take(s + 1), g.skip(s + 1));
    let t = g.take(s).flatten();
    assert(g.flatten() == t + g[s] + g.skip(s + 1).flatten());
    assert(g.flatten()[t.len() + c] == g[s][c]);
}

impl CycleEngine {
    /// The memory phase of a cycle: every memory component takes its snapshot
    fn snapshot_all_memories(&mut self)
        ensures
            all_snapshotted(old(self).mems(), final(self).mems()),
            final(self).mem_order() == old(self).mem_order(),
            final(self).procs() == old(self).procs(),
            final(self).conns() == old(self).conns(),
            final(self).mem_conns() == old(self).mem_conns(),
            final(self).cycle_count() == old(self).cycle_count(),
            final(self).outputs() == old(self).outputs(),
            final(self).order() == old(self).order(),
            final(self).same_plan(&*old(self)),
    {
        let ghost m0 = self.mems();
        let ghost ks = self.mem_order();
        let n = self.memory_components.len();
        let mut i: usize = 0;
        while i < n
            invariant
                n == ks.len(),
                i <= n,
                ks == self.mem_order(),
                ks.no_duplicates(),
                self.mems().dom() == m0.dom(),
                forall|k: IdView| #[trigger] self.mems().contains_key(k) ==> if ks.index_of(k) < i {
                    self.mems()[k].snapshot_state() == m0[k].current() && self.mems()[k].current() == m0[k].current()
                        && self.mems()[k].data_kind() == m0[k].data_kind() && self.mems()[k].id_view() == m0[k].id_view()
                } else {
                    self.mems()[k] == m0[k]
                },
                self.procs() == old(self).procs(),
                self.conns() == old(self).conns(),
                self.mem_conns() == old(self).mem_conns(),
                self.cycle_count() == old(self).cycle_count(),
                self.outputs() == old(self).outputs(),
                self.order() == old(self).order(),
                self.same_plan(&*old(self)),
            decreases n - i,
        {
            proof {
                self.memory_components.lemma_view_at(i as int);
            }
            let kind = self.memory_components.value_at(i).kind();
            let ghost kv = ks[i as int];
            let mut store = self.memory_components.set_value_at(i, MemoryStore::new("", kind));
            store.create_snapshot();
            self.memory_components.set_value_at(i, store);
            proof {
                lemma_index_of_distinct(ks, i as int);
                assert forall|k: IdView| #[trigger] self.mems().contains_key(k) implies if ks.index_of(k) < i + 1 {
                    self.mems()[k].snapshot_state() == m0[k].current() && self.mems()[k].current() == m0[k].current()
                        && self.mems()[k].data_kind() == m0[k].data_kind() && self.mems()[k].id_view() == m0[k].id_view()
                } else {
                    self.mems()[k] == m0[k]
                } by {
                    if k != kv {
                        let x = ks.index_of(k);
                        lemma_index_of_distinct(ks, x);
                    }
                }
                assert(self.mems().dom() =~= m0.dom());
            }
            i = i + 1;
        }
        proof {
            assert forall|k: IdView| #[trigger] self.mems().contains_key(k) implies ks.index_of(k) < n by {
                assert(ks.contains(k));
            }
        }
    }

    /// Apply memory writes in order; the first one that has no memory module or
    /// does not fit its kind stops the rest
    fn apply_memory_writes(&mut self, memory_writes: Vec<MemoryWrite>) -> (r: Result<(), String>)
        ensures
            r is Ok <==> writes_fit(old(self).mems(), memory_writes@.map_values(|w: MemoryWrite| w@)),
            r is Ok ==> memory_step(old(self).mems(), final(self).mems(), memory_writes@.map_values(|w: MemoryWrite| w@)),
            snapshots_kept(old(self).mems(), final(self).mems()),
            final(self).mem_order() == old(self).mem_order(),
            final(self).procs() == old(self).procs(),
            final(self).conns() == old(self).conns(),
            final(self).mem_conns() == old(self).mem_conns(),
            final(self).cycle_count() == old(self).cycle_count(),
            final(self).outputs() == old(self).outputs(),
            final(self).order() == old(self).order(),
            final(self).same_plan(&*old(self)),
    {
        let ghost m0 = self.mems();
        let ghost ws = memory_writes@.map_values(|w: MemoryWrite| w@);
        let mut i: usize = 0;
        while i < memory_writes.len()
            invariant
                i <= memory_writes@.len(),
                ws == memory_writes@.map_values(|w: MemoryWrite| w@),
                m0 == old(self).mems(),
                writes_fit(m0, ws.take(i as int)),
                self.mems().dom() == m0.dom(),
                forall|k: IdView| #[trigger] self.mems().contains_key(k) ==> self.mems()[k].current() == current_after(
                    m0[k].current(),
                    ws.take(i as int),
                    k,
                ) && self.mems()[k].snapshot_state() == m0[k].snapshot_state() && self.mems()[k].data_kind()
                    == m0[k].data_kind() && self.mems()[k].id_view() == m0[k].id_view(),
                self.mem_order() == old(self).mem_order(),
                self.procs() == old(self).procs(),
                self.conns() == old(self).conns(),
                self.mem_conns() == old(self).mem_conns(),
                self.cycle_count() == old(self).cycle_count(),
                self.outputs() == old(self).outputs(),
                self.order() == old(self).order(),
                self.same_plan(&*old(self)),
            decreases memory_writes@.len() - i,
        {
            let w = &memory_writes[i];
            let ghost wv = w@;
            proof {
                assert(ws.take(i as int + 1).drop_last() =~= ws.take(i as int));
                assert(ws.take(i as int + 1).last() == wv);
            }
            let before_mems = Ghost(self.mems());
            let result = crate::proxy::write_store(&mut self.memory_components, &w.memory_id, w.address.as_str(),
                w.data.duplicate());
            match result {
                Ok(_) => {
                    proof {
                        assert forall|k: IdView| #[trigger] self.mems().contains_key(k) implies self.mems()[k].current()
                            == current_after(m0[k].current(), ws.take(i as int + 1), k)
                            && self.mems()[k].snapshot_state() == m0[k].snapshot_state() && self.mems()[k].data_kind()
                            == m0[k].data_kind() && self.mems()[k].id_view() == m0[k].id_view() by {
                            if k != wv.0 {
                                assert(self.mems()[k] == before_mems@[k]);
                            }
                        }
                        assert forall|x: int| 0 <= x < i + 1 implies m0.contains_key((#[trigger] ws.take(i as int + 1)[x]).0)
                            && m0[ws.take(i as int + 1)[x].0].data_kind() == ws.take(i as int + 1)[x].2.tag() by {
                            if x < i {
                                assert(ws.take(i as int + 1)[x] == ws.take(i as int)[x]);
                            }
                        }
                    }
                },
                Err(_) => {
                    proof {
                        assert(ws[i as int] == wv);
                        assert(before_mems@.contains_key(wv.0) == m0.contains_key(wv.0));
                        if m0.contains_key(wv.0) {
                            assert(before_mems@[wv.0].data_kind() == m0[wv.0].data_kind());
                        }
                        assert(!(m0.contains_key(ws[i as int].0) && m0[ws[i as int].0].data_kind() == ws[i as int].2.tag()));
                        assert(!writes_fit(m0, ws));
                    }
                    return Err(join5("Failed to write to memory address '", w.address.as_str(),
                        "' in memory component '", w.memory_id.id(), "'"));
                },
            }
            i = i + 1;
        }
        proof {
            assert(ws.take(memory_writes@.len() as int) =~= ws);
        }
        Ok(())
    }
}

impl CycleEngine {
    /// The sub-level execution order, by views.
    pub closed spec fn sub_order(&self) -> Seq<Stage> {
        self.sub_level_execution_order@
    }

    /// What stays fixed while a cycle runs: the components, the wiring and the
    /// plans derived from them.
    pub closed spec fn same_plan(&self, other: &CycleEngine) -> bool {
        &&& self.processing_components == other.processing_components
        &&& self.connections == other.connections
        &&& self.memory_connections == other.memory_connections
        &&& self.execution_order == other.execution_order
        &&& self.sub_level_execution_order == other.sub_level_execution_order
        &&& self.input_connections == other.input_connections
        &&& self.config == other.config
        &&& self.component_memory_map == other.component_memory_map
    }

    /// An engine with the same plan has the same components, wiring and orders.
    pub proof fn lemma_same_plan(&self, other: &CycleEngine)
        requires
            self.same_plan(other),
        ensures
            self.procs() == other.procs(),
            self.proc_order() == other.proc_order(),
            self.conns() == other.conns(),
            self.connection_map() == other.connection_map(),
            self.sources() == other.sources(),
            self.mem_conns() == other.mem_conns(),
            self.mem_conn_order() == other.mem_conn_order(),
            self.order() == other.order(),
            self.sub_order() == other.sub_order(),
            self.configuration() == other.configuration(),
            forall|id: IdView| #[trigger] self.recorded_inputs(id) == other.recorded_inputs(id),
            forall|id: IdView| #[trigger] self.recorded_deps(id) == other.recorded_deps(id),
    {
    }

    /// Every engine has its own plan.
    pub proof fn lemma_same_plan_reflexive(a: &CycleEngine)
        ensures
            a.same_plan(a),
    {
    }

    /// Having the same plan is an equivalence.
    pub proof fn lemma_same_plan_transitive(a: &CycleEngine, b: &CycleEngine, c: &CycleEngine)
        requires
            a.same_plan(b),
            b.same_plan(c),
        ensures
            a.same_plan(c),
            c.same_plan(a),
    {
    }

    /// Execute a processing component: collect its inputs, let the evaluator
    /// run its module against copies of the memory modules it may use, store
    /// its outputs for the rest of the cycle and put the memory modules back
    fn execute_processing_component<V: Evaluator>(&mut self, component_id: &ComponentId, evaluator: &V) -> (r: Result<
        (),
        String,
    >)
        ensures
            final(self).same_plan(&*old(self)),
            final(self).cycle_count() == old(self).cycle_count(),
            final(self).mems().dom() == old(self).mems().dom(),
            !old(self).procs().contains_key(component_id@) ==> r is Err && final(self).mems() == old(self).mems()
                && final(self).outputs() == old(self).outputs() && outcome(r) == Err::<(), Seq<char>>(
                not_found_message(component_id@),
            ),
            old(self).procs().contains_key(component_id@) ==> exists|res: Result<PortEventsView, Seq<char>>, ws: Seq<WriteView>|
                #[trigger] evaluated(evaluator, &*old(self), component_id@, event_views(old(self).outputs()), res, ws)
                && step_outputs(event_views(old(self).outputs()), event_views(final(self).outputs()), component_id@, res,
                outcome(r)) && memory_step(old(self).mems(), final(self).mems(), ws),
            r is Ok ==> forall|k: PortView| k.0 != component_id@ ==> (#[trigger] final(self).outputs().contains_key(k)
                == old(self).outputs().contains_key(k)),
            r is Err ==> final(self).outputs() == old(self).outputs(),
    {
        let inputs = self.collect_inputs(component_id);
        let module = match self.processing_components.get(component_id) {
            Some(c) => c.module.duplicate(),
            None => return Err(join3("Processing component '", component_id.id(), "' not found")),
        };
        let current_cycle = self.current_cycle;
        let deps = self.recorded_dependencies(component_id);
        let subset = self.memory_subset(&deps);
        let ghost subset_map = subset.as_map();
        let connections = self.component_memory_connections(component_id);
        let proxy = MemoryProxy::new_with_owned_components(connections, component_id.duplicate(), subset, deps.as_slice());
        let ghost proxy0 = proxy;
        let mut context = EvaluationContext { inputs, memory: proxy, component_id: component_id.duplicate() };
        let mut outputs = EventOutputMap::new_flexible(current_cycle);
        let result = evaluator.evaluate(&module, &mut context, &mut outputs);
        let ghost res = evaluation_view(result, outputs.events());
        let ghost ws = choose|ws: Seq<WriteView>|
            #[trigger] evaluator.evaluates_to(component_id@, module.name@, collected(self.recorded_inputs(component_id@), event_views(
                self.outputs())), self.cycle_count(), res, ws)
            && proxy_effect(proxy0, context.memory, ws);
        let ghost proxy1 = context.memory;
        let updated = context.memory.into_updated_memory_components();
        proof {
            lemma_proxy_writes_allowed(&*old(self), component_id@, proxy0, ws);
            assert(evaluated(evaluator, &*old(self), component_id@, event_views(old(self).outputs()), res, ws));
            assert(updated.as_map() == proxy1.modules()->0);
            lemma_merge_memory_step(old(self).mems(), subset_map, updated.as_map(), ws);
        }
        self.merge_memory_components(updated);
        match result {
            Ok(_) => {},
            Err(e) => {
                proof {
                    assert(step_outputs(event_views(old(self).outputs()), event_views(self.outputs()), component_id@, res,
                        Err::<(), Seq<char>>(e@)));
                }
                return Err(e);
            },
        }
        let produced = outputs.into_event_map();
        let ghost before = *self;
        self.merge_outputs(component_id, &produced);
        proof {
            CycleEngine::lemma_same_plan_transitive(&*self, &before, &*old(self));
            assert forall|k: PortView| k.0 != component_id@ implies (#[trigger] self.outputs().contains_key(k)
                == old(self).outputs().contains_key(k)) by {
                assert(event_views(self.outputs()).contains_key(k) == self.outputs().contains_key(k));
                assert(event_views(old(self).outputs()).contains_key(k) == old(self).outputs().contains_key(k));
            }
            assert(step_outputs(event_views(old(self).outputs()), event_views(self.outputs()), component_id@, res,
                Ok::<(), Seq<char>>(())));
        }
        Ok(())
    }

    /// Execute a processing component for a group run side by side: its memory
    /// writes are collected instead of made, and its outputs returned
    pub fn execute_processing_component_parallel<V: Evaluator>(&self, component_id: &ComponentId, evaluator: &V) -> (r:
        Result<(AssocMap<String, Event>, Vec<MemoryWrite>), String>)
        ensures
            !self.procs().contains_key(component_id@) ==> group_result_view(r) == Err::<
                (PortEventsView, Seq<WriteView>),
                Seq<char>,
            >(not_found_message(component_id@)),
            self.procs().contains_key(component_id@) ==> exists|res: Result<PortEventsView, Seq<char>>, ws: Seq<WriteView>|
                #[trigger] evaluated(evaluator, self, component_id@, event_views(self.outputs()), res, ws) && group_step(
                    res,
                    ws,
                    group_result_view(r),
                ),
    {
        let inputs = self.collect_inputs(component_id);
        let module = match self.processing_components.get(component_id) {
            Some(c) => c.module.duplicate(),
            None => return Err(join3("Processing component '", component_id.id(), "' not found")),
        };
        let deps = self.recorded_dependencies(component_id);
        let subset = self.memory_subset(&deps);
        let connections = self.component_memory_connections(component_id);
        let proxy = MemoryProxy::new_with_channel_synchronization(connections, component_id.duplicate(), subset,
            deps.as_slice());
        let ghost proxy0 = proxy;
        let mut context = EvaluationContext { inputs, memory: proxy, component_id: component_id.duplicate() };
        let mut outputs = EventOutputMap::new_flexible(self.current_cycle);
        let result = evaluator.evaluate(&module, &mut context, &mut outputs);
        let ghost res = evaluation_view(result, outputs.events());
        let ghost ws = choose|ws: Seq<WriteView>|
            #[trigger] evaluator.evaluates_to(component_id@, module.name@, collected(self.recorded_inputs(component_id@), event_views(
                self.outputs())), self.cycle_count(), res, ws) && proxy_effect(proxy0, context.memory, ws);
        proof {
            lemma_proxy_writes_allowed(self, component_id@, proxy0, ws);
            assert(evaluated(evaluator, self, component_id@, event_views(self.outputs()), res, ws));
        }
        match result {
            Ok(_) => {},
            Err(e) => {
                return Err(e);
            },
        }
        let ghost proxy1 = context.memory;
        let writes = context.memory.take_sent_writes();
        let produced = outputs.into_event_map();
        proof {
            assert(proxy0.outbox()->0 + ws =~= ws);
            assert(writes@.map_values(|w: MemoryWrite| w@) == ws);
            assert(group_step(res, ws, group_result_view(Ok::<(AssocMap<String, Event>, Vec<MemoryWrite>), String>((produced, writes)))));
        }
        Ok((produced, writes))
    }

    /// Query the data stored at the "state" address of a memory component
    pub fn query_memory_component_state<T: MemoryData>(&self, memory_component_id: &ComponentId) -> (r: Result<
        Option<T>,
        String,
    >)
        ensures
            read_view(r) == query_outcome(self.mems(), memory_component_id@, "state"@, T::data_tag()),
    {
        proof {
            reveal_strlit("state");
        }
        self.query_memory_component_data::<T>(memory_component_id, "state")
    }

    /// Query the data stored at an address of a memory component, as of its
    /// last snapshot
    pub fn query_memory_component_data<T: MemoryData>(&self, memory_component_id: &ComponentId, address: &str) -> (r:
        Result<Option<T>, String>)
        ensures
            read_view(r) == query_outcome(self.mems(), memory_component_id@, address@, T::data_tag()),
    {
        let memory_component = match self.memory_components.get(memory_component_id) {
            Some(m) => m,
            None => return Err(join3("Memory component '", memory_component_id.id(), "' not found")),
        };
        match memory_component.read_any(address) {
            None => Ok(None),
            Some(v) => match v.get::<T>() {
                Ok(x) => Ok(Some(x.duplicate())),
                Err(_) => {
                    let mut e = join5("Type mismatch: expected ", T::kind_name(),
                        ", found different type at address '", address, "' in memory component '");
                    e.append(memory_component_id.id());
                    e.append("'");
                    Err(e)
                },
            },
        }
    }
}

/// What querying an address of a memory component gives.
pub open spec fn query_outcome(mems: Map<IdView, MemoryStore>, id: IdView, address: Seq<char>, tag: TypeTag) -> Result<
    Option<ValueView>,
    Seq<char>,
> {
    if !mems.contains_key(id) {
        Err("Memory component '"@ + id.0 + "' not found"@)
    } else if !mems[id].snapshot_state().contains_key(address) {
        Ok(None)
    } else if mems[id].snapshot_state()[address].tag() != tag {
        Err("Type mismatch: expected "@ + tag_name(tag) + ", found different type at address '"@ + address
            + "' in memory component '"@ + id.0 + "'"@)
    } else {
        Ok(Some(mems[id].snapshot_state()[address]))
    }
}

/// One component's outputs, keyed by its ports.
pub open spec fn tagged_outputs(id: IdView, o: PortEventsView) -> Map<PortView, EventView> {
    Map::new(|k: PortView| k.0 == id && o.contains_key(k.1), |k: PortView| o[k.1])
}

/// The outputs of a group's components merged into the buffer, in order.
pub open spec fn merged_outputs(buffer: Map<PortView, EventView>, ids: Seq<IdView>, outs: Seq<PortEventsView>) -> Map<
    PortView,
    EventView,
>
    decreases outs.len(),
{
    if outs.len() == 0 {
        buffer
    } else {
        merged_outputs(buffer, ids, outs.drop_last()).union_prefer_right(tagged_outputs(ids[outs.len() - 1], outs.last()))
    }
}

/// The outputs of the results of a group, empty for a failure.
pub open spec fn ok_outputs(rs: Seq<Result<(PortEventsView, Seq<WriteView>), Seq<char>>>) -> Seq<PortEventsView> {
    rs.map_values(
        |r: Result<(PortEventsView, Seq<WriteView>), Seq<char>>| match r {
            Ok(p) => p.0,
            Err(_) => Map::empty(),
        },
    )
}

/// The memory writes of the results of a group, in order.
pub open spec fn ok_writes(rs: Seq<Result<(PortEventsView, Seq<WriteView>), Seq<char>>>) -> Seq<WriteView> {
    ok_write_lists(rs).flatten()
}

/// The memory writes of each result of a group, empty for a failure.
pub open spec fn ok_write_lists(rs: Seq<Result<(PortEventsView, Seq<WriteView>), Seq<char>>>) -> Seq<Seq<WriteView>> {
    rs.map_values(
        |r: Result<(PortEventsView, Seq<WriteView>), Seq<char>>| match r {
            Ok(p) => p.1,
            Err(_) => Seq::empty(),
        },
    )
}

impl CycleEngine {
    /// Finish a group of components that ran side by side: if any failed, the
    /// group fails with every failure listed; otherwise their outputs join the
    /// buffer and their memory writes are applied in order
    pub fn finish_group(
        &mut self,
        kind: &str,
        components: &Vec<ComponentId>,
        results: Vec<Result<(AssocMap<String, Event>, Vec<MemoryWrite>), String>>,
    ) -> (r: Result<(), String>)
        requires
            components@.len() == results@.len(),
        ensures
            final(self).same_plan(&*old(self)),
            final(self).cycle_count() == old(self).cycle_count(),
            forall|k: PortView| #[trigger] final(self).outputs().contains_key(k) ==> old(self).outputs().contains_key(k)
                || id_views(components@).contains(k.0),
            ({
                let rv = results@.map_values(|x: Result<(AssocMap<String, Event>, Vec<MemoryWrite>), String>| group_result_view(x));
                let f = failures_of(id_views(components@), rv);
                &&& f.len() > 0 ==> outcome(r) == Err::<(), Seq<char>>(group_failure_message(kind@, f))
                    && final(self).mems() == old(self).mems() && final(self).outputs() == old(self).outputs()
                &&& f.len() == 0 ==> event_views(final(self).outputs()) == merged_outputs(
                    event_views(old(self).outputs()),
                    id_views(components@),
                    ok_outputs(rv),
                ) && (r is Ok <==> writes_fit(old(self).mems(), ok_writes(rv))) && (r is Ok ==> memory_step(
                    old(self).mems(),
                    final(self).mems(),
                    ok_writes(rv),
                ))
            }),
            snapshots_kept(old(self).mems(), final(self).mems()),
    {
        let ghost rv = results@.map_values(|x: Result<(AssocMap<String, Event>, Vec<MemoryWrite>), String>| group_result_view(x));
        let ghost ids = id_views(components@);
        let mut listed = String::new();
        let mut count: usize = 0;
        let mut i: usize = 0;
        while i < results.len()
            invariant
                i <= results@.len(),
                components@.len() == results@.len(),
                rv == results@.map_values(|x: Result<(AssocMap<String, Event>, Vec<MemoryWrite>), String>| group_result_view(x)),
                ids == id_views(components@),
                count == failures_of(ids, rv.take(i as int)).len(),
                count <= i,
                listed@ == failure_list(failures_of(ids, rv.take(i as int))),
            decreases results@.len() - i,
        {
            proof {
                assert(rv.take(i as int + 1).drop_last() =~= rv.take(i as int));
                assert(rv.take(i as int + 1).last() == rv[i as int]);
            }
            match &results[i] {
                Ok(_) => {},
                Err(e) => {
                    let ghost prev = failures_of(ids, rv.take(i as int));
                    if count > 0 {
                        listed.append(", ");
                    }
                    listed.append("Component '");
                    listed.append(components[i].id());
                    listed.append("': ");
                    listed.append(e.as_str());
                    proof {
                        let f = prev.push((ids[i as int].0, e@));
                        assert(f.drop_last() =~= prev);
                        if prev.len() == 0 {
                            assert(listed@ =~= failure_list(f));
                        } else {
                            assert(listed@ =~= failure_list(f));
                        }
                    }
                    count = count + 1;
                },
            }
            i = i + 1;
        }
        proof {
            assert(rv.take(results@.len() as int) =~= rv);
        }
        if count > 0 {
            let n = decimal_string(count as u64);
            let mut message = owned(kind);
            message.append(" execution failed in ");
            message.append(n.as_str());
            message.append(" components: [");
            message.append(listed.as_str());
            message.append("]");
            return Err(message);
        }
        let ghost outs = ok_outputs(rv);
        let ghost b0 = event_views(self.outputs());
        let mut writes: Vec<MemoryWrite> = Vec::new();
        let ghost wl = rv.map_values(
            |r: Result<(PortEventsView, Seq<WriteView>), Seq<char>>| match r {
                Ok(p) => p.1,
                Err(_) => Seq::empty(),
            },
        );
        let mut j: usize = 0;
        while j < results.len()
            invariant
                j <= results@.len(),
                components@.len() == results@.len(),
                rv == results@.map_values(|x: Result<(AssocMap<String, Event>, Vec<MemoryWrite>), String>| group_result_view(x)),
                ids == id_views(components@),
                outs == ok_outputs(rv),
                wl == rv.map_values(
                    |r: Result<(PortEventsView, Seq<WriteView>), Seq<char>>| match r {
                        Ok(p) => p.1,
                        Err(_) => Seq::empty(),
                    },
                ),
                writes@.map_values(|w: MemoryWrite| w@) == wl.take(j as int).flatten(),
                event_views(self.outputs()) == merged_outputs(b0, ids, outs.take(j as int)),
                self.same_plan(&*old(self)),
                self.cycle_count() == old(self).cycle_count(),
                self.mems() == old(self).mems(),
                forall|k: PortView| #[trigger] self.outputs().contains_key(k) ==> old(self).outputs().contains_key(k)
                    || ids.contains(k.0),
            decreases results@.len() - j,
        {
            proof {
                assert(outs.take(j as int + 1).drop_last() =~= outs.take(j as int));
                assert(wl.take(j as int + 1).drop_last() =~= wl.take(j as int));
                wl.take(j as int).lemma_flatten_push(wl[j as int]);
                assert(wl.take(j as int + 1) =~= wl.take(j as int).push(wl[j as int]));
            }
            match &results[j] {
                Ok((produced, ws)) => {
                    let ghost before_out = self.outputs();
                    self.merge_outputs(&components[j], produced);
                    proof {
                        assert(ids[j as int] == components@[j as int]@);
                        assert forall|k: PortView| #[trigger] self.outputs().contains_key(k) implies old(
                            self,
                        ).outputs().contains_key(k) || ids.contains(k.0) by {
                            assert(event_views(self.outputs()).contains_key(k));
                            if !before_out.contains_key(k) {
                                assert(!event_views(before_out).contains_key(k));
                                assert(k.0 == ids[j as int]);
                            }
                        }
                    }
                    let ghost w0 = writes@;
                    let mut k: usize = 0;
                    while k < ws.len()
                        invariant
                            k <= ws@.len(),
                            writes@.map_values(|w: MemoryWrite| w@) == w0.map_values(|w: MemoryWrite| w@) + ws@.take(
                                k as int,
                            ).map_values(|w: MemoryWrite| w@),
                        decreases ws@.len() - k,
                    {
                        let ghost before = writes@;
                        writes.push(ws[k].duplicate());
                        proof {
                            assert(writes@.map_values(|w: MemoryWrite| w@) =~= before.map_values(|w: MemoryWrite| w@).push(
                                ws@[k as int]@,
                            ));
                            assert(ws@.take(k as int + 1).map_values(|w: MemoryWrite| w@) =~= ws@.take(k as int).map_values(
                                |w: MemoryWrite| w@,
                            ).push(ws@[k as int]@));
                        }
                        k = k + 1;
                    }
                    proof {
                        assert(ws@.take(ws@.len() as int) =~= ws@);
                    }
                },
                Err(_) => {},
            }
            j = j + 1;
        }
        proof {
            assert(outs.take(results@.len() as int) =~= outs);
            assert(wl.take(results@.len() as int) =~= wl);
        }
        let ghost mid = *self;
        let r = self.apply_memory_writes(writes);
        proof {
            CycleEngine::lemma_same_plan_transitive(&*self, &mid, &*old(self));
        }
        r
    }

    /// Puts a component's outputs into the buffer, keyed by its ports.
    fn merge_outputs(&mut self, component_id: &ComponentId, produced: &AssocMap<String, Event>)
        ensures
            event_views(final(self).outputs()) == event_views(old(self).outputs()).union_prefer_right(
                tagged_outputs(component_id@, event_views(produced.as_map())),
            ),
            final(self).same_plan(&*old(self)),
            final(self).cycle_count() == old(self).cycle_count(),
            final(self).mems() == old(self).mems(),
    {
        let ghost b0 = event_views(self.outputs());
        let ghost o = event_views(produced.as_map());
        let ghost ks = produced.key_seq();
        let n = produced.len();
        let mut i: usize = 0;
        while i < n
            invariant
                n == produced.entries().len(),
                i <= n,
                produced.wf(),
                ks == produced.key_seq(),
                o == event_views(produced.as_map()),
                event_views(self.outputs()) == b0.union_prefer_right(Map::new(
                    |k: PortView| k.0 == component_id@ && ks.contains(k.1) && ks.index_of(k.1) < i,
                    |k: PortView| o[k.1],
                )),
                self.same_plan(&*old(self)),
                self.cycle_count() == old(self).cycle_count(),
                self.mems() == old(self).mems(),
            decreases n - i,
        {
            proof {
                produced.lemma_view_at(i as int);
            }
            let port = produced.key_at(i);
            let event = produced.value_at(i);
            let ghost pv = port@;
            assert(pv == ks[i as int]);
            assert(o[pv] == event_view(*event));
            let ghost before = event_views(self.outputs());
            let copy = event.duplicate();
            let ghost ev = copy;
            self.output_buffer.insert((component_id.duplicate(), port.clone()), copy);
            proof {
                assert(event_views(self.outputs()) =~= before.insert((component_id@, pv), event_view(ev)));
                assert forall|q: Seq<char>| #[trigger] ks.contains(q) implies (ks.index_of(q) < i + 1 <==> (ks.index_of(q) < i
                    || q == pv)) by {
                    let x = ks.index_of(q);
                    lemma_index_of_distinct(ks, x);
                }
                assert(event_views(self.outputs()) =~= b0.union_prefer_right(Map::new(
                    |k: PortView| k.0 == component_id@ && ks.contains(k.1) && ks.index_of(k.1) < i + 1,
                    |k: PortView| o[k.1],
                )));
            }
            i = i + 1;
        }
        proof {
            assert(Map::new(
                |k: PortView| k.0 == component_id@ && ks.contains(k.1) && ks.index_of(k.1) < n,
                |k: PortView| o[k.1],
            ) =~= tagged_outputs(component_id@, o));
        }
    }
}

/// Every stage of a staged order is empty.
pub open spec fn no_stage_work(order: Seq<Seq<IdView>>) -> bool {
    forall|s: int| 0 <= s < order.len() ==> (#[trigger] order[s]).len() == 0
}

/// Every sub-level of every stage is empty.
pub open spec fn no_sub_level_work(stages: Seq<Stage>) -> bool {
    forall|s: int, l: int|
        0 <= s < stages.len() && 0 <= l < stages[s].sub_levels@.len() ==> (
        #[trigger] stages[s].sub_levels@[l]).components@.len() == 0
}

/// The component is scheduled in some stage of a staged order.
pub open spec fn in_stages(order: Seq<Seq<IdView>>, id: IdView) -> bool {
    exists|s: int, c: int| 0 <= s < order.len() && 0 <= c < order[s].len() && #[trigger] order[s][c] == id
}

/// The component is scheduled in some sub-level of some stage.
pub open spec fn in_sub_levels(stages: Seq<Stage>, id: IdView) -> bool {
    exists|s: int, l: int, c: int|
        0 <= s < stages.len() && 0 <= l < stages[s].sub_levels@.len() && 0 <= c
            < stages[s].sub_levels@[l].components@.len() && #[trigger] stages[s].sub_levels@[l].components@[c]@ == id
}

/// Every memory module's snapshot is its current state.
pub open spec fn snapshots_current(mems: Map<IdView, MemoryStore>) -> bool {
    forall|k: IdView| #[trigger] mems.contains_key(k) ==> mems[k].snapshot_state() == mems[k].current()
}

/// A sequential cycle: on success every scheduled component, in order, was
/// evaluated on the inputs its connections deliver, its outputs kept, and the
/// memory holds all its writes, in order, snapshotted; on failure the run
/// stopped at one component, the writes made so far (its own included) are in
/// memory and no snapshot was taken.
pub open spec fn sequential_cycle<V: Evaluator>(
    ev: &V,
    before: &CycleEngine,
    after: &CycleEngine,
    r: Result<(), Seq<char>>,
) -> bool {
    let ids = before.order().flatten();
    &&& r is Ok ==> exists|outs: Seq<PortEventsView>, wss: Seq<Seq<WriteView>>|
        #[trigger] sequential_run(ev, before, ids, outs, wss) && outs.len() == ids.len() && event_views(after.outputs())
            == merged_outputs(Map::empty(), ids, outs) && cycle_memory(before.mems(), after.mems(), wss.flatten())
    &&& r is Err ==> exists|outs: Seq<PortEventsView>, wss: Seq<Seq<WriteView>>, last: Seq<WriteView>|
        #[trigger] sequential_stop(ev, before, ids, outs, wss, last, r->Err_0) && memory_step(
            before.mems(),
            after.mems(),
            wss.flatten() + last,
        )
}

/// A cycle by groups: on success every group, in order, ran side by side on
/// the outputs of the groups before, its outputs kept, and the memory holds
/// every group's writes, in order, snapshotted; on failure the run stopped at
/// one group and no snapshot was taken; when components of it failed, the
/// memory holds the writes of the groups before it.
pub open spec fn grouped_cycle<V: Evaluator>(
    ev: &V,
    before: &CycleEngine,
    after: &CycleEngine,
    r: Result<(), Seq<char>>,
    groups: Seq<Seq<IdView>>,
    kind: Seq<char>,
) -> bool {
    &&& r is Ok ==> exists|outs: Seq<Seq<PortEventsView>>, wss: Seq<Seq<Seq<WriteView>>>|
        #[trigger] group_run(ev, before, groups, outs, wss) && outs.len() == groups.len() && event_views(after.outputs())
            == groups_buffer(groups, outs) && cycle_memory(before.mems(), after.mems(), groups_writes(wss))
    &&& r is Err ==> snapshots_kept(before.mems(), after.mems()) && exists|
        outs: Seq<Seq<PortEventsView>>,
        wss: Seq<Seq<Seq<WriteView>>>,
        rv: Seq<Result<(PortEventsView, Seq<WriteView>), Seq<char>>>,
    |
        #[trigger] group_stop(ev, before, groups, outs, wss, rv, kind, r->Err_0) && (failures_of(groups[outs.len() as int], rv).len()
            > 0 ==> memory_step(before.mems(), after.mems(), groups_writes(wss)))
}

/// What a cycle does, in the engine's concurrency mode: the count goes up by
/// one, the plan stays, and the components run as `sequential_cycle` or, by
/// sub-levels, as `grouped_cycle` says; with nothing scheduled it succeeds.
pub open spec fn cycle_done<V: Evaluator>(ev: &V, before: &CycleEngine, after: &CycleEngine, r: Result<(), Seq<char>>) -> bool {
    &&& after.cycle_count() == before.cycle_count() + 1
    &&& after.same_plan(before)
    &&& before.configuration().concurrency_mode is Sequential ==> sequential_cycle(ev, before, after, r)
        && (no_stage_work(before.order()) ==> r is Ok)
    &&& before.configuration().concurrency_mode is Rayon ==> grouped_cycle(
        ev,
        before,
        after,
        r,
        sub_level_groups(before.sub_order()).flatten(),
        "Sub-level"@,
    ) && (no_sub_level_work(before.sub_order()) ==> r is Ok)
}

impl CycleEngine {
    /// Start a cycle: count it and clear the outputs of the previous one
    pub fn begin_cycle(&mut self)
        requires
            old(self).cycle_count() < u64::MAX,
        ensures
            final(self).cycle_count() == old(self).cycle_count() + 1,
            final(self).outputs() == Map::<PortView, Event>::empty(),
            final(self).mems() == old(self).mems(),
            final(self).same_plan(&*old(self)),
    {
        self.current_cycle = self.current_cycle + 1;
        self.output_buffer.clear();
    }

    /// End a cycle: every memory component takes its snapshot
    pub fn end_cycle(&mut self)
        ensures
            all_snapshotted(old(self).mems(), final(self).mems()),
            final(self).cycle_count() == old(self).cycle_count(),
            final(self).outputs() == old(self).outputs(),
            final(self).same_plan(&*old(self)),
    {
        self.snapshot_all_memories();
    }

    /// Run a group of components that may run side by side, one after another,
    /// each against the state as it was before the group
    pub fn execute_group<V: Evaluator>(&self, components: &Vec<ComponentId>, evaluator: &V) -> (r: Vec<
        Result<(AssocMap<String, Event>, Vec<MemoryWrite>), String>,
    >)
        ensures
            group_results(
                evaluator,
                self,
                self.cycle_count(),
                id_views(components@),
                event_views(self.outputs()),
                r@.map_values(|x: Result<(AssocMap<String, Event>, Vec<MemoryWrite>), String>| group_result_view(x)),
            ),
    {
        let ghost ids = id_views(components@);
        let ghost buffer = event_views(self.outputs());
        let mut r: Vec<Result<(AssocMap<String, Event>, Vec<MemoryWrite>), String>> = Vec::new();
        let mut i: usize = 0;
        while i < components.len()
            invariant
                i <= components@.len(),
                ids == id_views(components@),
                buffer == event_views(self.outputs()),
                group_results(
                    evaluator,
                    self,
                    self.cycle_count(),
                    ids.take(i as int),
                    buffer,
                    r@.map_values(|x: Result<(AssocMap<String, Event>, Vec<MemoryWrite>), String>| group_result_view(x)),
                ),
            decreases components@.len() - i,
        {
            let result = self.execute_processing_component_parallel(&components[i], evaluator);
            let ghost before = r@.map_values(|x: Result<(AssocMap<String, Event>, Vec<MemoryWrite>), String>| group_result_view(x));
            r.push(result);
            proof {
                let rv = r@.map_values(|x: Result<(AssocMap<String, Event>, Vec<MemoryWrite>), String>| group_result_view(x));
                let ti = ids.take(i as int + 1);
                assert(rv =~= before.push(group_result_view(result)));
                assert(ti =~= ids.take(i as int).push(ids[i as int]));
                assert forall|k: int| 0 <= k < ti.len() && !self.procs().contains_key(#[trigger] ti[k]) implies rv[k] == Err::<
                    (PortEventsView, Seq<WriteView>),
                    Seq<char>,
                >(not_found_message(ti[k])) by {
                    if k < i {
                        assert(ti[k] == ids.take(i as int)[k]);
                    }
                }
                assert forall|k: int| 0 <= k < ti.len() && self.procs().contains_key(#[trigger] ti[k]) implies exists|
                    res: Result<PortEventsView, Seq<char>>,
                    ws: Seq<WriteView>,
                | #[trigger] evaluated_at(evaluator, self, self.cycle_count(), ti[k], buffer, res, ws) && group_step(res, ws, rv[k]) by {
                    if k < i {
                        assert(ti[k] == ids.take(i as int)[k]);
                    }
                }
            }
            i = i + 1;
        }
        proof {
            assert(ids.take(components@.len() as int) =~= ids);
        }
        r
    }

    /// Execute one simulation cycle: the processing components in the
    /// configured way, then the memory phase
    pub fn cycle<V: Evaluator>(&mut self, evaluator: &V) -> (r: Result<(), String>)
        requires
            old(self).cycle_count() < u64::MAX,
        ensures
            cycle_done(evaluator, &*old(self), &*final(self), outcome(r)),
    {
        match self.config.concurrency_mode {
            ConcurrencyMode::Sequential => self.cycle_sequential(evaluator),
            ConcurrencyMode::Rayon => self.cycle_parallel_rayon_with_sub_levels(evaluator),
        }
    }

    /// Run a single simulation cycle (alias for the cycle method)
    pub fn run_cycle<V: Evaluator>(&mut self, evaluator: &V) -> (r: Result<(), String>)
        requires
            old(self).cycle_count() < u64::MAX,
        ensures
            cycle_done(evaluator, &*old(self), &*final(self), outcome(r)),
    {
        self.cycle(evaluator)
    }

    /// Execute one simulation cycle sequentially: stage by stage, component
    /// by component
    #[verifier::rlimit(40)]
    fn cycle_sequential<V: Evaluator>(&mut self, evaluator: &V) -> (r: Result<(), String>)
        requires
            old(self).cycle_count() < u64::MAX,
        ensures
            final(self).cycle_count() == old(self).cycle_count() + 1,
            final(self).same_plan(&*old(self)),
            no_stage_work(old(self).order()) ==> r is Ok,
            sequential_cycle(evaluator, &*old(self), &*final(self), outcome(r)),
    {
        self.begin_cycle();
        let ghost m1 = self.mems();
        let ghost order = old(self).order();
        let ghost flat = order.flatten();
        let ghost mut outs: Seq<PortEventsView> = Seq::empty();
        let ghost mut wss: Seq<Seq<WriteView>> = Seq::empty();
        proof {
            assert(event_views(self.outputs()) =~= Map::<PortView, EventView>::empty());
            assert(order.take(0) =~= Seq::<Seq<IdView>>::empty());
            assert(order.take(0).flatten() =~= Seq::<IdView>::empty());
            assert(wss.flatten() =~= Seq::<WriteView>::empty());
            crate::proxy::lemma_memory_step_none(m1);
        }
        let n = self.execution_order.len();
        let mut s: usize = 0;
        while s < n
            invariant
                n == old(self).execution_order@.len(),
                s <= n,
                order == old(self).order(),
                flat == order.flatten(),
                m1 == old(self).mems(),
                self.same_plan(&*old(self)),
                self.cycle_count() == old(self).cycle_count() + 1,
                outs.len() == order.take(s as int).flatten().len(),
                sequential_run(evaluator, &*old(self), flat, outs, wss),
                event_views(self.outputs()) == merged_outputs(Map::empty(), flat, outs),
                memory_step(m1, self.mems(), wss.flatten()),
            decreases n - s,
        {
            let m = self.execution_order[s].len();
            let mut c: usize = 0;
            while c < m
                invariant
                    n == old(self).execution_order@.len(),
                    s < n,
                    m == old(self).execution_order@[s as int]@.len(),
                    c <= m,
                    order == old(self).order(),
                    flat == order.flatten(),
                    m1 == old(self).mems(),
                    self.same_plan(&*old(self)),
                    self.cycle_count() == old(self).cycle_count() + 1,
                    outs.len() == order.take(s as int).flatten().len() + c,
                    sequential_run(evaluator, &*old(self), flat, outs, wss),
                    event_views(self.outputs()) == merged_outputs(Map::empty(), flat, outs),
                    memory_step(m1, self.mems(), wss.flatten()),
                decreases m - c,
            {
                proof {
                    assert(old(self).order()[s as int].len() == m);
                    lemma_flatten_at(order, s as int, c as int);
                }
                let id = self.execution_order[s][c].duplicate();
                let ghost before = *self;
                let result = self.execute_processing_component(&id, evaluator);
                proof {
                    CycleEngine::lemma_same_plan_transitive(&*self, &before, &*old(self));
                    before.lemma_same_plan(&*old(self));
                    assert(old(self).order()[s as int][c as int] == id@);
                    assert(flat[outs.len() as int] == id@);
                }
                match result {
                    Ok(_) => {
                        proof {
                            let (res, ws) = choose|res: Result<PortEventsView, Seq<char>>, ws: Seq<WriteView>|
                                #[trigger] evaluated(evaluator, &before, id@, event_views(before.outputs()), res, ws)
                                && step_outputs(event_views(before.outputs()), event_views(self.outputs()), id@, res,
                                outcome(result)) && memory_step(before.mems(), self.mems(), ws);
                            assert(res is Ok);
                            let o = res->Ok_0;
                            assert(res == Ok::<PortEventsView, Seq<char>>(o));
                            assert(before.recorded_inputs(id@) == old(self).recorded_inputs(id@));
                            assert(before.recorded_deps(id@) == old(self).recorded_deps(id@));
                            assert(before.cycle_count() == next_stamp(&*old(self)));
                            assert(evaluated_at(evaluator, &*old(self), next_stamp(&*old(self)), id@, merged_outputs(Map::empty(), flat, outs), Ok(o), ws));
                            lemma_sequential_step(evaluator, &*old(self), flat, outs, wss, o, ws);
                            crate::proxy::lemma_memory_step_append(m1, before.mems(), self.mems(), wss.flatten(), ws);
                            outs = outs.push(o);
                            wss = wss.push(ws);
                        }
                    },
                    Err(e) => {
                        proof {
                            let last: Seq<WriteView> = if before.procs().contains_key(id@) {
                                let (res, ws) = choose|res: Result<PortEventsView, Seq<char>>, ws: Seq<WriteView>|
                                    #[trigger] evaluated(evaluator, &before, id@, event_views(before.outputs()), res, ws)
                                    && step_outputs(event_views(before.outputs()), event_views(self.outputs()), id@, res,
                                    outcome(result)) && memory_step(before.mems(), self.mems(), ws);
                                assert(res is Err);
                                assert(res == Err::<PortEventsView, Seq<char>>(e@));
                                assert(before.recorded_inputs(id@) == old(self).recorded_inputs(id@));
                                assert(before.recorded_deps(id@) == old(self).recorded_deps(id@));
                                assert(before.cycle_count() == next_stamp(&*old(self)));
                                assert(evaluated_at(evaluator, &*old(self), next_stamp(&*old(self)), id@, merged_outputs(Map::empty(), flat, outs), Err(e@), ws));
                                ws
                            } else {
                                crate::proxy::lemma_memory_step_none(before.mems());
                                Seq::empty()
                            };
                            crate::proxy::lemma_memory_step_append(m1, before.mems(), self.mems(), wss.flatten(), last);
                            assert(sequential_stop(evaluator, &*old(self), flat, outs, wss, last, e@));
                            assert(outcome(Err::<(), String>(e))->Err_0 == e@);
                            assert(sequential_cycle(evaluator, &*old(self), &*self, Err::<(), Seq<char>>(e@)));
                        }
                        return Err(e);
                    },
                }
                c = c + 1;
            }
            proof {
                assert(order.take(s as int + 1) =~= order.take(s as int).push(order[s as int]));
                order.take(s as int).lemma_flatten_push(order[s as int]);
            }
            s = s + 1;
        }
        proof {
            assert(order.take(n as int) =~= order);
        }
        let ghost before = *self;
        self.end_cycle();
        proof {
            CycleEngine::lemma_same_plan_transitive(&*self, &before, &*old(self));
            lemma_cycle_memory(m1, before.mems(), self.mems(), wss.flatten());
            assert(sequential_cycle(evaluator, &*old(self), &*self, Ok::<(), Seq<char>>(())));
        }
        Ok(())
    }

    /// Run one group of components side by side: each against the outputs so
    /// far, then, if none failed, their outputs join the buffer and their
    /// memory writes are applied in order.  An empty group does nothing.
    fn run_group<V: Evaluator>(
        &mut self,
        kind: &str,
        components: &Vec<ComponentId>,
        evaluator: &V,
        Ghost(e0): Ghost<CycleEngine>,
        Ghost(groups): Ghost<Seq<Seq<IdView>>>,
        Ghost(outs): Ghost<Seq<Seq<PortEventsView>>>,
        Ghost(wss): Ghost<Seq<Seq<Seq<WriteView>>>>,
    ) -> (r: (Result<(), String>, Ghost<(Seq<PortEventsView>, Seq<Seq<WriteView>>)>))
        requires
            old(self).same_plan(&e0),
            old(self).cycle_count() == next_stamp(&e0),
            group_run(evaluator, &e0, groups, outs, wss),
            outs.len() < groups.len(),
            groups[outs.len() as int] == id_views(components@),
            event_views(old(self).outputs()) == groups_buffer(groups, outs),
            memory_step(e0.mems(), old(self).mems(), groups_writes(wss)),
        ensures
            final(self).same_plan(&e0),
            final(self).cycle_count() == old(self).cycle_count(),
            components@.len() == 0 ==> r.0 is Ok,
            r.0 is Ok ==> ({
                let (o, w) = r.1@;
                &&& group_run(evaluator, &e0, groups, outs.push(o), wss.push(w))
                &&& event_views(final(self).outputs()) == groups_buffer(groups, outs.push(o))
                &&& memory_step(e0.mems(), final(self).mems(), groups_writes(wss.push(w)))
            }),
            r.0 is Err ==> snapshots_kept(e0.mems(), final(self).mems()) && exists|
                rv: Seq<Result<(PortEventsView, Seq<WriteView>), Seq<char>>>,
            | #[trigger] group_stop(evaluator, &e0, groups, outs, wss, rv, kind@, outcome(r.0)->Err_0) && (failures_of(
                groups[outs.len() as int],
                rv,
            ).len() > 0 ==> memory_step(e0.mems(), final(self).mems(), groups_writes(wss))),
    {
        if components.len() == 0 {
            proof {
                let o = Seq::<PortEventsView>::empty();
                let w = Seq::<Seq<WriteView>>::empty();
                lemma_group_step(evaluator, &e0, groups, outs, wss, o, w);
                assert(w.flatten() =~= Seq::<WriteView>::empty());
                assert(groups_writes(wss) + w.flatten() =~= groups_writes(wss));
                assert(merged_outputs(groups_buffer(groups, outs), groups[outs.len() as int], o) == groups_buffer(groups, outs));
            }
            return (Ok(()), Ghost((Seq::empty(), Seq::empty())));
        }
        let results = self.execute_group(components, evaluator);
        let ghost before = *self;
        let ghost ids = id_views(components@);
        let ghost rv = results@.map_values(|x: Result<(AssocMap<String, Event>, Vec<MemoryWrite>), String>| group_result_view(x));
        proof {
            lemma_group_results_same_plan(evaluator, &e0, &before, next_stamp(&e0), ids, event_views(before.outputs()), rv);
        }
        let result = self.finish_group(kind, components, results);
        proof {
            CycleEngine::lemma_same_plan_transitive(&*self, &before, &e0);
        }
        match result {
            Ok(_) => {
                proof {
                    lemma_group_outcome(evaluator, &e0, groups, outs, wss, ids, rv);
                    crate::proxy::lemma_memory_step_append(e0.mems(), before.mems(), self.mems(), groups_writes(wss), ok_writes(rv));
                }
                (Ok(()), Ghost((ok_outputs(rv), ok_write_lists(rv))))
            },
            Err(e) => {
                proof {
                    assert(group_stop(evaluator, &e0, groups, outs, wss, rv, kind@, e@));
                    assert(outcome(Err::<(), String>(e))->Err_0 == e@);
                    assert(snapshots_kept(e0.mems(), self.mems()));
                }
                (Err(e), Ghost((Seq::empty(), Seq::empty())))
            },
        }
    }

    /// Execute one simulation cycle by groups: stage by stage, each stage's
    /// components together, their memory writes applied after the stage
    fn cycle_parallel_rayon<V: Evaluator>(&mut self, evaluator: &V) -> (r: Result<(), String>)
        requires
            old(self).cycle_count() < u64::MAX,
        ensures
            final(self).cycle_count() == old(self).cycle_count() + 1,
            final(self).same_plan(&*old(self)),
            grouped_cycle(evaluator, &*old(self), &*final(self), outcome(r), old(self).order(), "Stage"@),
    {
        self.begin_cycle();
        let ghost m1 = self.mems();
        let ghost groups = old(self).order();
        let ghost mut outs: Seq<Seq<PortEventsView>> = Seq::empty();
        let ghost mut wss: Seq<Seq<Seq<WriteView>>> = Seq::empty();
        proof {
            assert(event_views(self.outputs()) =~= Map::<PortView, EventView>::empty());
            assert(groups_writes(wss) =~= Seq::<WriteView>::empty());
            crate::proxy::lemma_memory_step_none(m1);
        }
        let n = self.execution_order.len();
        let mut s: usize = 0;
        while s < n
            invariant
                n == old(self).execution_order@.len(),
                s <= n,
                m1 == old(self).mems(),
                self.same_plan(&*old(self)),
                self.cycle_count() == old(self).cycle_count() + 1,
                groups == old(self).order(),
                outs.len() == s,
                group_run(evaluator, &*old(self), groups, outs, wss),
                event_views(self.outputs()) == groups_buffer(groups, outs),
                memory_step(m1, self.mems(), groups_writes(wss)),
            decreases n - s,
        {
            let components = copy_ids(&self.execution_order[s]);
            proof {
                assert(old(self).order()[s as int] == id_views(components@));
            }
            let (result, Ghost(step)) = self.run_group("Stage", &components, evaluator, Ghost(*old(self)), Ghost(groups),
                Ghost(outs), Ghost(wss));
            match result {
                Ok(_) => {
                    proof {
                        outs = outs.push(step.0);
                        wss = wss.push(step.1);
                    }
                },
                Err(e) => {
                    proof {
                        assert(outcome(Err::<(), String>(e))->Err_0 == e@);
                        assert(grouped_cycle(evaluator, &*old(self), &*self, Err::<(), Seq<char>>(e@), groups, "Stage"@));
                    }
                    return Err(e);
                },
            }
            s = s + 1;
        }
        let ghost before = *self;
        self.end_cycle();
        proof {
            CycleEngine::lemma_same_plan_transitive(&*self, &before, &*old(self));
            lemma_cycle_memory(m1, before.mems(), self.mems(), groups_writes(wss));
            assert(grouped_cycle(evaluator, &*old(self), &*self, Ok::<(), Seq<char>>(()), groups, "Stage"@));
        }
        Ok(())
    }

    /// Execute one simulation cycle by groups at sub-level granularity: stage
    /// by stage and sub-level by sub-level, each sub-level's components
    /// together, their memory writes applied after the sub-level
    fn cycle_parallel_rayon_with_sub_levels<V: Evaluator>(&mut self, evaluator: &V) -> (r: Result<(), String>)
        requires
            old(self).cycle_count() < u64::MAX,
        ensures
            final(self).cycle_count() == old(self).cycle_count() + 1,
            final(self).same_plan(&*old(self)),
            no_sub_level_work(old(self).sub_order()) ==> r is Ok,
            grouped_cycle(evaluator, &*old(self), &*final(self), outcome(r), sub_level_groups(old(self).sub_order()).flatten(),
                "Sub-level"@),
    {
        self.begin_cycle();
        let ghost m1 = self.mems();
        let ghost gs = sub_level_groups(old(self).sub_order());
        let ghost groups = gs.flatten();
        let ghost mut outs: Seq<Seq<PortEventsView>> = Seq::empty();
        let ghost mut wss: Seq<Seq<Seq<WriteView>>> = Seq::empty();
        proof {
            assert(event_views(self.outputs()) =~= Map::<PortView, EventView>::empty());
            assert(gs.take(0) =~= Seq::<Seq<Seq<IdView>>>::empty());
            assert(gs.take(0).flatten() =~= Seq::<Seq<IdView>>::empty());
            assert(groups_writes(wss) =~= Seq::<WriteView>::empty());
            crate::proxy::lemma_memory_step_none(m1);
        }
        let n = self.sub_level_execution_order.len();
        let mut s: usize = 0;
        while s < n
            invariant
                n == old(self).sub_order().len(),
                s <= n,
                m1 == old(self).mems(),
                self.same_plan(&*old(self)),
                self.cycle_count() == old(self).cycle_count() + 1,
                gs == sub_level_groups(old(self).sub_order()),
                groups == gs.flatten(),
                outs.len() == gs.take(s as int).flatten().len(),
                group_run(evaluator, &*old(self), groups, outs, wss),
                event_views(self.outputs()) == groups_buffer(groups, outs),
                memory_step(m1, self.mems(), groups_writes(wss)),
            decreases n - s,
        {
            let nl = self.sub_level_execution_order[s].sub_levels.len();
            let mut l: usize = 0;
            while l < nl
                invariant
                    n == old(self).sub_order().len(),
                    s < n,
                    nl == old(self).sub_order()[s as int].sub_levels@.len(),
                    l <= nl,
                    m1 == old(self).mems(),
                    self.same_plan(&*old(self)),
                    self.cycle_count() == old(self).cycle_count() + 1,
                    gs == sub_level_groups(old(self).sub_order()),
                    groups == gs.flatten(),
                    outs.len() == gs.take(s as int).flatten().len() + l,
                    group_run(evaluator, &*old(self), groups, outs, wss),
                    event_views(self.outputs()) == groups_buffer(groups, outs),
                    memory_step(m1, self.mems(), groups_writes(wss)),
                decreases nl - l,
            {
                let components = copy_ids(&self.sub_level_execution_order[s].sub_levels[l].components);
                proof {
                    assert(gs[s as int].len() == nl);
                    lemma_flatten_at(gs, s as int, l as int);
                    assert(gs[s as int][l as int] == id_views(components@));
                    assert(groups[outs.len() as int] == id_views(components@));
                    assert(id_views(components@).len() == components@.len());
                    assert(old(self).sub_order()[s as int].sub_levels@[l as int].components@.len() == components@.len());
                }
                let (result, Ghost(step)) = self.run_group("Sub-level", &components, evaluator, Ghost(*old(self)),
                    Ghost(groups), Ghost(outs), Ghost(wss));
                match result {
                    Ok(_) => {
                        proof {
                            outs = outs.push(step.0);
                            wss = wss.push(step.1);
                        }
                    },
                    Err(e) => {
                        proof {
                            assert(outcome(Err::<(), String>(e))->Err_0 == e@);
                            assert(grouped_cycle(evaluator, &*old(self), &*self, Err::<(), Seq<char>>(e@), groups, "Sub-level"@));
                        }
                        return Err(e);
                    },
                }
                l = l + 1;
            }
            proof {
                assert(gs.take(s as int + 1) =~= gs.take(s as int).push(gs[s as int]));
                gs.take(s as int).lemma_flatten_push(gs[s as int]);
            }
            s = s + 1;
        }
        proof {
            assert(gs.take(n as int) =~= gs);
        }
        let ghost before = *self;
        self.end_cycle();
        proof {
            CycleEngine::lemma_same_plan_transitive(&*self, &before, &*old(self));
            lemma_cycle_memory(m1, before.mems(), self.mems(), groups_writes(wss));
            assert(grouped_cycle(evaluator, &*old(self), &*self, Ok::<(), Seq<char>>(()), groups, "Sub-level"@));
        }
        Ok(())
    }
}


} // verus!
