use vstd::prelude::*;
use crate::assoc::{AssocMap, KeyLike};
use crate::connections::memory_view;
use crate::maps::{EventInputMap, InputsExt, Inputs, TypedInputMap, UnifiedInputMap, missing_input_message};
use crate::memory::{MemoryData, MemoryModuleTrait, MemoryStore};
use crate::proxy::{MemoryProxy, TypeSafeMemoryProxy, WriteView, lemma_memory_step_append, lemma_memory_step_none, memory_step,
    proxy_effect, proxy_target, read_outcome, read_view, write_effect, write_made, write_of, writes_fit};
use crate::strings::{join3, join5, outcome, owned};
use crate::types::{ComponentId, IdView, PortRef, PortView};
use crate::values::{Event, TypedData, TypedValue, TypeTag, ValueView, mismatch_message, tag_name};

verus! {

/// What asking the inputs for a value of the given kind gives.
pub open spec fn input_outcome(events: Map<Seq<char>, Event>, port: Seq<char>, tag: TypeTag) -> Result<
    ValueView,
    Seq<char>,
> {
    if !events.contains_key(port) {
        Err(missing_input_message(port))
    } else if events[port].payload@.tag() != tag {
        Err(mismatch_message(tag, events[port].payload@.tag()))
    } else {
        Ok(events[port].payload@)
    }
}

/// A typed result, by view.
pub open spec fn value_result<T: TypedData>(r: Result<T, String>) -> Result<ValueView, Seq<char>> {
    match r {
        Ok(x) => Ok(x.data_view()),
        Err(e) => Err(e@),
    }
}

/// Unified simulation context for component evaluation: the component's
/// inputs, its memory proxy, and its identifier
pub struct SimulationContext {
    /// Input values from connected components
    pub inputs: UnifiedInputMap,
    /// Memory proxy for type-safe memory access
    pub memory: MemoryProxy,
    /// Component ID for context and debugging
    pub component_id: ComponentId,
}

impl SimulationContext {
    /// Create a new simulation context
    pub fn new(inputs: UnifiedInputMap, memory: MemoryProxy, component_id: ComponentId) -> (r: Self)
        ensures
            r.inputs == inputs,
            r.memory == memory,
            r.component_id == component_id,
    {
        SimulationContext { inputs, memory, component_id }
    }

    /// Get the component's unique identifier
    pub fn component_id(&self) -> (r: &ComponentId)
        ensures
            r@ == self.component_id@,
    {
        &self.component_id
    }

    /// Get typed input value
    pub fn get_input<T: TypedData>(&self, port: &str) -> (r: Result<T, String>)
        ensures
            value_result(r) == input_outcome(self.inputs.events(), port@, T::data_tag()),
    {
        self.inputs.get::<T>(port)
    }

    /// Get input timestamp
    pub fn get_input_timestamp(&self, port: &str) -> (r: Result<u64, String>)
        ensures
            match r {
                Ok(t) => self.inputs.events().contains_key(port@) && t == self.inputs.events()[port@].timestamp,
                Err(e) => !self.inputs.events().contains_key(port@) && e@ == missing_input_message(port@),
            },
    {
        self.inputs.get_timestamp(port)
    }

    /// Read from memory
    pub fn memory_read<T: MemoryData>(&self, port: &str, address: &str) -> (r: Result<Option<T>, String>)
        ensures
            read_view(r) == match proxy_target(self.memory.conns(), self.memory.comp(), self.memory.subset(), port@) {
                Err(e) => Err(e),
                Ok(mem) => read_outcome(self.memory.modules(), mem, address@, T::data_tag()),
            },
    {
        self.memory.read(port, address)
    }

    /// Write to memory
    pub fn memory_write<T: MemoryData>(&mut self, port: &str, address: &str, data: T) -> (r: Result<(), String>)
        ensures
            final(self).inputs == old(self).inputs,
            final(self).component_id == old(self).component_id,
            write_effect(old(self).memory, final(self).memory, port@, address@, data.data_view(), T::data_tag(), outcome(r)),
            proxy_effect(old(self).memory, final(self).memory, write_made(old(self).memory, port@, address@, data.data_view(), outcome(r))),
    {
        self.memory.write(port, address, data)
    }
}

/// Evaluation context provided to component modules during evaluation
pub struct EvaluationContext {
    /// Event input values from connected components
    pub inputs: EventInputMap,
    /// Memory proxy for type-safe memory access
    pub memory: MemoryProxy,
    /// Component ID for context
    pub component_id: ComponentId,
}

/// Evaluation context with plain typed inputs
pub struct LegacyEvaluationContext {
    /// Typed input values from connected components
    pub inputs: TypedInputMap,
    /// Memory proxy for type-safe memory access
    pub memory: MemoryProxy,
    /// Component ID for context
    pub component_id: ComponentId,
}

/// Copies of the memory modules of a registry.
fn copy_modules(m: &AssocMap<ComponentId, MemoryStore>) -> (r: AssocMap<ComponentId, MemoryStore>)
    ensures
        r.as_map().dom() == m.as_map().dom(),
        forall|k: IdView| #[trigger] r.as_map().contains_key(k) ==> r.as_map()[k].id_view() == m.as_map()[k].id_view()
            && r.as_map()[k].data_kind() == m.as_map()[k].data_kind() && r.as_map()[k].current()
            == m.as_map()[k].current() && r.as_map()[k].snapshot_state() == m.as_map()[k].snapshot_state(),
{
    let mut r: AssocMap<ComponentId, MemoryStore> = AssocMap::new();
    let n = m.len();
    let mut i: usize = 0;
    while i < n
        invariant
            n == m.entries().len(),
            i <= n,
            m.wf(),
            forall|k: IdView| #[trigger] r.as_map().contains_key(k) <==> m.key_seq().contains(k) && m.key_seq().index_of(k)
                < i,
            forall|k: IdView| #[trigger] r.as_map().contains_key(k) ==> r.as_map()[k].id_view() == m.as_map()[k].id_view()
                && r.as_map()[k].data_kind() == m.as_map()[k].data_kind() && r.as_map()[k].current()
                == m.as_map()[k].current() && r.as_map()[k].snapshot_state() == m.as_map()[k].snapshot_state(),
        decreases n - i,
    {
        proof {
            m.lemma_view_at(i as int);
        }
        let key = m.key_at(i);
        let ghost kv = key@;
        assert(kv == m.key_seq()[i as int]);
        r.insert(key.duplicate(), m.value_at(i).clone_module());
        proof {
            assert forall|k: IdView| #[trigger] m.key_seq().contains(k) implies (m.key_seq().index_of(k) < i + 1 <==> (
            m.key_seq().index_of(k) < i || k == kv)) by {
                let x = m.key_seq().index_of(k);
                crate::assoc::lemma_index_of_distinct(m.key_seq(), x);
            }
        }
        i = i + 1;
    }
    proof {
        assert(r.as_map().dom() =~= m.as_map().dom());
    }
    r
}

/// Copies of a map of memory connections.
fn copy_memory_connections(m: &AssocMap<PortRef, ComponentId>) -> (r: AssocMap<PortRef, ComponentId>)
    ensures
        memory_view(r) == memory_view(*m),
{
    let mut r: AssocMap<PortRef, ComponentId> = AssocMap::new();
    let n = m.len();
    let mut i: usize = 0;
    while i < n
        invariant
            n == m.entries().len(),
            i <= n,
            m.wf(),
            memory_view(r) == Map::new(
                |k: PortView| m.key_seq().contains(k) && m.key_seq().index_of(k) < i,
                |k: PortView| memory_view(*m)[k],
            ),
        decreases n - i,
    {
        proof {
            m.lemma_view_at(i as int);
        }
        let key = m.key_at(i);
        let ghost kv = key.key_view();
        assert(kv == m.key_seq()[i as int]);
        let ghost before = memory_view(r);
        r.insert(key.copy_key(), m.value_at(i).duplicate());
        proof {
            assert(memory_view(r) =~= before.insert(kv, memory_view(*m)[kv]));
            assert forall|k: PortView| #[trigger] m.key_seq().contains(k) implies (m.key_seq().index_of(k) < i + 1 <==> (
            m.key_seq().index_of(k) < i || k == kv)) by {
                let x = m.key_seq().index_of(k);
                crate::assoc::lemma_index_of_distinct(m.key_seq(), x);
            }
            assert(memory_view(r) =~= Map::new(
                |k: PortView| m.key_seq().contains(k) && m.key_seq().index_of(k) < i + 1,
                |k: PortView| memory_view(*m)[k],
            ));
        }
        i = i + 1;
    }
    assert(memory_view(r) =~= memory_view(*m));
    r
}

/// What reading through the central proxy gives, for data of the given kind
/// named by `kind`.
pub open spec fn central_read_outcome(
    mc: Map<PortView, IdView>,
    modules: Map<IdView, MemoryStore>,
    comp: IdView,
    port: Seq<char>,
    address: Seq<char>,
    tag: TypeTag,
    kind: Seq<char>,
) -> Result<Option<ValueView>, Seq<char>> {
    if !mc.contains_key((comp, port)) {
        Err("Memory port '"@ + port + "' not connected for component '"@ + comp.0 + "'"@)
    } else if !modules.contains_key(mc[(comp, port)]) {
        Err("Memory component '"@ + mc[(comp, port)].0 + "' not found"@)
    } else if !modules[mc[(comp, port)]].snapshot_state().contains_key(address) {
        Ok(None)
    } else if modules[mc[(comp, port)]].snapshot_state()[address].tag() != tag {
        Err("Type mismatch: cannot convert memory data to "@ + kind)
    } else {
        Ok(Some(modules[mc[(comp, port)]].snapshot_state()[address]))
    }
}

/// Memory proxy over a copy of the central registry of memory modules
pub struct TypeSafeCentralMemoryProxy {
    memory_modules: AssocMap<ComponentId, MemoryStore>,
    memory_connections: AssocMap<PortRef, ComponentId>,
    component_id: ComponentId,
}

/// What using a central proxy by reads and writes does, given the writes that
/// took effect, in order: each is written by the component to the memory one
/// of its memory ports is wired to, holding data of its kind, and the memory
/// modules' current states have them applied.  The wiring and component stay.
pub open spec fn central_effect(before: TypeSafeCentralMemoryProxy, after: TypeSafeCentralMemoryProxy, ws: Seq<WriteView>) -> bool {
    &&& after.conns() == before.conns()
    &&& after.comp() == before.comp()
    &&& central_writes_allowed(before.conns(), before.comp(), ws)
    &&& writes_fit(before.modules(), ws)
    &&& memory_step(before.modules(), after.modules(), ws)
}

/// Each write is the component's, to the memory one of its memory ports is
/// wired to.
pub open spec fn central_writes_allowed(mc: Map<PortView, IdView>, comp: IdView, ws: Seq<WriteView>) -> bool {
    forall|i: int| 0 <= i < ws.len() ==> (#[trigger] ws[i]).3 == comp && exists|port: Seq<char>| mc.contains_key((comp, port))
        && mc[(comp, port)] == ws[i].0
}

/// The writes that take effect when a write through a central proxy returns
/// `res`.
pub open spec fn central_write_made(
    p: TypeSafeCentralMemoryProxy,
    port: Seq<char>,
    address: Seq<char>,
    v: ValueView,
    res: Result<(), Seq<char>>,
) -> Seq<WriteView> {
    if res is Ok {
        seq![write_of(p.conns()[(p.comp(), port)], address, v, p.comp())]
    } else {
        Seq::empty()
    }
}

/// A central proxy left alone is used with no writes.
pub proof fn lemma_central_effect_none(p: TypeSafeCentralMemoryProxy)
    ensures
        central_effect(p, p, Seq::empty()),
{
    lemma_memory_step_none(p.modules());
}

/// Uses of a central proxy one after another are one use with both lists of
/// writes.
pub proof fn lemma_central_effect_append(
    a: TypeSafeCentralMemoryProxy,
    b: TypeSafeCentralMemoryProxy,
    c: TypeSafeCentralMemoryProxy,
    w1: Seq<WriteView>,
    w2: Seq<WriteView>,
)
    requires
        central_effect(a, b, w1),
        central_effect(b, c, w2),
    ensures
        central_effect(a, c, w1 + w2),
{
    let w = w1 + w2;
    lemma_memory_step_append(a.modules(), b.modules(), c.modules(), w1, w2);
    assert forall|i: int| 0 <= i < w.len() implies (#[trigger] w[i]).3 == a.comp() && exists|port: Seq<char>| a.conns().contains_key(
        (a.comp(), port),
    ) && a.conns()[(a.comp(), port)] == w[i].0 by {
        if i < w1.len() {
            assert(w[i] == w1[i]);
        } else {
            assert(w[i] == w2[i - w1.len()]);
        }
    }
    assert forall|i: int| 0 <= i < w.len() implies a.modules().contains_key((#[trigger] w[i]).0) && a.modules()[w[i].0].data_kind()
        == w[i].2.tag() by {
        if i < w1.len() {
            assert(w[i] == w1[i]);
        } else {
            assert(w[i] == w2[i - w1.len()]);
            assert(b.modules().contains_key(w2[i - w1.len()].0));
        }
    }
}

impl TypeSafeCentralMemoryProxy {
    pub closed spec fn modules(&self) -> Map<IdView, MemoryStore> {
        self.memory_modules.as_map()
    }

    pub closed spec fn conns(&self) -> Map<PortView, IdView> {
        memory_view(self.memory_connections)
    }

    pub closed spec fn comp(&self) -> IdView {
        self.component_id@
    }

    /// Create a new proxy over copies of the memory modules and connections
    pub fn new(
        memory_modules: &AssocMap<ComponentId, MemoryStore>,
        memory_connections: &AssocMap<PortRef, ComponentId>,
        component_id: ComponentId,
    ) -> (r: Self)
        ensures
            r.modules().dom() == memory_modules.as_map().dom(),
            forall|k: IdView| #[trigger] r.modules().contains_key(k) ==> r.modules()[k].data_kind()
                == memory_modules.as_map()[k].data_kind() && r.modules()[k].current() == memory_modules.as_map()[k].current()
                && r.modules()[k].snapshot_state() == memory_modules.as_map()[k].snapshot_state()
                && r.modules()[k].id_view() == memory_modules.as_map()[k].id_view(),
            r.conns() == memory_view(*memory_connections),
            r.comp() == component_id@,
    {
        TypeSafeCentralMemoryProxy {
            memory_modules: copy_modules(memory_modules),
            memory_connections: copy_memory_connections(memory_connections),
            component_id,
        }
    }

    /// Read typed data from memory
    pub fn read_data<T: MemoryData>(&self, port: &str, address: &str) -> (r: Result<Option<T>, String>)
        ensures
            read_view(r) == central_read_outcome(self.conns(), self.modules(), self.comp(), port@, address@,
                T::data_tag(), tag_name(T::data_tag())),
    {
        let mem_id = match self.memory_connections.get(&(self.component_id.duplicate(), owned(port))) {
            Some(m) => m,
            None => return Err(join5("Memory port '", port, "' not connected for component '", self.component_id.id(), "'")),
        };
        match self.memory_modules.get(mem_id) {
            None => Err(join3("Memory component '", mem_id.id(), "' not found")),
            Some(module) => match module.read_any(address) {
                None => Ok(None),
                Some(v) => match v.get::<T>() {
                    Ok(x) => Ok(Some(x.duplicate())),
                    Err(_) => Err(crate::strings::concat_strs("Type mismatch: cannot convert memory data to ", T::kind_name())),
                },
            },
        }
    }

    /// Write typed data to memory
    pub fn write_data<T: MemoryData>(&mut self, port: &str, address: &str, data: T) -> (r: Result<(), String>)
        ensures
            final(self).conns() == old(self).conns(),
            final(self).comp() == old(self).comp(),
            !old(self).conns().contains_key((old(self).comp(), port@)) ==> outcome(r) == Err::<(), Seq<char>>(
                "Memory port '"@ + port@ + "' not connected for component '"@ + old(self).comp().0 + "'"@,
            ) && final(self).modules() == old(self).modules(),
            old(self).conns().contains_key((old(self).comp(), port@)) ==> {
                let mem = old(self).conns()[(old(self).comp(), port@)];
                &&& !old(self).modules().contains_key(mem) ==> outcome(r) == Err::<(), Seq<char>>(
                    "Memory component '"@ + mem.0 + "' not found"@,
                ) && final(self).modules() == old(self).modules()
                &&& old(self).modules().contains_key(mem) && old(self).modules()[mem].data_kind() != T::data_tag()
                    ==> outcome(r) == Err::<(), Seq<char>>(
                    "Failed to write to memory '"@ + mem.0 + "' at address '"@ + address@ + "'"@,
                ) && final(self).modules() == old(self).modules()
                &&& old(self).modules().contains_key(mem) && old(self).modules()[mem].data_kind() == T::data_tag()
                    ==> r is Ok && crate::proxy::written(old(self).modules(), final(self).modules(), mem, address@,
                    data.data_view())
            },
            central_effect(*old(self), *final(self), central_write_made(*old(self), port@, address@, data.data_view(), outcome(r))),
    {
        proof {
            data.lemma_view_tag();
            lemma_central_effect_none(*self);
        }
        let ghost dv = data.data_view();
        let mem_id = match self.memory_connections.get(&(self.component_id.duplicate(), owned(port))) {
            Some(m) => m.duplicate(),
            None => return Err(join5("Memory port '", port, "' not connected for component '", self.component_id.id(), "'")),
        };
        if !self.memory_modules.contains_key(&mem_id) {
            return Err(join3("Memory component '", mem_id.id(), "' not found"));
        }
        match crate::proxy::write_store(&mut self.memory_modules, &mem_id, address, TypedValue::new(data)) {
            Ok(_) => {
                proof {
                    let ws = central_write_made(*old(self), port@, address@, dv, Ok::<(), Seq<char>>(()));
                    let mem = mem_id@;
                    assert(ws.len() == 1);
                    assert(ws[0] == write_of(mem, address@, dv, old(self).comp()));
                    assert(ws.drop_last() =~= Seq::<WriteView>::empty());
                    assert(crate::proxy::current_after(old(self).modules()[mem].current(), ws.drop_last(), mem)
                        == old(self).modules()[mem].current());
                    assert forall|k: IdView| #[trigger] old(self).modules().contains_key(k) && k != mem implies crate::proxy::current_after(
                        old(self).modules()[k].current(), ws, k) == old(self).modules()[k].current() by {
                        crate::proxy::lemma_current_after_untouched(old(self).modules()[k].current(), ws, k);
                    }
                    assert(central_writes_allowed(old(self).conns(), old(self).comp(), ws)) by {
                        assert(old(self).conns().contains_key((old(self).comp(), port@)));
                    }
                }
                Ok(())
            },
            Err(_) => Err(join5("Failed to write to memory '", mem_id.id(), "' at address '", address, "'")),
        }
    }

    /// Give back the memory modules, with the writes made through the proxy
    pub fn into_memory_modules(self) -> (r: AssocMap<ComponentId, MemoryStore>)
        ensures
            r.as_map() == self.modules(),
    {
        self.memory_modules
    }
}

impl TypeSafeMemoryProxy for TypeSafeCentralMemoryProxy {
    fn read<T: MemoryData>(&self, port: &str, address: &str) -> (r: Result<Option<T>, String>)
        ensures
            read_view(r) == central_read_outcome(self.conns(), self.modules(), self.comp(), port@, address@,
                T::data_tag(), tag_name(T::data_tag())),
    {
        self.read_data(port, address)
    }

    fn write<T: MemoryData>(&mut self, port: &str, address: &str, data: T) -> (r: Result<(), String>)
        ensures
            final(self).conns() == old(self).conns(),
            final(self).comp() == old(self).comp(),
            !old(self).conns().contains_key((old(self).comp(), port@)) ==> outcome(r) == Err::<(), Seq<char>>(
                "Memory port '"@ + port@ + "' not connected for component '"@ + old(self).comp().0 + "'"@,
            ) && final(self).modules() == old(self).modules(),
            old(self).conns().contains_key((old(self).comp(), port@)) ==> {
                let mem = old(self).conns()[(old(self).comp(), port@)];
                &&& !old(self).modules().contains_key(mem) ==> outcome(r) == Err::<(), Seq<char>>(
                    "Memory component '"@ + mem.0 + "' not found"@,
                ) && final(self).modules() == old(self).modules()
                &&& old(self).modules().contains_key(mem) && old(self).modules()[mem].data_kind() != T::data_tag()
                    ==> outcome(r) == Err::<(), Seq<char>>(
                    "Failed to write to memory '"@ + mem.0 + "' at address '"@ + address@ + "'"@,
                ) && final(self).modules() == old(self).modules()
                &&& old(self).modules().contains_key(mem) && old(self).modules()[mem].data_kind() == T::data_tag()
                    ==> r is Ok && crate::proxy::written(old(self).modules(), final(self).modules(), mem, address@,
                    data.data_view())
            },
    {
        self.write_data(port, address, data)
    }
}

/// Errors that can occur during state management operations
#[derive(Debug, Clone)]
pub enum StateError {
    /// Attempted to downcast to incorrect type
    InvalidDowncast(String),
    /// State not found for the given component
    StateNotFound(String),
    /// Invalid state operation
    InvalidOperation(String),
}

impl StateError {
    /// The error as text
    pub fn message(&self) -> (r: String)
        ensures
            r@ == match *self {
                StateError::InvalidDowncast(m) => "Invalid downcast: "@ + m@,
                StateError::StateNotFound(m) => "State not found: "@ + m@,
                StateError::InvalidOperation(m) => "Invalid operation: "@ + m@,
            },
    {
        match self {
            StateError::InvalidDowncast(m) => crate::strings::concat_strs("Invalid downcast: ", m.as_str()),
            StateError::StateNotFound(m) => crate::strings::concat_strs("State not found: ", m.as_str()),
            StateError::InvalidOperation(m) => crate::strings::concat_strs("Invalid operation: ", m.as_str()),
        }
    }
}

} // verus!
