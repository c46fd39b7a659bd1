use vstd::prelude::*;
use crate::assoc::{AssocMap, KeyLike, lemma_index_of_distinct};
use crate::connections::memory_view;
use crate::memory::{MemoryData, MemoryModuleTrait, MemoryStore};
use crate::strings::{join3, join5, outcome, owned};
use crate::types::{ComponentId, IdView, PortRef, PortView, id_views};
use crate::values::{TypedData, TypedValue, TypeTag, ValueView};

verus! {

/// The abstract value of a memory write: the memory written, the address, the
/// data, and the component that wrote it.
pub type WriteView = (IdView, Seq<char>, ValueView, IdView);

/// A single memory write operation that occurred during parallel execution
pub struct MemoryWrite {
    /// The memory component that was written to
    pub memory_id: ComponentId,
    /// The address within the memory component
    pub address: String,
    /// The data that was written
    pub data: TypedValue,
    /// The component that performed the write
    pub writer_id: ComponentId,
}

impl View for MemoryWrite {
    type V = WriteView;

    open spec fn view(&self) -> WriteView {
        (self.memory_id@, self.address@, self.data@, self.writer_id@)
    }
}

impl MemoryWrite {
    /// A copy of the write.
    pub fn duplicate(&self) -> (r: MemoryWrite)
        ensures
            r@ == self@,
    {
        MemoryWrite {
            memory_id: self.memory_id.duplicate(),
            address: self.address.clone(),
            data: self.data.duplicate(),
            writer_id: self.writer_id.duplicate(),
        }
    }
}

/// The writes of a write map, by memory and address.
pub open spec fn write_view(a: AssocMap<PortRef, MemoryWrite>) -> Map<PortView, WriteView> {
    Map::new(|k: PortView| a.as_map().contains_key(k), |k: PortView| a.as_map()[k]@)
}

/// Collection of memory writes: one per memory and address, the last one
/// written.
pub struct MemoryDelta {
    /// Map of memory writes: (memory_id, address) -> write
    writes: AssocMap<PortRef, MemoryWrite>,
}

impl MemoryDelta {
    /// The writes by memory and address.
    pub closed spec fn writes_view(&self) -> Map<PortView, WriteView> {
        write_view(self.writes)
    }

    /// Create a new empty memory delta
    pub fn new() -> (r: Self)
        ensures
            r.writes_view() == Map::<PortView, WriteView>::empty(),
    {
        let r = MemoryDelta { writes: AssocMap::new() };
        assert(r.writes_view() =~= Map::<PortView, WriteView>::empty());
        r
    }

    /// Record a memory write operation; a later write to the same memory and
    /// address replaces an earlier one
    pub fn record_write<T: TypedData>(&mut self, memory_id: ComponentId, address: String, data: T, writer_id: ComponentId)
        ensures
            final(self).writes_view() == old(self).writes_view().insert(
                (memory_id@, address@),
                (memory_id@, address@, data.data_view(), writer_id@),
            ),
            final(self).writes_view().dom().finite(),
            final(self).writes_view().dom().len() == old(self).writes_view().dom().len() + if old(
                self,
            ).writes_view().contains_key((memory_id@, address@)) {
                0int
            } else {
                1int
            },
    {
        let ghost w0 = self.writes_view();
        proof {
            self.writes.lemma_dom_finite();
            assert(w0.dom() =~= self.writes.as_map().dom());
        }
        let ghost kv = (memory_id@, address@);
        let write = MemoryWrite {
            memory_id: memory_id.duplicate(),
            address: address.clone(),
            data: TypedValue::new(data),
            writer_id,
        };
        let ghost wv = write@;
        self.writes.insert((memory_id, address), write);
        assert(self.writes_view() =~= w0.insert(kv, wv));
        proof {
            assert(self.writes_view().dom() =~= w0.dom().insert(kv));
        }
    }

    /// Get all memory writes
    pub fn get_writes(&self) -> (r: &AssocMap<PortRef, MemoryWrite>)
        ensures
            write_view(*r) == self.writes_view(),
    {
        &self.writes
    }

    /// Check if there are any writes
    pub fn is_empty(&self) -> (b: bool)
        ensures
            b == (self.writes_view() == Map::<PortView, WriteView>::empty()),
    {
        let b = self.writes.is_empty();
        proof {
            if b {
                assert(self.writes_view() =~= Map::<PortView, WriteView>::empty());
            } else {
                assert(!(self.writes.as_map() =~= Map::<PortView, MemoryWrite>::empty()));
                let k = choose|k: PortView| self.writes.as_map().contains_key(k);
                assert(self.writes_view().contains_key(k));
            }
        }
        b
    }

    /// Get the number of writes
    pub fn len(&self) -> (n: usize)
        ensures
            n == self.writes_view().dom().len(),
            self.writes_view().dom().finite(),
    {
        proof {
            self.writes.lemma_dom_finite();
        }
        let n = self.writes.len();
        assert(self.writes_view().dom() =~= self.writes.as_map().dom());
        n
    }

    /// Merge another delta into this one; the other's writes win where both
    /// wrote the same memory and address
    pub fn merge(&mut self, other: MemoryDelta)
        ensures
            final(self).writes_view() == old(self).writes_view().union_prefer_right(other.writes_view()),
    {
        let ghost w0 = self.writes_view();
        let ghost ow = other.writes_view();
        let n = other.writes.len();
        let mut i: usize = 0;
        while i < n
            invariant
                n == other.writes.entries().len(),
                i <= n,
                other.writes.wf(),
                ow == write_view(other.writes),
                self.writes_view() == w0.union_prefer_right(Map::new(
                    |k: PortView| other.writes.key_seq().contains(k) && other.writes.key_seq().index_of(k) < i,
                    |k: PortView| ow[k],
                )),
            decreases n - i,
        {
            proof {
                other.writes.lemma_view_at(i as int);
            }
            let key = other.writes.key_at(i);
            let write = other.writes.value_at(i);
            let ghost kv = key.key_view();
            assert(kv == other.writes.key_seq()[i as int]);
            assert(ow[kv] == write@);
            let ghost before = self.writes_view();
            let copy = write.duplicate();
            self.writes.insert(key.copy_key(), copy);
            proof {
                assert(self.writes_view() =~= before.insert(kv, ow[kv]));
                assert forall|k: PortView| #[trigger] other.writes.key_seq().contains(k) implies
                    (other.writes.key_seq().index_of(k) < i + 1 <==> (other.writes.key_seq().index_of(k) < i || k == kv)) by {
                    let x = other.writes.key_seq().index_of(k);
                    lemma_index_of_distinct(other.writes.key_seq(), x);
                }
                assert(self.writes_view() =~= w0.union_prefer_right(Map::new(
                    |k: PortView| other.writes.key_seq().contains(k) && other.writes.key_seq().index_of(k) < i + 1,
                    |k: PortView| ow[k],
                )));
            }
            i = i + 1;
        }
        proof {
            assert(Map::new(
                |k: PortView| other.writes.key_seq().contains(k) && other.writes.key_seq().index_of(k) < n,
                |k: PortView| ow[k],
            ) =~= ow);
        }
    }

    /// Extract all writes and clear the delta
    pub fn take_writes(&mut self) -> (r: AssocMap<PortRef, MemoryWrite>)
        ensures
            write_view(r) == old(self).writes_view(),
            final(self).writes_view() == Map::<PortView, WriteView>::empty(),
    {
        let mut r = AssocMap::new();
        std::mem::swap(&mut r, &mut self.writes);
        assert(self.writes_view() =~= Map::<PortView, WriteView>::empty());
        r
    }
}

impl Default for MemoryDelta {
    fn default() -> (r: Self)
        ensures
            r.writes_view() == Map::<PortView, WriteView>::empty(),
    {
        Self::new()
    }
}

/// Errors of memory operations
#[derive(Debug, Clone)]
pub enum MemoryError {
    InvalidAddress(String),
    InvalidPort(String),
    MemoryNotFound(ComponentId),
    OperationFailed(String),
    TypeMismatch(String),
}

/// The views of an optional list of identifiers.
pub open spec fn subset_view(s: Option<Vec<ComponentId>>) -> Option<Seq<IdView>> {
    match s {
        Some(v) => Some(id_views(v@)),
        None => None,
    }
}

/// The views of an optional borrowed list of identifiers.
pub open spec fn subset_ref_view(s: Option<&Vec<ComponentId>>) -> Option<Seq<IdView>> {
    match s {
        Some(v) => Some(id_views(v@)),
        None => None,
    }
}

/// The memory component that a memory port of the component is wired to, when
/// the subset, if there is one, allows it.
pub open spec fn proxy_target(
    mc: Map<PortView, IdView>,
    comp: IdView,
    subset: Option<Seq<IdView>>,
    port: Seq<char>,
) -> Result<IdView, Seq<char>> {
    if !mc.contains_key((comp, port)) {
        Err("Memory port '"@ + port + "' not connected for component '"@ + comp.0 + "'"@)
    } else if subset is Some && !subset->0.contains(mc[(comp, port)]) {
        Err("Memory component '"@ + mc[(comp, port)].0 + "' not in subset for component '"@ + comp.0 + "'"@)
    } else {
        Ok(mc[(comp, port)])
    }
}

/// What reading an address of a memory module gives, for data of the given kind.
pub open spec fn read_outcome(
    modules: Option<Map<IdView, MemoryStore>>,
    mem: IdView,
    address: Seq<char>,
    tag: TypeTag,
) -> Result<Option<ValueView>, Seq<char>> {
    if modules is None {
        Err("No memory modules available in proxy"@)
    } else if !modules->0.contains_key(mem) {
        Err("Memory module '"@ + mem.0 + "' not found in proxy registry"@)
    } else if !modules->0[mem].snapshot_state().contains_key(address) {
        Ok(None)
    } else if modules->0[mem].snapshot_state()[address].tag() != tag {
        Err("Type mismatch reading from memory address '"@ + address + "' in memory '"@ + mem.0 + "'"@)
    } else {
        Ok(Some(modules->0[mem].snapshot_state()[address]))
    }
}

/// What writing data of the given kind to a memory module gives.
pub open spec fn write_check(
    modules: Option<Map<IdView, MemoryStore>>,
    mem: IdView,
    address: Seq<char>,
    tag: TypeTag,
) -> Result<(), Seq<char>> {
    if modules is None {
        Err("No memory modules available in proxy"@)
    } else if !modules->0.contains_key(mem) {
        Err("Memory module '"@ + mem.0 + "' not found in proxy registry"@)
    } else if modules->0[mem].data_kind() != tag {
        Err("Failed to write to memory address '"@ + address + "' in memory '"@ + mem.0 + "' - type mismatch"@)
    } else {
        Ok(())
    }
}

/// `after` is `before` with the value written at the address of one memory
/// module's current state.
pub open spec fn written(
    before: Map<IdView, MemoryStore>,
    after: Map<IdView, MemoryStore>,
    mem: IdView,
    address: Seq<char>,
    v: ValueView,
) -> bool {
    &&& after.dom() == before.dom()
    &&& forall|k: IdView| #[trigger] before.contains_key(k) && k != mem ==> after[k] == before[k]
    &&& after[mem].current() == before[mem].current().insert(address, v)
    &&& after[mem].snapshot_state() == before[mem].snapshot_state()
    &&& after[mem].data_kind() == before[mem].data_kind()
    &&& after[mem].id_view() == before[mem].id_view()
}

/// The read of a typed value, by view.
pub open spec fn read_view<T: TypedData>(r: Result<Option<T>, String>) -> Result<Option<ValueView>, Seq<char>> {
    match r {
        Ok(Some(x)) => Ok(Some(x.data_view())),
        Ok(None) => Ok(None),
        Err(e) => Err(e@),
    }
}

/// Whether the identifier is in the list.
fn ids_contain(ids: &Vec<ComponentId>, id: &ComponentId) -> (b: bool)
    ensures
        b == id_views(ids@).contains(id@),
{
    let mut i: usize = 0;
    while i < ids.len()
        invariant
            i <= ids@.len(),
            forall|j: int| 0 <= j < i ==> ids@[j]@ != id@,
        decreases ids@.len() - i,
    {
        if ids[i].same_as(id) {
            assert(id_views(ids@)[i as int] == id@);
            return true;
        }
        i = i + 1;
    }
    proof {
        if id_views(ids@).contains(id@) {
            let j = id_views(ids@).index_of(id@);
            assert(ids@[j]@ == id@);
        }
    }
    false
}

/// Copies of a list of identifiers.
fn copy_ids(ids: &[ComponentId]) -> (r: Vec<ComponentId>)
    ensures
        id_views(r@) == id_views(ids@),
{
    let mut r: Vec<ComponentId> = Vec::new();
    let mut i: usize = 0;
    while i < ids.len()
        invariant
            i <= ids@.len(),
            id_views(r@) == id_views(ids@).take(i as int),
        decreases ids@.len() - i,
    {
        let ghost before = r@;
        r.push(ids[i].duplicate());
        proof {
            assert(id_views(r@) =~= id_views(before).push(ids@[i as int]@));
            assert(id_views(ids@).take(i as int + 1) =~= id_views(ids@).take(i as int).push(ids@[i as int]@));
        }
        i = i + 1;
    }
    assert(id_views(ids@).take(ids@.len() as int) =~= id_views(ids@));
    r
}

/// The memory component that a memory port of the component is wired to.
fn lookup_target<'a>(
    connections: &'a AssocMap<PortRef, ComponentId>,
    comp: &ComponentId,
    subset: Option<&Vec<ComponentId>>,
    port: &str,
) -> (r: Result<&'a ComponentId, String>)
    ensures
        match r {
            Ok(m) => proxy_target(memory_view(*connections), comp@, subset_ref_view(subset), port@) == Ok::<IdView, Seq<char>>(m@),
            Err(e) => proxy_target(memory_view(*connections), comp@, subset_ref_view(subset), port@) == Err::<IdView, Seq<char>>(e@),
        },
{
    let key = (comp.duplicate(), owned(port));
    let mem_id = match connections.get(&key) {
        Some(m) => m,
        None => return Err(join5("Memory port '", port, "' not connected for component '", comp.id(), "'")),
    };
    match subset {
        Some(ids) => {
            if !ids_contain(ids, mem_id) {
                return Err(join5("Memory component '", mem_id.id(), "' not in subset for component '", comp.id(), "'"));
            }
        },
        None => {},
    }
    Ok(mem_id)
}

/// Reads typed data at an address of one memory module, from its snapshot.
fn read_store<T: MemoryData>(modules: &AssocMap<ComponentId, MemoryStore>, mem: &ComponentId, address: &str) -> (r:
    Result<Option<T>, String>)
    ensures
        read_view(r) == read_outcome(Some(modules.as_map()), mem@, address@, T::data_tag()),
{
    match modules.get(mem) {
        None => Err(join3("Memory module '", mem.id(), "' not found in proxy registry")),
        Some(module) => match module.read_any(address) {
            None => Ok(None),
            Some(v) => match v.get::<T>() {
                Ok(x) => Ok(Some(x.duplicate())),
                Err(_) => Err(join5("Type mismatch reading from memory address '", address, "' in memory '", mem.id(), "'")),
            },
        },
    }
}

/// Writes typed data at an address of one memory module's current state.
pub(crate) fn write_store(modules: &mut AssocMap<ComponentId, MemoryStore>, mem: &ComponentId, address: &str, data: TypedValue) -> (r:
    Result<(), String>)
    ensures
        outcome(r) == write_check(Some(old(modules).as_map()), mem@, address@, data@.tag()),
        r is Ok ==> written(old(modules).as_map(), final(modules).as_map(), mem@, address@, data@),
        r is Err ==> final(modules).as_map() == old(modules).as_map(),
        final(modules).key_seq() == old(modules).key_seq(),
{
    match modules.find(mem) {
        None => Err(join3("Memory module '", mem.id(), "' not found in proxy registry")),
        Some(i) => {
            proof {
                modules.lemma_view_at(i as int);
            }
            let kind = modules.value_at(i).kind();
            if data.type_id() != kind {
                return Err(join5("Failed to write to memory address '", address, "' in memory '", mem.id(),
                    "' - type mismatch"));
            }
            let ghost m0 = modules.as_map();
            let ghost dv = data@;
            let mut store = modules.set_value_at(i, MemoryStore::new("", kind));
            let ok = store.write_any(address, data);
            assert(ok);
            let ghost s1 = store;
            modules.set_value_at(i, store);
            proof {
                assert(modules.as_map()[mem@] == s1);
                assert(modules.as_map().dom() =~= m0.dom());
            }
            Ok(())
        },
    }
}

/// The views of an optional map of memory modules.
pub open spec fn modules_view(m: Option<AssocMap<ComponentId, MemoryStore>>) -> Option<Map<IdView, MemoryStore>> {
    match m {
        Some(a) => Some(a.as_map()),
        None => None,
    }
}

/// The write a component makes, by view.
pub open spec fn write_of(mem: IdView, address: Seq<char>, v: ValueView, writer: IdView) -> WriteView {
    (mem, address, v, writer)
}

/// How a write through a memory proxy changes it, given what the write
/// returned: a port that leads nowhere changes nothing; with a channel the
/// write is queued; otherwise it goes to the memory module and, when a delta
/// is kept, is recorded there.
pub open spec fn write_effect(
    before: MemoryProxy,
    after: MemoryProxy,
    port: Seq<char>,
    address: Seq<char>,
    v: ValueView,
    tag: TypeTag,
    res: Result<(), Seq<char>>,
) -> bool {
    match proxy_target(before.conns(), before.comp(), before.subset(), port) {
        Err(e) => res == Err::<(), Seq<char>>(e) && after.modules() == before.modules()
            && after.delta() == before.delta() && after.outbox() == before.outbox(),
        Ok(mem) => if before.outbox() is Some {
            res is Ok && after.outbox() == Some(before.outbox()->0.push(
                write_of(mem, address, v, before.comp()),
            )) && after.modules() == before.modules() && after.delta() == before.delta()
        } else {
            &&& res == write_check(before.modules(), mem, address, tag)
            &&& after.outbox() == before.outbox()
            &&& res is Ok ==> after.modules() is Some && before.modules() is Some && written(
                before.modules()->0,
                after.modules()->0,
                mem,
                address,
                v,
            ) && after.delta() == match before.delta() {
                Some(d) => Some(d.insert((mem, address), write_of(mem, address, v, before.comp()))),
                None => None,
            }
            &&& res is Err ==> after.modules() == before.modules() && after.delta() == before.delta()
        },
    }
}

/// The memory state after applying writes in order, for one memory module:
/// each write to that module sets its address.
pub open spec fn current_after(cur: Map<Seq<char>, ValueView>, writes: Seq<WriteView>, mem: IdView) -> Map<
    Seq<char>,
    ValueView,
>
    decreases writes.len(),
{
    if writes.len() == 0 {
        cur
    } else {
        let prev = current_after(cur, writes.drop_last(), mem);
        let w = writes.last();
        if w.0 == mem {
            prev.insert(w.1, w.2)
        } else {
            prev
        }
    }
}

/// Every write goes to a memory module that exists and holds data of the
/// write's kind.
pub open spec fn writes_fit(mems: Map<IdView, MemoryStore>, writes: Seq<WriteView>) -> bool {
    forall|i: int| 0 <= i < writes.len() ==> mems.contains_key((#[trigger] writes[i]).0)
        && mems[writes[i].0].data_kind() == writes[i].2.tag()
}

/// Applying writes one after the other is applying the first part, then the
/// rest.
pub proof fn lemma_current_after_append(cur: Map<Seq<char>, ValueView>, w1: Seq<WriteView>, w2: Seq<WriteView>, mem: IdView)
    ensures
        current_after(cur, w1 + w2, mem) == current_after(current_after(cur, w1, mem), w2, mem),
    decreases w2.len(),
{
    if w2.len() == 0 {
        assert(w1 + w2 =~= w1);
    } else {
        lemma_current_after_append(cur, w1, w2.drop_last(), mem);
        assert((w1 + w2).drop_last() =~= w1 + w2.drop_last());
        assert((w1 + w2).last() == w2.last());
    }
}

/// Writes to other memory modules leave a module's state alone.
pub proof fn lemma_current_after_untouched(cur: Map<Seq<char>, ValueView>, ws: Seq<WriteView>, mem: IdView)
    requires
        forall|i: int| 0 <= i < ws.len() ==> (#[trigger] ws[i]).0 != mem,
    ensures
        current_after(cur, ws, mem) == cur,
    decreases ws.len(),
{
    if ws.len() > 0 {
        assert(ws.last() == ws[ws.len() - 1]);
        lemma_current_after_untouched(cur, ws.drop_last(), mem);
    }
}

/// `after` holds the memory modules of `before` with the writes applied in
/// order to their current states; snapshots, kinds and identifiers stay.
pub open spec fn memory_step(before: Map<IdView, MemoryStore>, after: Map<IdView, MemoryStore>, ws: Seq<WriteView>) -> bool {
    &&& after.dom() == before.dom()
    &&& forall|k: IdView| #[trigger] before.contains_key(k) ==> after[k].current() == current_after(before[k].current(), ws, k)
        && after[k].snapshot_state() == before[k].snapshot_state() && after[k].data_kind() == before[k].data_kind()
        && after[k].id_view() == before[k].id_view()
}

/// Two memory steps one after the other are one step with both lists of writes.
pub proof fn lemma_memory_step_append(
    a: Map<IdView, MemoryStore>,
    b: Map<IdView, MemoryStore>,
    c: Map<IdView, MemoryStore>,
    w1: Seq<WriteView>,
    w2: Seq<WriteView>,
)
    requires
        memory_step(a, b, w1),
        memory_step(b, c, w2),
    ensures
        memory_step(a, c, w1 + w2),
{
    assert forall|k: IdView| #[trigger] a.contains_key(k) implies c[k].current() == current_after(a[k].current(), w1 + w2, k) by {
        lemma_current_after_append(a[k].current(), w1, w2, k);
    }
}

/// A memory step with no writes changes nothing that is stated.
pub proof fn lemma_memory_step_none(a: Map<IdView, MemoryStore>)
    ensures
        memory_step(a, a, Seq::empty()),
{
}

/// A write a component may make through a proxy: the component is the writer
/// and the memory is the one a memory port of it leads to.
pub open spec fn write_allowed(p: MemoryProxy, w: WriteView) -> bool {
    &&& w.3 == p.comp()
    &&& exists|port: Seq<char>| proxy_target(p.conns(), p.comp(), p.subset(), port) == Ok::<IdView, Seq<char>>(w.0)
}

/// What using a proxy by reads and writes does, given the writes that took
/// effect, in order: each is one the component may make; with a channel they
/// join the queue and the memory modules stay; otherwise each went to a
/// memory module holding data of its kind, and the modules' current states
/// have them applied.  The wiring, component, subset and kind of the proxy
/// stay, and no delta appears.
pub open spec fn proxy_effect(before: MemoryProxy, after: MemoryProxy, ws: Seq<WriteView>) -> bool {
    &&& after.conns() == before.conns()
    &&& after.comp() == before.comp()
    &&& after.subset() == before.subset()
    &&& after.shares_registry() == before.shares_registry()
    &&& before.delta() is None ==> after.delta() is None
    &&& forall|i: int| 0 <= i < ws.len() ==> write_allowed(before, #[trigger] ws[i])
    &&& (after.outbox() is Some <==> before.outbox() is Some)
    &&& if before.outbox() is Some {
        &&& after.outbox()->0 == before.outbox()->0 + ws
        &&& after.modules() == before.modules()
        &&& after.owned() == before.owned()
    } else if before.modules() is None {
        &&& ws.len() == 0
        &&& after.modules() is None
        &&& after.owned() == before.owned()
    } else {
        &&& after.modules() is Some
        &&& writes_fit(before.modules()->0, ws)
        &&& memory_step(before.modules()->0, after.modules()->0, ws)
        &&& before.shares_registry() ==> after.owned() == before.owned()
        &&& !before.shares_registry() ==> after.owned() == after.modules()
    }
}

/// The writes that take effect when a write through a proxy returns `res`.
pub open spec fn write_made(p: MemoryProxy, port: Seq<char>, address: Seq<char>, v: ValueView, res: Result<(), Seq<char>>) -> Seq<
    WriteView,
> {
    match proxy_target(p.conns(), p.comp(), p.subset(), port) {
        Ok(mem) => if res is Ok {
            seq![write_of(mem, address, v, p.comp())]
        } else {
            Seq::empty()
        },
        Err(_) => Seq::empty(),
    }
}

/// A proxy left alone is used with no writes.
pub proof fn lemma_proxy_effect_none(p: MemoryProxy)
    ensures
        proxy_effect(p, p, Seq::empty()),
{
    if p.outbox() is Some {
        assert(p.outbox()->0 + Seq::<WriteView>::empty() =~= p.outbox()->0);
    }
    if p.outbox() is None && p.modules() is Some {
        lemma_memory_step_none(p.modules()->0);
    }
}

/// Uses of a proxy one after another are one use with both lists of writes.
pub proof fn lemma_proxy_effect_append(a: MemoryProxy, b: MemoryProxy, c: MemoryProxy, w1: Seq<WriteView>, w2: Seq<WriteView>)
    requires
        proxy_effect(a, b, w1),
        proxy_effect(b, c, w2),
    ensures
        proxy_effect(a, c, w1 + w2),
{
    let w = w1 + w2;
    assert forall|i: int| 0 <= i < w.len() implies write_allowed(a, #[trigger] w[i]) by {
        if i < w1.len() {
            assert(w[i] == w1[i]);
        } else {
            assert(w[i] == w2[i - w1.len()]);
            assert(write_allowed(b, w2[i - w1.len()]));
        }
    }
    if a.outbox() is Some {
        assert(c.outbox()->0 =~= a.outbox()->0 + w);
    } else if a.modules() is Some {
        lemma_memory_step_append(a.modules()->0, b.modules()->0, c.modules()->0, w1, w2);
        assert forall|i: int| 0 <= i < w.len() implies a.modules()->0.contains_key((#[trigger] w[i]).0)
            && a.modules()->0[w[i].0].data_kind() == w[i].2.tag() by {
            if i < w1.len() {
                assert(w[i] == w1[i]);
            } else {
                assert(w[i] == w2[i - w1.len()]);
                assert(b.modules()->0.contains_key(w2[i - w1.len()].0));
            }
        }
    } else {
        assert(w =~= Seq::<WriteView>::empty());
    }
}

/// Memory proxy: gives a processing component access to the memory components
/// its memory ports are wired to.  Reads see each module's snapshot; writes go
/// to its current state, are recorded in the delta when one is kept, or are
/// queued to be sent on when the writes are synchronized through a channel.
pub struct MemoryProxy {
    /// Memory connections mapping: (component_id, port) -> memory_id
    memory_connections: AssocMap<PortRef, ComponentId>,
    /// Current component ID for context
    component_id: ComponentId,
    /// The registry of memory modules shared with the caller
    memory_modules: Option<AssocMap<ComponentId, MemoryStore>>,
    /// Owned memory modules for parallel execution
    owned_memory_modules: Option<AssocMap<ComponentId, MemoryStore>>,
    /// Subset of memory component IDs for this specific component
    memory_components_subset: Option<Vec<ComponentId>>,
    /// Memory delta tracking for parallel execution
    memory_delta: Option<MemoryDelta>,
    /// Writes waiting to be sent on the synchronization channel
    memory_write_outbox: Option<Vec<MemoryWrite>>,
}

impl MemoryProxy {
    /// The memory connections of all components.
    pub closed spec fn conns(&self) -> Map<PortView, IdView> {
        memory_view(self.memory_connections)
    }

    /// The component the proxy works for.
    pub closed spec fn comp(&self) -> IdView {
        self.component_id@
    }

    /// The memory modules that reads and writes go to: the shared registry if
    /// there is one, else the owned modules.
    pub closed spec fn modules(&self) -> Option<Map<IdView, MemoryStore>> {
        if self.memory_modules is Some {
            modules_view(self.memory_modules)
        } else {
            modules_view(self.owned_memory_modules)
        }
    }

    /// The proxy works on a registry of memory modules shared with its caller.
    pub closed spec fn shares_registry(&self) -> bool {
        self.memory_modules is Some
    }

    /// The owned memory modules, if any.
    pub closed spec fn owned(&self) -> Option<Map<IdView, MemoryStore>> {
        modules_view(self.owned_memory_modules)
    }

    /// The memory components the proxy may use, if limited.
    pub closed spec fn subset(&self) -> Option<Seq<IdView>> {
        subset_view(self.memory_components_subset)
    }

    /// The writes recorded, if delta tracking is on.
    pub closed spec fn delta(&self) -> Option<Map<PortView, WriteView>> {
        match self.memory_delta {
            Some(d) => Some(d.writes_view()),
            None => None,
        }
    }

    /// The writes queued for the channel, if writes are synchronized that way.
    pub closed spec fn outbox(&self) -> Option<Seq<WriteView>> {
        match self.memory_write_outbox {
            Some(v) => Some(v@.map_values(|w: MemoryWrite| w@)),
            None => None,
        }
    }

    /// Create a new memory proxy over the shared registry of memory modules
    pub fn new(
        memory_connections: AssocMap<PortRef, ComponentId>,
        component_id: ComponentId,
        memory_modules: AssocMap<ComponentId, MemoryStore>,
    ) -> (r: Self)
        ensures
            r.conns() == memory_view(memory_connections),
            r.comp() == component_id@,
            r.modules() == Some(memory_modules.as_map()),
            r.shares_registry(),
            r.owned() is None,
            r.subset() is None,
            r.delta() is None,
            r.outbox() is None,
    {
        MemoryProxy {
            memory_connections,
            component_id,
            memory_modules: Some(memory_modules),
            owned_memory_modules: None,
            memory_components_subset: None,
            memory_delta: None,
            memory_write_outbox: None,
        }
    }

    /// Create a memory proxy over the shared registry, limited to a subset of
    /// the memory components
    pub fn new_with_component_subset(
        memory_connections: AssocMap<PortRef, ComponentId>,
        component_id: ComponentId,
        memory_modules: AssocMap<ComponentId, MemoryStore>,
        memory_subset: &[ComponentId],
    ) -> (r: Self)
        ensures
            r.conns() == memory_view(memory_connections),
            r.comp() == component_id@,
            r.modules() == Some(memory_modules.as_map()),
            r.shares_registry(),
            r.owned() is None,
            r.subset() == Some(id_views(memory_subset@)),
            r.delta() is None,
            r.outbox() is None,
    {
        MemoryProxy {
            memory_connections,
            component_id,
            memory_modules: Some(memory_modules),
            owned_memory_modules: None,
            memory_components_subset: Some(copy_ids(memory_subset)),
            memory_delta: None,
            memory_write_outbox: None,
        }
    }

    /// Create a memory proxy that owns the memory modules it uses
    pub fn new_with_owned_components(
        memory_connections: AssocMap<PortRef, ComponentId>,
        component_id: ComponentId,
        owned_memory_modules: AssocMap<ComponentId, MemoryStore>,
        memory_subset: &[ComponentId],
    ) -> (r: Self)
        ensures
            r.conns() == memory_view(memory_connections),
            r.comp() == component_id@,
            r.modules() == Some(owned_memory_modules.as_map()),
            !r.shares_registry(),
            r.owned() == Some(owned_memory_modules.as_map()),
            r.subset() == Some(id_views(memory_subset@)),
            r.delta() is None,
            r.outbox() is None,
    {
        MemoryProxy {
            memory_connections,
            component_id,
            memory_modules: None,
            owned_memory_modules: Some(owned_memory_modules),
            memory_components_subset: Some(copy_ids(memory_subset)),
            memory_delta: None,
            memory_write_outbox: None,
        }
    }

    /// Create a memory proxy that owns its memory modules and records every
    /// write it makes
    pub fn new_with_delta_tracking(
        memory_connections: AssocMap<PortRef, ComponentId>,
        component_id: ComponentId,
        owned_memory_modules: AssocMap<ComponentId, MemoryStore>,
        memory_subset: &[ComponentId],
    ) -> (r: Self)
        ensures
            r.conns() == memory_view(memory_connections),
            r.comp() == component_id@,
            r.modules() == Some(owned_memory_modules.as_map()),
            !r.shares_registry(),
            r.owned() == Some(owned_memory_modules.as_map()),
            r.subset() == Some(id_views(memory_subset@)),
            r.delta() == Some(Map::<PortView, WriteView>::empty()),
            r.outbox() is None,
    {
        MemoryProxy {
            memory_connections,
            component_id,
            memory_modules: None,
            owned_memory_modules: Some(owned_memory_modules),
            memory_components_subset: Some(copy_ids(memory_subset)),
            memory_delta: Some(MemoryDelta::new()),
            memory_write_outbox: None,
        }
    }

    /// Create a memory proxy whose writes are queued to be sent on a channel
    /// instead of being written; `take_sent_writes` hands them over
    pub fn new_with_channel_synchronization(
        memory_connections: AssocMap<PortRef, ComponentId>,
        component_id: ComponentId,
        owned_memory_modules: AssocMap<ComponentId, MemoryStore>,
        memory_subset: &[ComponentId],
    ) -> (r: Self)
        ensures
            r.conns() == memory_view(memory_connections),
            r.comp() == component_id@,
            r.modules() == Some(owned_memory_modules.as_map()),
            !r.shares_registry(),
            r.owned() == Some(owned_memory_modules.as_map()),
            r.subset() == Some(id_views(memory_subset@)),
            r.delta() is None,
            r.outbox() == Some(Seq::<WriteView>::empty()),
    {
        let r = MemoryProxy {
            memory_connections,
            component_id,
            memory_modules: None,
            owned_memory_modules: Some(owned_memory_modules),
            memory_components_subset: Some(copy_ids(memory_subset)),
            memory_delta: None,
            memory_write_outbox: Some(Vec::new()),
        };
        assert(r.outbox()->0 =~= Seq::<WriteView>::empty());
        r
    }

    /// Read typed data from memory (reads from snapshot - previous cycle data)
    pub fn read<T: MemoryData>(&self, port: &str, address: &str) -> (r: Result<Option<T>, String>)
        ensures
            read_view(r) == match proxy_target(self.conns(), self.comp(), self.subset(), port@) {
                Err(e) => Err(e),
                Ok(mem) => read_outcome(self.modules(), mem, address@, T::data_tag()),
            },
    {
        let subset = match &self.memory_components_subset {
            Some(v) => Some(v),
            None => None,
        };
        let mem_id = match lookup_target(&self.memory_connections, &self.component_id, subset, port) {
            Ok(m) => m,
            Err(e) => return Err(e),
        };
        match &self.memory_modules {
            Some(modules) => read_store(modules, mem_id, address),
            None => match &self.owned_memory_modules {
                Some(modules) => read_store(modules, mem_id, address),
                None => Err(owned("No memory modules available in proxy")),
            },
        }
    }

    /// Write typed data to memory (writes to current state - affects next
    /// cycle), or queue it when writes are synchronized through a channel
    pub fn write<T: MemoryData>(&mut self, port: &str, address: &str, data: T) -> (r: Result<(), String>)
        ensures
            final(self).conns() == old(self).conns(),
            final(self).comp() == old(self).comp(),
            final(self).subset() == old(self).subset(),
            final(self).shares_registry() == old(self).shares_registry(),
            old(self).shares_registry() ==> final(self).owned() == old(self).owned(),
            !old(self).shares_registry() ==> final(self).owned() == final(self).modules(),
            write_effect(*old(self), *final(self), port@, address@, data.data_view(), T::data_tag(), outcome(r)),
            proxy_effect(*old(self), *final(self), write_made(*old(self), port@, address@, data.data_view(), outcome(r))),
    {
        let subset = match &self.memory_components_subset {
            Some(v) => Some(v),
            None => None,
        };
        let mem_id = match lookup_target(&self.memory_connections, &self.component_id, subset, port) {
            Ok(m) => m.duplicate(),
            Err(e) => {
                return Err(e);
            },
        };
        let ghost dv = data.data_view();
        proof {
            data.lemma_view_tag();
        }
        if self.memory_write_outbox.is_some() {
            let mut outbox = self.memory_write_outbox.take().unwrap();
            let ghost before = outbox@;
            outbox.push(MemoryWrite {
                memory_id: mem_id,
                address: owned(address),
                data: TypedValue::new(data),
                writer_id: self.component_id.duplicate(),
            });
            assert(outbox@.map_values(|w: MemoryWrite| w@) =~= before.map_values(|w: MemoryWrite| w@).push(
                write_of(old(self).conns()[(old(self).comp(), port@)], address@, dv, old(self).comp()),
            ));
            self.memory_write_outbox = Some(outbox);
            proof {
                let ws = write_made(*old(self), port@, address@, dv, Ok::<(), Seq<char>>(()));
                assert(self.outbox()->0 =~= old(self).outbox()->0 + ws);
                assert(write_allowed(*old(self), ws[0])) by {
                    assert(proxy_target(old(self).conns(), old(self).comp(), old(self).subset(), port@) == Ok::<IdView, Seq<char>>(
                        ws[0].0));
                }
            }
            return Ok(());
        }
        let value = TypedValue::new(data.duplicate());
        let result = if self.memory_modules.is_some() {
            let mut modules = self.memory_modules.take().unwrap();
            let r = write_store(&mut modules, &mem_id, address, value);
            self.memory_modules = Some(modules);
            r
        } else if self.owned_memory_modules.is_some() {
            let mut modules = self.owned_memory_modules.take().unwrap();
            let r = write_store(&mut modules, &mem_id, address, value);
            self.owned_memory_modules = Some(modules);
            r
        } else {
            Err(owned("No memory modules available in proxy"))
        };
        if result.is_ok() && self.memory_delta.is_some() {
            let mut delta = self.memory_delta.take().unwrap();
            delta.record_write(mem_id.duplicate(), owned(address), data, self.component_id.duplicate());
            self.memory_delta = Some(delta);
        }
        proof {
            let ws = write_made(*old(self), port@, address@, dv, outcome(result));
            if result is Ok {
                assert(write_allowed(*old(self), ws[0])) by {
                    assert(proxy_target(old(self).conns(), old(self).comp(), old(self).subset(), port@) == Ok::<IdView, Seq<char>>(
                        ws[0].0));
                }
                assert(ws.len() == 1);
                assert(ws.drop_last() =~= Seq::<WriteView>::empty());
                assert(ws.last() == write_of(mem_id@, address@, dv, old(self).comp()));
                assert(current_after(old(self).modules()->0[mem_id@].current(), ws.drop_last(), mem_id@)
                    == old(self).modules()->0[mem_id@].current());
                assert(current_after(old(self).modules()->0[mem_id@].current(), ws, mem_id@) =~= old(self).modules()->0[mem_id@].current().insert(address@, dv));
                assert forall|k: IdView| #[trigger] old(self).modules()->0.contains_key(k) && k != mem_id@ implies current_after(
                    old(self).modules()->0[k].current(), ws, k) == old(self).modules()->0[k].current() by {
                    lemma_current_after_untouched(old(self).modules()->0[k].current(), ws, k);
                }
            } else {
                lemma_memory_step_none(old(self).modules()->0);
            }
        }
        result
    }

    /// Check if a memory port of the component is connected
    pub fn is_connected(&self, port: &str) -> (b: bool)
        ensures
            b == self.conns().contains_key((self.comp(), port@)),
    {
        self.memory_connections.contains_key(&(self.component_id.duplicate(), owned(port)))
    }

    /// Get the memory component a memory port of the component is wired to
    pub fn get_memory_id(&self, port: &str) -> (r: Option<&ComponentId>)
        ensures
            match r {
                Some(m) => self.conns().contains_key((self.comp(), port@)) && m@ == self.conns()[(self.comp(), port@)],
                None => !self.conns().contains_key((self.comp(), port@)),
            },
    {
        self.memory_connections.get(&(self.component_id.duplicate(), owned(port)))
    }

    /// Add a memory module to the proxy registry (the shared one if there is
    /// one, else the owned one)
    pub fn register_memory_module(&mut self, memory_id: ComponentId, module: MemoryStore)
        ensures
            final(self).modules() == match old(self).modules() {
                Some(m) => Some(m.insert(memory_id@, module)),
                None => None,
            },
            old(self).shares_registry() ==> final(self).owned() == old(self).owned(),
            !old(self).shares_registry() ==> final(self).owned() == final(self).modules(),
            final(self).shares_registry() == old(self).shares_registry(),
            final(self).conns() == old(self).conns(),
            final(self).comp() == old(self).comp(),
            final(self).subset() == old(self).subset(),
            final(self).delta() == old(self).delta(),
            final(self).outbox() == old(self).outbox(),
    {
        if self.memory_modules.is_some() {
            let mut modules = self.memory_modules.take().unwrap();
            modules.insert(memory_id, module);
            self.memory_modules = Some(modules);
        } else if self.owned_memory_modules.is_some() {
            let mut modules = self.owned_memory_modules.take().unwrap();
            modules.insert(memory_id, module);
            self.owned_memory_modules = Some(modules);
        }
    }

    /// Check if a memory module is registered
    pub fn has_memory_module(&self, memory_id: &ComponentId) -> (b: bool)
        ensures
            b == match self.modules() {
                Some(m) => m.contains_key(memory_id@),
                None => false,
            },
    {
        match &self.memory_modules {
            Some(modules) => modules.contains_key(memory_id),
            None => match &self.owned_memory_modules {
                Some(modules) => modules.contains_key(memory_id),
                None => false,
            },
        }
    }

    /// Extract the owned memory modules, leaving none
    pub fn take_updated_memory_components(&mut self) -> (r: AssocMap<ComponentId, MemoryStore>)
        ensures
            r.as_map() == match old(self).owned() {
                Some(m) => m,
                None => Map::<IdView, MemoryStore>::empty(),
            },
            final(self).owned() is None,
            final(self).shares_registry() == old(self).shares_registry(),
            old(self).shares_registry() ==> final(self).modules() == old(self).modules(),
            final(self).conns() == old(self).conns(),
            final(self).comp() == old(self).comp(),
            final(self).subset() == old(self).subset(),
            final(self).delta() == old(self).delta(),
            final(self).outbox() == old(self).outbox(),
    {
        match self.owned_memory_modules.take() {
            Some(m) => m,
            None => AssocMap::new(),
        }
    }

    /// Extract the memory delta, leaving none
    pub fn take_memory_delta(&mut self) -> (r: Option<MemoryDelta>)
        ensures
            match r {
                Some(d) => old(self).delta() == Some(d.writes_view()),
                None => old(self).delta() is None,
            },
            final(self).delta() is None,
            final(self).modules() == old(self).modules(),
            final(self).conns() == old(self).conns(),
            final(self).outbox() == old(self).outbox(),
    {
        self.memory_delta.take()
    }

    /// Extract the writes queued for the channel, leaving the queue empty
    pub fn take_sent_writes(&mut self) -> (r: Vec<MemoryWrite>)
        ensures
            r@.map_values(|w: MemoryWrite| w@) == match old(self).outbox() {
                Some(q) => q,
                None => Seq::<WriteView>::empty(),
            },
            final(self).outbox() == match old(self).outbox() {
                Some(_) => Some(Seq::<WriteView>::empty()),
                None => None,
            },
            final(self).modules() == old(self).modules(),
            final(self).delta() == old(self).delta(),
    {
        match self.memory_write_outbox.take() {
            Some(q) => {
                self.memory_write_outbox = Some(Vec::new());
                assert(self.outbox()->0 =~= Seq::<WriteView>::empty());
                q
            },
            None => {
                let r: Vec<MemoryWrite> = Vec::new();
                assert(r@.map_values(|w: MemoryWrite| w@) =~= Seq::<WriteView>::empty());
                r
            },
        }
    }

    /// Extract the owned memory modules by consuming the proxy
    pub fn into_updated_memory_components(self) -> (r: AssocMap<ComponentId, MemoryStore>)
        ensures
            r.as_map() == match self.owned() {
                Some(m) => m,
                None => Map::<IdView, MemoryStore>::empty(),
            },
    {
        match self.owned_memory_modules {
            Some(m) => m,
            None => AssocMap::new(),
        }
    }

    /// Give back the shared registry of memory modules by consuming the proxy
    pub fn into_memory_modules(self) -> (r: Option<AssocMap<ComponentId, MemoryStore>>)
        ensures
            self.shares_registry() ==> modules_view(r) == self.modules(),
            !self.shares_registry() ==> r is None,
    {
        self.memory_modules
    }

    /// Get a reference to the owned memory modules
    pub fn get_owned_memory_modules(&self) -> (r: Option<&AssocMap<ComponentId, MemoryStore>>)
        ensures
            match r {
                Some(m) => self.owned() == Some(m.as_map()),
                None => self.owned() is None,
            },
    {
        match &self.owned_memory_modules {
            Some(m) => Some(m),
            None => None,
        }
    }
}

/// Memory proxy for parallel execution that owns its memory modules and may
/// use only a given subset of memory components.
pub struct OwnedMemoryProxy {
    /// Memory connections mapping: (component_id, port) -> memory_id
    memory_connections: AssocMap<PortRef, ComponentId>,
    /// Current component ID for context
    component_id: ComponentId,
    /// Owned memory modules
    owned_memory_modules: AssocMap<ComponentId, MemoryStore>,
    /// Subset of memory component IDs for this specific component
    memory_components_subset: Vec<ComponentId>,
    /// Memory delta tracking
    memory_delta: Option<MemoryDelta>,
}

impl OwnedMemoryProxy {
    pub closed spec fn conns(&self) -> Map<PortView, IdView> {
        memory_view(self.memory_connections)
    }

    pub closed spec fn comp(&self) -> IdView {
        self.component_id@
    }

    pub closed spec fn modules(&self) -> Map<IdView, MemoryStore> {
        self.owned_memory_modules.as_map()
    }

    pub closed spec fn subset(&self) -> Seq<IdView> {
        id_views(self.memory_components_subset@)
    }

    pub closed spec fn delta(&self) -> Option<Map<PortView, WriteView>> {
        match self.memory_delta {
            Some(d) => Some(d.writes_view()),
            None => None,
        }
    }

    /// Create a new owned memory proxy
    pub fn new(
        memory_connections: AssocMap<PortRef, ComponentId>,
        component_id: ComponentId,
        owned_memory_modules: AssocMap<ComponentId, MemoryStore>,
        memory_subset: Vec<ComponentId>,
    ) -> (r: Self)
        ensures
            r.conns() == memory_view(memory_connections),
            r.comp() == component_id@,
            r.modules() == owned_memory_modules.as_map(),
            r.subset() == id_views(memory_subset@),
            r.delta() is None,
    {
        OwnedMemoryProxy {
            memory_connections,
            component_id,
            owned_memory_modules,
            memory_components_subset: memory_subset,
            memory_delta: None,
        }
    }

    /// Create a new owned memory proxy that records every write it makes
    pub fn new_with_delta_tracking(
        memory_connections: AssocMap<PortRef, ComponentId>,
        component_id: ComponentId,
        owned_memory_modules: AssocMap<ComponentId, MemoryStore>,
        memory_subset: Vec<ComponentId>,
    ) -> (r: Self)
        ensures
            r.conns() == memory_view(memory_connections),
            r.comp() == component_id@,
            r.modules() == owned_memory_modules.as_map(),
            r.subset() == id_views(memory_subset@),
            r.delta() == Some(Map::<PortView, WriteView>::empty()),
    {
        OwnedMemoryProxy {
            memory_connections,
            component_id,
            owned_memory_modules,
            memory_components_subset: memory_subset,
            memory_delta: Some(MemoryDelta::new()),
        }
    }

    /// Read typed data from memory (reads from snapshot - previous cycle data)
    pub fn read<T: MemoryData>(&self, port: &str, address: &str) -> (r: Result<Option<T>, String>)
        ensures
            read_view(r) == match proxy_target(self.conns(), self.comp(), Some(self.subset()), port@) {
                Err(e) => Err(e),
                Ok(mem) => read_outcome(Some(self.modules()), mem, address@, T::data_tag()),
            },
    {
        let mem_id = match lookup_target(&self.memory_connections, &self.component_id,
            Some(&self.memory_components_subset), port) {
            Ok(m) => m,
            Err(e) => return Err(e),
        };
        read_store(&self.owned_memory_modules, mem_id, address)
    }

    /// Write typed data to memory (writes to current state - affects next cycle)
    pub fn write<T: MemoryData>(&mut self, port: &str, address: &str, data: T) -> (r: Result<(), String>)
        ensures
            final(self).conns() == old(self).conns(),
            final(self).comp() == old(self).comp(),
            final(self).subset() == old(self).subset(),
            match proxy_target(old(self).conns(), old(self).comp(), Some(old(self).subset()), port@) {
                Err(e) => outcome(r) == Err::<(), Seq<char>>(e) && final(self).modules() == old(self).modules()
                    && final(self).delta() == old(self).delta(),
                Ok(mem) => {
                    &&& outcome(r) == write_check(Some(old(self).modules()), mem, address@, T::data_tag())
                    &&& r is Ok ==> written(old(self).modules(), final(self).modules(), mem, address@, data.data_view())
                        && final(self).delta() == match old(self).delta() {
                        Some(d) => Some(d.insert((mem, address@), write_of(mem, address@, data.data_view(), old(self).comp()))),
                        None => None,
                    }
                    &&& r is Err ==> final(self).modules() == old(self).modules() && final(self).delta() == old(self).delta()
                },
            },
    {
        let mem_id = match lookup_target(&self.memory_connections, &self.component_id,
            Some(&self.memory_components_subset), port) {
            Ok(m) => m.duplicate(),
            Err(e) => return Err(e),
        };
        let value = TypedValue::new(data.duplicate());
        let result = write_store(&mut self.owned_memory_modules, &mem_id, address, value);
        if result.is_ok() && self.memory_delta.is_some() {
            let mut delta = self.memory_delta.take().unwrap();
            delta.record_write(mem_id.duplicate(), owned(address), data, self.component_id.duplicate());
            self.memory_delta = Some(delta);
        }
        result
    }

    /// Check if a memory port of the component is connected
    pub fn is_connected(&self, port: &str) -> (b: bool)
        ensures
            b == self.conns().contains_key((self.comp(), port@)),
    {
        self.memory_connections.contains_key(&(self.component_id.duplicate(), owned(port)))
    }

    /// Get the memory component a memory port of the component is wired to
    pub fn get_memory_id(&self, port: &str) -> (r: Option<&ComponentId>)
        ensures
            match r {
                Some(m) => self.conns().contains_key((self.comp(), port@)) && m@ == self.conns()[(self.comp(), port@)],
                None => !self.conns().contains_key((self.comp(), port@)),
            },
    {
        self.memory_connections.get(&(self.component_id.duplicate(), owned(port)))
    }

    /// Extract updated memory components by consuming the proxy
    pub fn take_updated_memory_components(self) -> (r: AssocMap<ComponentId, MemoryStore>)
        ensures
            r.as_map() == self.modules(),
    {
        self.owned_memory_modules
    }

    /// Extract the memory delta, leaving none
    pub fn take_memory_delta(&mut self) -> (r: Option<MemoryDelta>)
        ensures
            match r {
                Some(d) => old(self).delta() == Some(d.writes_view()),
                None => old(self).delta() is None,
            },
            final(self).delta() is None,
            final(self).modules() == old(self).modules(),
            final(self).conns() == old(self).conns(),
            final(self).comp() == old(self).comp(),
            final(self).subset() == old(self).subset(),
    {
        self.memory_delta.take()
    }

    /// Extract both the memory delta and the updated components
    pub fn take_delta_and_components(self) -> (r: (Option<MemoryDelta>, AssocMap<ComponentId, MemoryStore>))
        ensures
            match r.0 {
                Some(d) => self.delta() == Some(d.writes_view()),
                None => self.delta() is None,
            },
            r.1.as_map() == self.modules(),
    {
        (self.memory_delta, self.owned_memory_modules)
    }
}

/// Type-safe memory access for component evaluation
pub trait TypeSafeMemoryProxy {
    /// Read typed data from memory
    fn read<T: MemoryData>(&self, port: &str, address: &str) -> Result<Option<T>, String>;

    /// Write typed data to memory
    fn write<T: MemoryData>(&mut self, port: &str, address: &str, data: T) -> Result<(), String>;
}

impl TypeSafeMemoryProxy for MemoryProxy {
    fn read<T: MemoryData>(&self, port: &str, address: &str) -> (r: Result<Option<T>, String>)
        ensures
            read_view(r) == match proxy_target(self.conns(), self.comp(), self.subset(), port@) {
                Err(e) => Err(e),
                Ok(mem) => read_outcome(self.modules(), mem, address@, T::data_tag()),
            },
    {
        MemoryProxy::read(self, port, address)
    }

    fn write<T: MemoryData>(&mut self, port: &str, address: &str, data: T) -> (r: Result<(), String>)
        ensures
            final(self).conns() == old(self).conns(),
            final(self).comp() == old(self).comp(),
            final(self).subset() == old(self).subset(),
            final(self).shares_registry() == old(self).shares_registry(),
            old(self).shares_registry() ==> final(self).owned() == old(self).owned(),
            !old(self).shares_registry() ==> final(self).owned() == final(self).modules(),
            write_effect(*old(self), *final(self), port@, address@, data.data_view(), T::data_tag(), outcome(r)),
    {
        MemoryProxy::write(self, port, address, data)
    }
}

impl TypeSafeMemoryProxy for OwnedMemoryProxy {
    fn read<T: MemoryData>(&self, port: &str, address: &str) -> (r: Result<Option<T>, String>)
        ensures
            read_view(r) == match proxy_target(self.conns(), self.comp(), Some(self.subset()), port@) {
                Err(e) => Err(e),
                Ok(mem) => read_outcome(Some(self.modules()), mem, address@, T::data_tag()),
            },
    {
        OwnedMemoryProxy::read(self, port, address)
    }

    fn write<T: MemoryData>(&mut self, port: &str, address: &str, data: T) -> (r: Result<(), String>)
        ensures
            final(self).conns() == old(self).conns(),
            final(self).comp() == old(self).comp(),
            final(self).subset() == old(self).subset(),
            match proxy_target(old(self).conns(), old(self).comp(), Some(old(self).subset()), port@) {
                Err(e) => outcome(r) == Err::<(), Seq<char>>(e) && final(self).modules() == old(self).modules()
                    && final(self).delta() == old(self).delta(),
                Ok(mem) => {
                    &&& outcome(r) == write_check(Some(old(self).modules()), mem, address@, T::data_tag())
                    &&& r is Ok ==> written(old(self).modules(), final(self).modules(), mem, address@, data.data_view())
                        && final(self).delta() == match old(self).delta() {
                        Some(d) => Some(d.insert((mem, address@), write_of(mem, address@, data.data_view(), old(self).comp()))),
                        None => None,
                    }
                    &&& r is Err ==> final(self).modules() == old(self).modules() && final(self).delta() == old(self).delta()
                },
            },
    {
        OwnedMemoryProxy::write(self, port, address, data)
    }
}

} // verus!
