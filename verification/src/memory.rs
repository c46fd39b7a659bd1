use vstd::prelude::*;
use crate::assoc::{AssocMap, KeyLike, lemma_push_to_set};
use crate::strings::owned;
use crate::values::{TypedData, TypedValue, TypeTag, ValueView};

verus! {

/// Marker for data types that can be stored in memory components.
pub trait MemoryData: TypedData {}

impl MemoryData for i64 {}

impl MemoryData for String {}

impl MemoryData for bool {}

/// The value views of a map of typed values.
pub open spec fn value_views(m: Map<Seq<char>, TypedValue>) -> Map<Seq<char>, ValueView> {
    m.map_values(|v: TypedValue| v@)
}

/// A copy of a map of typed values.
pub fn copy_values(m: &AssocMap<String, TypedValue>) -> (r: AssocMap<String, TypedValue>)
    ensures
        value_views(r.as_map()) == value_views(m.as_map()),
        r.key_seq() == m.key_seq(),
{
    let mut r: AssocMap<String, TypedValue> = AssocMap::new();
    let mut i: usize = 0;
    let n = m.len();
    while i < n
        invariant
            n == m.entries().len(),
            i <= n,
            m.wf(),
            r.key_seq() == m.key_seq().take(i as int),
            r.as_map().dom() == m.key_seq().take(i as int).to_set(),
            forall|k: Seq<char>| #[trigger] r.as_map().contains_key(k) ==> r.as_map()[k]@ == m.as_map()[k]@,
        decreases n - i,
    {
        let key = m.key_at(i).copy_key();
        let v = m.value_at(i).duplicate();
        proof {
            m.lemma_view_at(i as int);
            if r.as_map().contains_key(key@) {
                let j = m.key_seq().take(i as int).index_of(key@);
                assert(m.key_seq()[j] == m.key_seq()[i as int]);
            }
        }
        r.insert(key, v);
        proof {
            lemma_push_to_set(m.key_seq().take(i as int), m.key_seq()[i as int]);
            assert(m.key_seq().take(i as int + 1) =~= m.key_seq().take(i as int).push(m.key_seq()[i as int]));
        }
        i = i + 1;
    }
    proof {
        assert(m.key_seq().take(n as int) =~= m.key_seq());
        assert(value_views(r.as_map()) =~= value_views(m.as_map()));
    }
    r
}

/// Memory statistics for monitoring and debugging
#[derive(Debug, Clone)]
pub struct MemoryStats {
    /// Total number of memory addresses
    pub total_addresses: usize,
    /// Number of active (non-empty) addresses
    pub active_addresses: usize,
    /// Memory usage in bytes (estimated)
    pub memory_usage_bytes: usize,
    /// Number of read operations in current cycle
    pub read_count: usize,
    /// Number of write operations in current cycle
    pub write_count: usize,
}

impl MemoryStats {
    /// Create new empty memory stats
    pub fn new() -> (r: Self)
        ensures
            r.total_addresses == 0,
            r.active_addresses == 0,
            r.memory_usage_bytes == 0,
            r.read_count == 0,
            r.write_count == 0,
    {
        MemoryStats { total_addresses: 0, active_addresses: 0, memory_usage_bytes: 0, read_count: 0, write_count: 0 }
    }

    /// Reset cycle-specific counters
    pub fn reset_cycle_counters(&mut self)
        ensures
            final(self).read_count == 0,
            final(self).write_count == 0,
            final(self).total_addresses == old(self).total_addresses,
            final(self).active_addresses == old(self).active_addresses,
            final(self).memory_usage_bytes == old(self).memory_usage_bytes,
    {
        self.read_count = 0;
        self.write_count = 0;
    }

    /// Update memory usage statistics
    pub fn update_usage(&mut self, total: usize, active: usize, bytes: usize)
        ensures
            final(self).total_addresses == total,
            final(self).active_addresses == active,
            final(self).memory_usage_bytes == bytes,
            final(self).read_count == old(self).read_count,
            final(self).write_count == old(self).write_count,
    {
        self.total_addresses = total;
        self.active_addresses = active;
        self.memory_usage_bytes = bytes;
    }

    /// Increment read counter
    pub fn increment_reads(&mut self)
        requires
            old(self).read_count < usize::MAX,
        ensures
            final(self).read_count == old(self).read_count + 1,
            final(self).write_count == old(self).write_count,
            final(self).total_addresses == old(self).total_addresses,
            final(self).active_addresses == old(self).active_addresses,
            final(self).memory_usage_bytes == old(self).memory_usage_bytes,
    {
        self.read_count = self.read_count + 1;
    }

    /// Increment write counter
    pub fn increment_writes(&mut self)
        requires
            old(self).write_count < usize::MAX,
        ensures
            final(self).write_count == old(self).write_count + 1,
            final(self).read_count == old(self).read_count,
            final(self).total_addresses == old(self).total_addresses,
            final(self).active_addresses == old(self).active_addresses,
            final(self).memory_usage_bytes == old(self).memory_usage_bytes,
    {
        self.write_count = self.write_count + 1;
    }
}

impl Default for MemoryStats {
    fn default() -> (r: Self)
        ensures
            r.total_addresses == 0,
            r.active_addresses == 0,
            r.memory_usage_bytes == 0,
            r.read_count == 0,
            r.write_count == 0,
    {
        Self::new()
    }
}

/// Memory modules: addressed storage whose reads see the state as it was at the
/// last snapshot, while writes go to the state the next snapshot takes.
pub trait MemoryModuleTrait {
    /// Get the memory ID for this module
    fn memory_id(&self) -> &str;

    /// Read data from memory (type-erased)
    fn read_any(&self, address: &str) -> Option<TypedValue>;

    /// Write data to memory (type-erased); false when the data is of another kind
    fn write_any(&mut self, address: &str, data: TypedValue) -> bool;

    /// Create a snapshot for next cycle
    fn create_snapshot(&mut self);

    /// Get a clone of this memory module
    fn clone_module(&self) -> MemoryStore;
}

/// Two memory stores hold the same memory: the same identifier, data kind,
/// current state and snapshot.
pub open spec fn same_memory(a: MemoryStore, b: MemoryStore) -> bool {
    &&& a.id_view() == b.id_view()
    &&& a.data_kind() == b.data_kind()
    &&& a.current() == b.current()
    &&& a.snapshot_state() == b.snapshot_state()
}

/// What reading `address` of a store gives, by view: the value its snapshot
/// holds there, if any.
pub open spec fn read_view(m: MemoryStore, address: Seq<char>) -> Option<ValueView> {
    if m.snapshot_state().contains_key(address) {
        Some(m.snapshot_state()[address])
    } else {
        None
    }
}

/// Whether a store takes a write of the value `v`: exactly when `v` is of the
/// store's data kind.
pub open spec fn accepts(m: MemoryStore, v: ValueView) -> bool {
    v.tag() == m.data_kind()
}

/// A memory module with the kind of its data recorded: the form in which
/// memory modules of every data type are held together.
pub struct MemoryStore {
    memory_id: String,
    kind: TypeTag,
    current_state: AssocMap<String, TypedValue>,
    snapshot: AssocMap<String, TypedValue>,
}

impl MemoryStore {
    pub closed spec fn id_view(&self) -> Seq<char> {
        self.memory_id@
    }

    /// The kind of data the module holds.
    pub closed spec fn data_kind(&self) -> TypeTag {
        self.kind
    }

    /// The state being written during the current cycle.
    pub closed spec fn current(&self) -> Map<Seq<char>, ValueView> {
        value_views(self.current_state.as_map())
    }

    /// The state taken at the last snapshot, which reads see.
    pub closed spec fn snapshot_state(&self) -> Map<Seq<char>, ValueView> {
        value_views(self.snapshot.as_map())
    }

    /// An empty memory module for data of the given kind.
    pub fn new(memory_id: &str, kind: TypeTag) -> (r: Self)
        ensures
            r.id_view() == memory_id@,
            r.data_kind() == kind,
            r.current() == Map::<Seq<char>, ValueView>::empty(),
            r.snapshot_state() == Map::<Seq<char>, ValueView>::empty(),
    {
        let r = MemoryStore { memory_id: owned(memory_id), kind, current_state: AssocMap::new(), snapshot: AssocMap::new() };
        assert(r.current() =~= Map::<Seq<char>, ValueView>::empty());
        assert(r.snapshot_state() =~= Map::<Seq<char>, ValueView>::empty());
        r
    }

    /// The kind of data the module holds.
    pub fn kind(&self) -> (t: TypeTag)
        ensures
            t == self.data_kind(),
    {
        self.kind
    }

    /// Validate that this memory module has a memory id.
    pub fn validate_architecture(&self) -> (r: Result<(), String>)
        ensures
            r is Ok <==> self.id_view().len() > 0,
            match r {
                Ok(_) => true,
                Err(e) => e@ == "Memory module must have a valid memory_id"@,
            },
    {
        if self.memory_id.as_str().unicode_len() == 0 {
            return Err(owned("Memory module must have a valid memory_id"));
        }
        Ok(())
    }
}

impl MemoryModuleTrait for MemoryStore {
    fn memory_id(&self) -> (r: &str)
        ensures
            r@ == self.id_view(),
    {
        self.memory_id.as_str()
    }

    fn read_any(&self, address: &str) -> (r: Option<TypedValue>)
        ensures
            match r {
                Some(v) => self.snapshot_state().contains_key(address@) && v@ == self.snapshot_state()[address@],
                None => !self.snapshot_state().contains_key(address@),
            },
    {
        match self.snapshot.get(&owned(address)) {
            Some(v) => Some(v.duplicate()),
            None => None,
        }
    }

    fn write_any(&mut self, address: &str, data: TypedValue) -> (b: bool)
        ensures
            b == (data@.tag() == old(self).data_kind()),
            b ==> final(self).current() == old(self).current().insert(address@, data@),
            !b ==> final(self).current() == old(self).current(),
            final(self).snapshot_state() == old(self).snapshot_state(),
            final(self).data_kind() == old(self).data_kind(),
            final(self).id_view() == old(self).id_view(),
    {
        if data.type_id() != self.kind {
            return false;
        }
        let ghost dv = data@;
        self.current_state.insert(owned(address), data);
        assert(self.current() =~= old(self).current().insert(address@, dv));
        true
    }

    fn create_snapshot(&mut self)
        ensures
            final(self).snapshot_state() == old(self).current(),
            final(self).current() == old(self).current(),
            final(self).data_kind() == old(self).data_kind(),
            final(self).id_view() == old(self).id_view(),
    {
        self.snapshot = copy_values(&self.current_state);
    }

    fn clone_module(&self) -> (r: MemoryStore)
        ensures
            r.id_view() == self.id_view(),
            r.data_kind() == self.data_kind(),
            r.current() == self.current(),
            r.snapshot_state() == self.snapshot_state(),
    {
        MemoryStore {
            memory_id: self.memory_id.clone(),
            kind: self.kind,
            current_state: copy_values(&self.current_state),
            snapshot: copy_values(&self.snapshot),
        }
    }
}

/// What a read gives back of a write: once a snapshot is taken, a read at an
/// address sees the last value written there before the snapshot; writes after
/// the snapshot are not seen until the next one.
pub proof fn lemma_read_after_snapshot(before: MemoryStore, written: MemoryStore, snapped: MemoryStore, address: Seq<char>, v: ValueView)
    requires
        written.current() == before.current().insert(address, v),
        snapped.snapshot_state() == written.current(),
    ensures
        snapped.snapshot_state().contains_key(address),
        snapped.snapshot_state()[address] == v,
{
}

/// Concrete memory module for data of one type.
pub struct MemoryModule<T: MemoryData> {
    store: MemoryStore,
    data: core::marker::PhantomData<T>,
}

impl<T: MemoryData> MemoryModule<T> {
    pub closed spec fn id_view(&self) -> Seq<char> {
        self.store.id_view()
    }

    /// The state being written during the current cycle.
    pub closed spec fn current(&self) -> Map<Seq<char>, ValueView> {
        self.store.current()
    }

    /// The state taken at the last snapshot, which reads see.
    pub closed spec fn snapshot_state(&self) -> Map<Seq<char>, ValueView> {
        self.store.snapshot_state()
    }

    pub closed spec fn wf(&self) -> bool {
        self.store.data_kind() == T::data_tag()
    }

    /// Create a new memory module
    pub fn new(memory_id: &str) -> (r: Self)
        ensures
            r.wf(),
            r.id_view() == memory_id@,
            r.current() == Map::<Seq<char>, ValueView>::empty(),
            r.snapshot_state() == Map::<Seq<char>, ValueView>::empty(),
    {
        MemoryModule { store: MemoryStore::new(memory_id, T::tag()), data: core::marker::PhantomData }
    }

    /// Validate that this memory module has a memory id.
    pub fn validate_architecture(&self) -> (r: Result<(), String>)
        ensures
            r is Ok <==> self.id_view().len() > 0,
            match r {
                Ok(_) => true,
                Err(e) => e@ == "Memory module must have a valid memory_id"@,
            },
    {
        self.store.validate_architecture()
    }

    /// Read from snapshot (previous cycle data)
    pub fn read(&self, address: &str) -> (r: Option<T>)
        requires
            self.wf(),
        ensures
            match r {
                Some(x) => self.snapshot_state().contains_key(address@) && x.data_view() == self.snapshot_state()[address@],
                None => !self.snapshot_state().contains_key(address@)
                    || self.snapshot_state()[address@].tag() != T::data_tag(),
            },
    {
        match self.store.read_any(address) {
            Some(v) => match v.get::<T>() {
                Ok(x) => Some(x.duplicate()),
                Err(_) => None,
            },
            None => None,
        }
    }

    /// Write to current state (affects next cycle)
    pub fn write(&mut self, address: &str, data: T) -> (b: bool)
        requires
            old(self).wf(),
        ensures
            b,
            final(self).wf(),
            final(self).id_view() == old(self).id_view(),
            final(self).current() == old(self).current().insert(address@, data.data_view()),
            final(self).snapshot_state() == old(self).snapshot_state(),
    {
        self.store.write_any(address, TypedValue::new(data))
    }

    /// Take the snapshot that the next cycle's reads see.
    pub fn create_snapshot(&mut self)
        requires
            old(self).wf(),
        ensures
            final(self).wf(),
            final(self).id_view() == old(self).id_view(),
            final(self).snapshot_state() == old(self).current(),
            final(self).current() == old(self).current(),
    {
        self.store.create_snapshot();
    }

    /// The module as a store that can be held together with others.
    pub fn into_store(self) -> (r: MemoryStore)
        ensures
            self.wf() ==> r.data_kind() == T::data_tag(),
            r.id_view() == self.id_view(),
            r.current() == self.current(),
            r.snapshot_state() == self.snapshot_state(),
    {
        self.store
    }
}

/// A datum written to a module's current state and then snapshotted is what
/// the snapshot holds at its address, of the data kind of its type, so a read
/// of that address after the snapshot gives it back; until the snapshot, reads
/// see the earlier one (`write` keeps the snapshot).
pub proof fn lemma_read_after_write_and_snapshot<T: MemoryData>(
    before: MemoryModule<T>,
    written: MemoryModule<T>,
    snapshotted: MemoryModule<T>,
    address: Seq<char>,
    data: T,
)
    requires
        written.current() == before.current().insert(address, data.data_view()),
        snapshotted.snapshot_state() == written.current(),
    ensures
        snapshotted.snapshot_state().contains_key(address),
        snapshotted.snapshot_state()[address] == data.data_view(),
        snapshotted.snapshot_state()[address].tag() == T::data_tag(),
{
    data.lemma_view_tag();
}

} // verus!
