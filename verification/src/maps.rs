use vstd::prelude::*;
use crate::assoc::{AssocMap, KeyLike};
use crate::strings::{owned, join3, list_string, list_text, str_views, str_eq};
use crate::values::{TypedData, TypedValue, Event, EventIds, TypeTag, tag_name, mismatch_message};

verus! {

/// Values by port name.
pub type PortValues = AssocMap<String, TypedValue>;

/// Events by port name.
pub type PortEvents = AssocMap<String, Event>;

/// The names of a map's ports, in order.
pub fn port_names<V>(m: &AssocMap<String, V>) -> (r: Vec<&str>)
    ensures
        str_views(r@) == m.key_seq(),
{
    let mut r: Vec<&str> = Vec::new();
    let mut i: usize = 0;
    let n = m.len();
    while i < n
        invariant
            n == m.entries().len(),
            i <= n,
            str_views(r@) == m.key_seq().take(i as int),
        decreases n - i,
    {
        let ghost before = r@;
        r.push(m.key_at(i).as_str());
        proof {
            assert(str_views(r@) =~= str_views(before).push(m.key_seq()[i as int]));
            assert(m.key_seq().take(i as int + 1) =~= m.key_seq().take(i as int).push(m.key_seq()[i as int]));
        }
        i = i + 1;
    }
    assert(m.key_seq().take(n as int) =~= m.key_seq());
    r
}

pub open spec fn missing_input_message(port: Seq<char>) -> Seq<char> {
    "Input port '"@ + port + "' not found"@
}

pub open spec fn unknown_output_message(port: Seq<char>, expected: Seq<Seq<char>>) -> Seq<char> {
    "Unknown output port '"@ + port + "'. Expected ports: "@ + list_text(expected)
}

pub open spec fn output_type_message(port: Seq<char>, expected: Seq<char>, actual: TypeTag) -> Seq<char> {
    "Type mismatch for output port '"@ + port + "': expected "@ + expected + ", got "@ + tag_name(actual)
}

fn missing_input(port: &str) -> (r: String)
    ensures
        r@ == missing_input_message(port@),
{
    join3("Input port '", port, "' not found")
}

/// The expected output ports of a list of names and type names: each name
/// with its type name, a later entry for a name replacing an earlier one.
pub open spec fn expected_of(list: Seq<(&str, &'static str)>) -> Map<Seq<char>, &'static str>
    decreases list.len(),
{
    if list.len() == 0 {
        Map::empty()
    } else {
        expected_of(list.drop_last()).insert(list.last().0@, list.last().1)
    }
}

/// Names and type names of the expected output ports, in order.
fn expected_from_list(list: Vec<(&str, &'static str)>) -> (m: AssocMap<String, &'static str>)
    ensures
        m.as_map() == expected_of(list@),
{
    let mut m: AssocMap<String, &'static str> = AssocMap::new();
    let mut i: usize = 0;
    while i < list.len()
        invariant
            i <= list@.len(),
            m.as_map() == expected_of(list@.take(i as int)),
        decreases list@.len() - i,
    {
        let (port, ty) = list[i];
        proof {
            assert(list@.take(i as int + 1).drop_last() =~= list@.take(i as int));
        }
        m.insert(owned(port), ty);
        i = i + 1;
    }
    assert(list@.take(list@.len() as int) =~= list@);
    m
}

/// Checks a port and the sent type against the expected output ports: an empty
/// expectation accepts everything.
fn check_output(expected: &AssocMap<String, &'static str>, port: &str, actual: TypeTag) -> (r: Result<(), String>)
    ensures
        r is Ok <==> (expected.as_map() == Map::<Seq<char>, &'static str>::empty() || (expected.as_map().contains_key(port@)
            && expected.as_map()[port@]@ == tag_name(actual))),
        match r {
            Ok(_) => true,
            Err(e) => if expected.as_map() != Map::<Seq<char>, &'static str>::empty() && !expected.as_map().contains_key(port@) {
                e@ == unknown_output_message(port@, expected.key_seq())
            } else {
                e@ == output_type_message(port@, expected.as_map()[port@]@, actual)
            },
        },
{
    if expected.is_empty() {
        return Ok(());
    }
    let key = owned(port);
    match expected.get(&key) {
        None => {
            let names = port_names(expected);
            let listed = list_string(&names);
            let mut e = join3("Unknown output port '", port, "'. Expected ports: ");
            e.append(listed.as_str());
            Err(e)
        },
        Some(ty) => {
            let actual_name = actual.name();
            if str_eq(*ty, actual_name) {
                Ok(())
            } else {
                let mut e = join3("Type mismatch for output port '", port, "': expected ");
                e.append(*ty);
                e.append(", got ");
                e.append(actual_name);
                Err(e)
            }
        },
    }
}

/// Trait for accessing typed inputs in components
pub trait TypedInputs {
    /// Get typed input value
    fn get<T: TypedData>(&self, port: &str) -> Result<T, String>;

    /// Check if input exists
    fn has_input(&self, port: &str) -> bool;

    /// Get all available input port names
    fn input_ports(&self) -> Vec<&str>;

    /// Get the number of inputs
    fn len(&self) -> usize;

    /// Check if there are no inputs
    fn is_empty(&self) -> bool;
}

/// Trait for collecting typed outputs from components
pub trait TypedOutputs {
    /// Set typed output value
    fn set<T: TypedData>(&mut self, port: &str, value: T) -> Result<(), String>;

    /// Check if an output port is valid
    fn is_valid_port(&self, port: &str) -> bool;

    /// Get all expected output port names
    fn expected_ports(&self) -> Vec<&str>;

    /// Get the collected outputs (consumes self)
    fn into_map(self) -> PortValues;
}

/// Trait for accessing event inputs with progressive disclosure
pub trait EventInputs {
    /// Get typed input value (convenience method)
    fn get<T: TypedData>(&self, port: &str) -> Result<T, String>;

    /// Get full event for a port
    fn get_event(&self, port: &str) -> Result<&Event, String>;

    /// Get timestamp for a port (convenience method)
    fn get_timestamp(&self, port: &str) -> Result<u64, String>;

    /// Check if input exists
    fn has_input(&self, port: &str) -> bool;

    /// Get all available input port names
    fn input_ports(&self) -> Vec<&str>;

    /// Get the number of inputs
    fn len(&self) -> usize;

    /// Check if there are no inputs
    fn is_empty(&self) -> bool;
}

/// Trait for collecting event outputs with progressive disclosure
pub trait EventOutputs {
    /// Set typed output value (convenience method)
    fn set<T: TypedData>(&mut self, port: &str, value: T) -> Result<(), String>;

    /// Emit event directly
    fn emit_event(&mut self, port: &str, event: Event) -> Result<(), String>;

    /// Check if an output port is valid
    fn is_valid_port(&self, port: &str) -> bool;

    /// Get all expected output port names
    fn expected_ports(&self) -> Vec<&str>;

    /// Get the collected events (consumes self)
    fn into_event_map(self) -> PortEvents;
}

/// Implementation of TypedInputs backed by a map
pub struct TypedInputMap {
    inputs: PortValues,
}

impl TypedInputMap {
    /// The values by port name.
    pub closed spec fn values(&self) -> Map<Seq<char>, TypedValue> {
        self.inputs.as_map()
    }

    /// The port names in order.
    pub closed spec fn ports(&self) -> Seq<Seq<char>> {
        self.inputs.key_seq()
    }

    /// Create a new empty input map
    pub fn new() -> (r: Self)
        ensures
            r.values() == Map::<Seq<char>, TypedValue>::empty(),
    {
        TypedInputMap { inputs: AssocMap::new() }
    }

    /// Create input map from a map of TypedValues
    pub fn from_map(inputs: PortValues) -> (r: Self)
        ensures
            r.values() == inputs.as_map(),
            r.ports() == inputs.key_seq(),
    {
        TypedInputMap { inputs }
    }

    /// Insert a typed value
    pub fn insert<T: TypedData>(&mut self, port: String, value: T)
        ensures
            final(self).values().dom() == old(self).values().dom().insert(port@),
            final(self).values()[port@]@ == value.data_view(),
            forall|k: Seq<char>| k != port@ ==> #[trigger] final(self).values().get(k) == old(self).values().get(k),
    {
        self.inputs.insert(port, TypedValue::new(value));
    }

    /// Insert a TypedValue directly
    pub fn insert_typed(&mut self, port: String, value: TypedValue)
        ensures
            final(self).values() == old(self).values().insert(port@, value),
    {
        self.inputs.insert(port, value);
    }
}

impl TypedInputs for TypedInputMap {
    fn get<T: TypedData>(&self, port: &str) -> (r: Result<T, String>)
        ensures
            match r {
                Ok(x) => self.values().contains_key(port@) && self.values()[port@]@.tag() == T::data_tag()
                    && x.data_view() == self.values()[port@]@,
                Err(e) => if !self.values().contains_key(port@) {
                    e@ == missing_input_message(port@)
                } else {
                    self.values()[port@]@.tag() != T::data_tag()
                        && e@ == mismatch_message(T::data_tag(), self.values()[port@]@.tag())
                },
            },
    {
        let key = owned(port);
        match self.inputs.get(&key) {
            None => Err(missing_input(port)),
            Some(v) => match v.get::<T>() {
                Ok(x) => Ok(x.duplicate()),
                Err(e) => Err(e),
            },
        }
    }

    fn has_input(&self, port: &str) -> (b: bool)
        ensures
            b == self.values().contains_key(port@),
    {
        self.inputs.contains_key(&owned(port))
    }

    fn input_ports(&self) -> (r: Vec<&str>)
        ensures
            str_views(r@) == self.ports(),
    {
        port_names(&self.inputs)
    }

    fn len(&self) -> (n: usize)
        ensures
            n == self.values().len(),
    {
        self.inputs.len()
    }

    fn is_empty(&self) -> (b: bool)
        ensures
            b == (self.values() == Map::<Seq<char>, TypedValue>::empty()),
    {
        self.inputs.is_empty()
    }
}

/// Implementation of TypedOutputs backed by a map with port validation
pub struct TypedOutputMap {
    outputs: PortValues,
    expected: AssocMap<String, &'static str>,
}

impl TypedOutputMap {
    /// The collected values by port name.
    pub closed spec fn values(&self) -> Map<Seq<char>, TypedValue> {
        self.outputs.as_map()
    }

    /// The expected ports and their type names; empty when any port is accepted.
    pub closed spec fn expected(&self) -> Map<Seq<char>, &'static str> {
        self.expected.as_map()
    }

    /// The expected port names in order.
    pub closed spec fn expected_names(&self) -> Seq<Seq<char>> {
        self.expected.key_seq()
    }

    /// Create a new output map with expected ports
    pub fn new(expected_ports: Vec<(&str, &'static str)>) -> (r: Self)
        ensures
            r.values() == Map::<Seq<char>, TypedValue>::empty(),
            r.expected() == expected_of(expected_ports@),
    {
        TypedOutputMap { outputs: AssocMap::new(), expected: expected_from_list(expected_ports) }
    }

    /// Create an output map without port validation (accepts any port)
    pub fn new_flexible() -> (r: Self)
        ensures
            r.values() == Map::<Seq<char>, TypedValue>::empty(),
            r.expected() == Map::<Seq<char>, &'static str>::empty(),
    {
        TypedOutputMap { outputs: AssocMap::new(), expected: AssocMap::new() }
    }
}

impl TypedOutputs for TypedOutputMap {
    fn set<T: TypedData>(&mut self, port: &str, value: T) -> (r: Result<(), String>)
        ensures
            final(self).expected() == old(self).expected(),
            final(self).expected_names() == old(self).expected_names(),
            r is Ok <==> (old(self).expected() == Map::<Seq<char>, &'static str>::empty() || (old(self).expected().contains_key(port@)
                && old(self).expected()[port@]@ == tag_name(T::data_tag()))),
            match r {
                Ok(_) => final(self).values().dom() == old(self).values().dom().insert(port@)
                    && final(self).values()[port@]@ == value.data_view()
                    && forall|k: Seq<char>| k != port@ ==> #[trigger] final(self).values().get(k) == old(self).values().get(k),
                Err(e) => final(self).values() == old(self).values()
                    && if old(self).expected() != Map::<Seq<char>, &'static str>::empty() && !old(self).expected().contains_key(port@) {
                        e@ == unknown_output_message(port@, old(self).expected_names())
                    } else {
                        e@ == output_type_message(port@, old(self).expected()[port@]@, T::data_tag())
                    },
            },
    {
        check_output(&self.expected, port, T::tag())?;
        self.outputs.insert(owned(port), TypedValue::new(value));
        Ok(())
    }

    fn is_valid_port(&self, port: &str) -> (b: bool)
        ensures
            b == (self.expected() == Map::<Seq<char>, &'static str>::empty() || self.expected().contains_key(port@)),
    {
        self.expected.is_empty() || self.expected.contains_key(&owned(port))
    }

    fn expected_ports(&self) -> (r: Vec<&str>)
        ensures
            str_views(r@) == self.expected_names(),
    {
        port_names(&self.expected)
    }

    fn into_map(self) -> (r: PortValues)
        ensures
            r.as_map() == self.values(),
    {
        self.outputs
    }
}

/// Implementation of EventInputs backed by a map of Events
pub struct EventInputMap {
    inputs: PortEvents,
    ids: EventIds,
}

impl EventInputMap {
    /// The events by port name.
    pub closed spec fn events(&self) -> Map<Seq<char>, Event> {
        self.inputs.as_map()
    }

    /// The port names in order.
    pub closed spec fn ports(&self) -> Seq<Seq<char>> {
        self.inputs.key_seq()
    }

    /// Create a new empty event input map
    pub fn new() -> (r: Self)
        ensures
            r.events() == Map::<Seq<char>, Event>::empty(),
    {
        EventInputMap { inputs: AssocMap::new(), ids: EventIds::new() }
    }

    /// Create event input map from a map of Events
    pub fn from_map(inputs: PortEvents) -> (r: Self)
        ensures
            r.events() == inputs.as_map(),
            r.ports() == inputs.key_seq(),
    {
        EventInputMap { inputs, ids: EventIds::new() }
    }

    /// Insert an event
    pub fn insert_event(&mut self, port: String, event: Event)
        ensures
            final(self).events() == old(self).events().insert(port@, event),
    {
        self.inputs.insert(port, event);
    }

    /// Insert a typed value with timestamp
    pub fn insert<T: TypedData>(&mut self, port: String, timestamp: u64, value: T)
        ensures
            final(self).events().dom() == old(self).events().dom().insert(port@),
            final(self).events()[port@].timestamp == timestamp,
            final(self).events()[port@].payload@ == value.data_view(),
            forall|k: Seq<char>| k != port@ ==> #[trigger] final(self).events().get(k) == old(self).events().get(k),
    {
        let event = Event::new(&mut self.ids, timestamp, value);
        self.inputs.insert(port, event);
    }
}

impl EventInputs for EventInputMap {
    fn get<T: TypedData>(&self, port: &str) -> (r: Result<T, String>)
        ensures
            match r {
                Ok(x) => self.events().contains_key(port@) && self.events()[port@].payload@.tag() == T::data_tag()
                    && x.data_view() == self.events()[port@].payload@,
                Err(e) => if !self.events().contains_key(port@) {
                    e@ == missing_input_message(port@)
                } else {
                    self.events()[port@].payload@.tag() != T::data_tag()
                        && e@ == mismatch_message(T::data_tag(), self.events()[port@].payload@.tag())
                },
            },
    {
        let event = self.get_event(port)?;
        match event.payload.get::<T>() {
            Ok(x) => Ok(x.duplicate()),
            Err(e) => Err(e),
        }
    }

    fn get_event(&self, port: &str) -> (r: Result<&Event, String>)
        ensures
            match r {
                Ok(ev) => self.events().contains_key(port@) && *ev == self.events()[port@],
                Err(e) => !self.events().contains_key(port@) && e@ == missing_input_message(port@),
            },
    {
        match self.inputs.get(&owned(port)) {
            Some(ev) => Ok(ev),
            None => Err(missing_input(port)),
        }
    }

    fn get_timestamp(&self, port: &str) -> (r: Result<u64, String>)
        ensures
            match r {
                Ok(t) => self.events().contains_key(port@) && t == self.events()[port@].timestamp,
                Err(e) => !self.events().contains_key(port@) && e@ == missing_input_message(port@),
            },
    {
        let event = self.get_event(port)?;
        Ok(event.timestamp)
    }

    fn has_input(&self, port: &str) -> (b: bool)
        ensures
            b == self.events().contains_key(port@),
    {
        self.inputs.contains_key(&owned(port))
    }

    fn input_ports(&self) -> (r: Vec<&str>)
        ensures
            str_views(r@) == self.ports(),
    {
        port_names(&self.inputs)
    }

    fn len(&self) -> (n: usize)
        ensures
            n == self.events().len(),
    {
        self.inputs.len()
    }

    fn is_empty(&self) -> (b: bool)
        ensures
            b == (self.events() == Map::<Seq<char>, Event>::empty()),
    {
        self.inputs.is_empty()
    }
}

impl EventInputMap {
    /// Get typed input value (same as the trait's `get`)
    pub fn get_value<T: TypedData>(&self, port: &str) -> (r: Result<T, String>)
        ensures
            match r {
                Ok(x) => self.events().contains_key(port@) && self.events()[port@].payload@.tag() == T::data_tag()
                    && x.data_view() == self.events()[port@].payload@,
                Err(e) => if !self.events().contains_key(port@) {
                    e@ == missing_input_message(port@)
                } else {
                    self.events()[port@].payload@.tag() != T::data_tag()
                        && e@ == mismatch_message(T::data_tag(), self.events()[port@].payload@.tag())
                },
            },
    {
        EventInputs::get::<T>(self, port)
    }
}

/// Implementation of EventOutputs backed by a map with port validation
pub struct EventOutputMap {
    outputs: PortEvents,
    expected: AssocMap<String, &'static str>,
    timestamp: u64,
    ids: EventIds,
}

impl EventOutputMap {
    /// The collected events by port name.
    pub closed spec fn events(&self) -> Map<Seq<char>, Event> {
        self.outputs.as_map()
    }

    /// The expected ports and their type names; empty when any port is accepted.
    pub closed spec fn expected(&self) -> Map<Seq<char>, &'static str> {
        self.expected.as_map()
    }

    /// The expected port names in order.
    pub closed spec fn expected_names(&self) -> Seq<Seq<char>> {
        self.expected.key_seq()
    }

    /// The timestamp given to events made by `set`.
    pub closed spec fn stamp(&self) -> u64 {
        self.timestamp
    }

    /// Create a new event output map with expected ports
    pub fn new(expected_ports: Vec<(&str, &'static str)>, timestamp: u64) -> (r: Self)
        ensures
            r.events() == Map::<Seq<char>, Event>::empty(),
            r.stamp() == timestamp,
            r.expected() == expected_of(expected_ports@),
    {
        EventOutputMap {
            outputs: AssocMap::new(),
            expected: expected_from_list(expected_ports),
            timestamp,
            ids: EventIds::new(),
        }
    }

    /// Create an event output map without port validation (accepts any port)
    pub fn new_flexible(timestamp: u64) -> (r: Self)
        ensures
            r.events() == Map::<Seq<char>, Event>::empty(),
            r.expected() == Map::<Seq<char>, &'static str>::empty(),
            r.stamp() == timestamp,
    {
        EventOutputMap { outputs: AssocMap::new(), expected: AssocMap::new(), timestamp, ids: EventIds::new() }
    }
}

impl EventOutputs for EventOutputMap {
    fn set<T: TypedData>(&mut self, port: &str, value: T) -> (r: Result<(), String>)
        ensures
            final(self).expected() == old(self).expected(),
            final(self).expected_names() == old(self).expected_names(),
            final(self).stamp() == old(self).stamp(),
            r is Ok <==> (old(self).expected() == Map::<Seq<char>, &'static str>::empty() || (old(self).expected().contains_key(port@)
                && old(self).expected()[port@]@ == tag_name(T::data_tag()))),
            match r {
                Ok(_) => final(self).events().dom() == old(self).events().dom().insert(port@)
                    && final(self).events()[port@].timestamp == old(self).stamp()
                    && final(self).events()[port@].payload@ == value.data_view()
                    && forall|k: Seq<char>| k != port@ ==> #[trigger] final(self).events().get(k) == old(self).events().get(k),
                Err(e) => final(self).events() == old(self).events()
                    && if old(self).expected() != Map::<Seq<char>, &'static str>::empty() && !old(self).expected().contains_key(port@) {
                        e@ == unknown_output_message(port@, old(self).expected_names())
                    } else {
                        e@ == output_type_message(port@, old(self).expected()[port@]@, T::data_tag())
                    },
            },
    {
        check_output(&self.expected, port, T::tag())?;
        let event = Event::new(&mut self.ids, self.timestamp, value);
        self.outputs.insert(owned(port), event);
        Ok(())
    }

    fn emit_event(&mut self, port: &str, event: Event) -> (r: Result<(), String>)
        ensures
            final(self).expected() == old(self).expected(),
            final(self).expected_names() == old(self).expected_names(),
            final(self).stamp() == old(self).stamp(),
            r is Ok <==> (old(self).expected() == Map::<Seq<char>, &'static str>::empty() || old(self).expected().contains_key(port@)),
            match r {
                Ok(_) => final(self).events() == old(self).events().insert(port@, event),
                Err(e) => final(self).events() == old(self).events()
                    && e@ == unknown_output_message(port@, old(self).expected_names()),
            },
    {
        if !self.expected.is_empty() && !self.expected.contains_key(&owned(port)) {
            let names = port_names(&self.expected);
            let listed = list_string(&names);
            let mut e = join3("Unknown output port '", port, "'. Expected ports: ");
            e.append(listed.as_str());
            return Err(e);
        }
        self.outputs.insert(owned(port), event);
        Ok(())
    }

    fn is_valid_port(&self, port: &str) -> (b: bool)
        ensures
            b == (self.expected() == Map::<Seq<char>, &'static str>::empty() || self.expected().contains_key(port@)),
    {
        self.expected.is_empty() || self.expected.contains_key(&owned(port))
    }

    fn expected_ports(&self) -> (r: Vec<&str>)
        ensures
            str_views(r@) == self.expected_names(),
    {
        port_names(&self.expected)
    }

    fn into_event_map(self) -> (r: PortEvents)
        ensures
            r.as_map() == self.events(),
    {
        self.outputs
    }
}

/// Unified input trait: typed values and their timestamps by port name.
pub trait Inputs {
    /// Get typed input value using type erasure
    fn get_typed_value(&self, port: &str) -> Result<TypedValue, String>;

    /// Get timestamp for input (for timing-aware components)
    fn get_timestamp(&self, port: &str) -> Result<u64, String>;

    /// Check if input port exists
    fn has_input(&self, port: &str) -> bool;

    /// Get all available input port names
    fn input_ports(&self) -> Vec<&str>;

    /// Get the number of inputs
    fn len(&self) -> usize;

    /// Check if there are no inputs
    fn is_empty(&self) -> bool;
}

/// Convenient typed access to inputs.
pub trait InputsExt {
    /// Get typed input value (convenience method)
    fn get<T: TypedData>(&self, port: &str) -> Result<T, String>;
}

/// Unified output trait: sets outputs, with or without a timestamp.
pub trait Outputs {
    /// Set typed output value using type erasure
    fn set_typed_value(&mut self, port: &str, value: TypedValue) -> Result<(), String>;

    /// Set output with timestamp using type erasure
    fn set_typed_value_with_timestamp(&mut self, port: &str, value: TypedValue, timestamp: u64) -> Result<(), String>;

    /// Check if output port is valid
    fn is_valid_port(&self, port: &str) -> bool;

    /// Get all expected output port names
    fn expected_ports(&self) -> Vec<&str>;
}

/// Convenient typed setting of outputs.
pub trait OutputsExt {
    /// Set typed output value (convenience method)
    fn set<T: TypedData>(&mut self, port: &str, value: T) -> Result<(), String>;

    /// Set output with timestamp (convenience method)
    fn set_with_timestamp<T: TypedData>(&mut self, port: &str, value: T, timestamp: u64) -> Result<(), String>;
}

/// Unified input implementation: events by port name.
pub struct UnifiedInputMap {
    events: PortEvents,
    ids: EventIds,
}

impl UnifiedInputMap {
    /// The events by port name.
    pub closed spec fn events(&self) -> Map<Seq<char>, Event> {
        self.events.as_map()
    }

    /// The port names in order.
    pub closed spec fn ports(&self) -> Seq<Seq<char>> {
        self.events.key_seq()
    }

    /// Create a new empty input map
    pub fn new() -> (r: Self)
        ensures
            r.events() == Map::<Seq<char>, Event>::empty(),
    {
        UnifiedInputMap { events: AssocMap::new(), ids: EventIds::new() }
    }

    /// Create from a map of events
    pub fn from_events(events: PortEvents) -> (r: Self)
        ensures
            r.events() == events.as_map(),
            r.ports() == events.key_seq(),
    {
        UnifiedInputMap { events, ids: EventIds::new() }
    }

    /// Create from a map of typed values, each with timestamp 0
    pub fn from_typed_values(values: PortValues) -> (r: Self)
        ensures
            r.events().dom() == values.as_map().dom(),
            forall|k: Seq<char>| #[trigger] r.events().contains_key(k) ==> r.events()[k].timestamp == 0
                && r.events()[k].payload@ == values.as_map()[k]@,
    {
        let mut r = UnifiedInputMap::new();
        let mut i: usize = 0;
        let n = values.len();
        while i < n
            invariant
                n == values.entries().len(),
                i <= n,
                r.events().dom() == values.key_seq().take(i as int).to_set(),
                forall|k: Seq<char>| #[trigger] r.events().contains_key(k) ==> r.events()[k].timestamp == 0
                    && r.events()[k].payload@ == values.as_map()[k]@,
                values.wf(),
            decreases n - i,
        {
            let key = values.key_at(i).copy_key();
            let v = values.value_at(i).duplicate();
            proof {
                values.lemma_view_at(i as int);
            }
            let ev = Event::from_typed_value(&mut r.ids, 0, v);
            r.events.insert(key, ev);
            proof {
                crate::assoc::lemma_push_to_set(values.key_seq().take(i as int), values.key_seq()[i as int]);
                assert(values.key_seq().take(i as int + 1) =~= values.key_seq().take(i as int).push(values.key_seq()[i as int]));
            }
            i = i + 1;
        }
        proof {
            assert(values.key_seq().take(n as int) =~= values.key_seq());
            assert(r.events().dom() =~= values.as_map().dom());
        }
        r
    }

    /// Insert an event directly
    pub fn insert_event(&mut self, port: String, event: Event)
        ensures
            final(self).events() == old(self).events().insert(port@, event),
    {
        self.events.insert(port, event);
    }

    /// Insert a typed value as an event with timestamp 0
    pub fn insert<T: TypedData>(&mut self, port: String, value: T)
        ensures
            final(self).events().dom() == old(self).events().dom().insert(port@),
            final(self).events()[port@].timestamp == 0,
            final(self).events()[port@].payload@ == value.data_view(),
            forall|k: Seq<char>| k != port@ ==> #[trigger] final(self).events().get(k) == old(self).events().get(k),
    {
        let event = Event::new(&mut self.ids, 0, value);
        self.events.insert(port, event);
    }

    /// Insert a typed value with a specific timestamp
    pub fn insert_with_timestamp<T: TypedData>(&mut self, port: String, value: T, timestamp: u64)
        ensures
            final(self).events().dom() == old(self).events().dom().insert(port@),
            final(self).events()[port@].timestamp == timestamp,
            final(self).events()[port@].payload@ == value.data_view(),
            forall|k: Seq<char>| k != port@ ==> #[trigger] final(self).events().get(k) == old(self).events().get(k),
    {
        let event = Event::new(&mut self.ids, timestamp, value);
        self.events.insert(port, event);
    }

    /// Get the raw event for advanced use cases
    pub fn get_event(&self, port: &str) -> (r: Option<&Event>)
        ensures
            match r {
                Some(ev) => self.events().contains_key(port@) && *ev == self.events()[port@],
                None => !self.events().contains_key(port@),
            },
    {
        self.events.get(&owned(port))
    }
}

impl Inputs for UnifiedInputMap {
    fn get_typed_value(&self, port: &str) -> (r: Result<TypedValue, String>)
        ensures
            match r {
                Ok(v) => self.events().contains_key(port@) && v@ == self.events()[port@].payload@,
                Err(e) => !self.events().contains_key(port@) && e@ == missing_input_message(port@),
            },
    {
        match self.events.get(&owned(port)) {
            Some(ev) => Ok(ev.payload.duplicate()),
            None => Err(missing_input(port)),
        }
    }

    fn get_timestamp(&self, port: &str) -> (r: Result<u64, String>)
        ensures
            match r {
                Ok(t) => self.events().contains_key(port@) && t == self.events()[port@].timestamp,
                Err(e) => !self.events().contains_key(port@) && e@ == missing_input_message(port@),
            },
    {
        match self.events.get(&owned(port)) {
            Some(ev) => Ok(ev.timestamp),
            None => Err(missing_input(port)),
        }
    }

    fn has_input(&self, port: &str) -> (b: bool)
        ensures
            b == self.events().contains_key(port@),
    {
        self.events.contains_key(&owned(port))
    }

    fn input_ports(&self) -> (r: Vec<&str>)
        ensures
            str_views(r@) == self.ports(),
    {
        port_names(&self.events)
    }

    fn len(&self) -> (n: usize)
        ensures
            n == self.events().len(),
    {
        self.events.len()
    }

    fn is_empty(&self) -> (b: bool)
        ensures
            b == (self.events() == Map::<Seq<char>, Event>::empty()),
    {
        self.events.is_empty()
    }
}

impl InputsExt for UnifiedInputMap {
    fn get<T: TypedData>(&self, port: &str) -> (r: Result<T, String>)
        ensures
            match r {
                Ok(x) => self.events().contains_key(port@) && self.events()[port@].payload@.tag() == T::data_tag()
                    && x.data_view() == self.events()[port@].payload@,
                Err(e) => if !self.events().contains_key(port@) {
                    e@ == missing_input_message(port@)
                } else {
                    self.events()[port@].payload@.tag() != T::data_tag()
                        && e@ == mismatch_message(T::data_tag(), self.events()[port@].payload@.tag())
                },
            },
    {
        let typed_value = self.get_typed_value(port)?;
        typed_value.into_inner::<T>()
    }
}

/// Whether a name is among the given names.
fn contains_name(names: &Vec<String>, name: &str) -> (b: bool)
    ensures
        b == names@.map_values(|s: String| s@).contains(name@),
{
    let mut i: usize = 0;
    while i < names.len()
        invariant
            i <= names@.len(),
            forall|j: int| 0 <= j < i ==> names@[j]@ != name@,
        decreases names@.len() - i,
    {
        if str_eq(names[i].as_str(), name) {
            assert(names@.map_values(|s: String| s@)[i as int] == name@);
            return true;
        }
        i = i + 1;
    }
    false
}

pub open spec fn string_views(s: Seq<String>) -> Seq<Seq<char>> {
    s.map_values(|x: String| x@)
}

/// Unified output implementation: collects outputs as events.
pub struct UnifiedOutputMap {
    events: PortEvents,
    expected: Vec<String>,
    ids: EventIds,
}

impl UnifiedOutputMap {
    /// The collected events by port name.
    pub closed spec fn events(&self) -> Map<Seq<char>, Event> {
        self.events.as_map()
    }

    /// The expected port names; empty when any port is accepted.
    pub closed spec fn expected(&self) -> Seq<Seq<char>> {
        string_views(self.expected@)
    }

    /// Create a new output map with expected ports
    pub fn new(expected_ports: Vec<String>) -> (r: Self)
        ensures
            r.events() == Map::<Seq<char>, Event>::empty(),
            r.expected() == string_views(expected_ports@),
    {
        UnifiedOutputMap { events: AssocMap::new(), expected: expected_ports, ids: EventIds::new() }
    }

    /// Create an output map without port validation (accepts any port)
    pub fn new_flexible() -> (r: Self)
        ensures
            r.events() == Map::<Seq<char>, Event>::empty(),
            r.expected().len() == 0,
    {
        UnifiedOutputMap { events: AssocMap::new(), expected: Vec::new(), ids: EventIds::new() }
    }

    /// Get the collected events (consumes self)
    pub fn into_events(self) -> (r: PortEvents)
        ensures
            r.as_map() == self.events(),
    {
        self.events
    }

    /// Get the collected typed values (consumes self)
    pub fn into_typed_values(self) -> (r: PortValues)
        ensures
            r.as_map().dom() == self.events().dom(),
            forall|k: Seq<char>| #[trigger] r.as_map().contains_key(k) ==> r.as_map()[k]@ == self.events()[k].payload@,
    {
        let mut r: PortValues = AssocMap::new();
        let mut i: usize = 0;
        let n = self.events.len();
        while i < n
            invariant
                n == self.events.entries().len(),
                i <= n,
                self.events.wf(),
                r.as_map().dom() == self.events.key_seq().take(i as int).to_set(),
                forall|k: Seq<char>| #[trigger] r.as_map().contains_key(k) ==> r.as_map()[k]@ == self.events.as_map()[k].payload@,
            decreases n - i,
        {
            let key = self.events.key_at(i).copy_key();
            let v = self.events.value_at(i).payload.duplicate();
            proof {
                self.events.lemma_view_at(i as int);
            }
            r.insert(key, v);
            proof {
                crate::assoc::lemma_push_to_set(self.events.key_seq().take(i as int), self.events.key_seq()[i as int]);
                assert(self.events.key_seq().take(i as int + 1) =~= self.events.key_seq().take(i as int).push(self.events.key_seq()[i as int]));
            }
            i = i + 1;
        }
        proof {
            assert(self.events.key_seq().take(n as int) =~= self.events.key_seq());
            assert(r.as_map().dom() =~= self.events.as_map().dom());
        }
        r
    }

    fn check_port(&self, port: &str) -> (r: Result<(), String>)
        ensures
            r is Ok <==> (self.expected().len() == 0 || self.expected().contains(port@)),
            match r {
                Ok(_) => true,
                Err(e) => e@ == unknown_output_message(port@, self.expected()),
            },
    {
        if self.expected.len() != 0 && !contains_name(&self.expected, port) {
            let mut names: Vec<&str> = Vec::new();
            let mut i: usize = 0;
            while i < self.expected.len()
                invariant
                    i <= self.expected@.len(),
                    str_views(names@) == string_views(self.expected@).take(i as int),
                decreases self.expected@.len() - i,
            {
                let ghost before = names@;
                names.push(self.expected[i].as_str());
                proof {
                    assert(str_views(names@) =~= str_views(before).push(self.expected@[i as int]@));
                    assert(string_views(self.expected@).take(i as int + 1)
                        =~= string_views(self.expected@).take(i as int).push(self.expected@[i as int]@));
                }
                i = i + 1;
            }
            assert(string_views(self.expected@).take(self.expected@.len() as int) =~= string_views(self.expected@));
            let listed = list_string(&names);
            let mut e = join3("Unknown output port '", port, "'. Expected ports: ");
            e.append(listed.as_str());
            return Err(e);
        }
        Ok(())
    }

    /// Set an event directly (advanced use case)
    pub fn set_event(&mut self, port: &str, event: Event) -> (r: Result<(), String>)
        ensures
            final(self).expected() == old(self).expected(),
            r is Ok <==> (old(self).expected().len() == 0 || old(self).expected().contains(port@)),
            match r {
                Ok(_) => final(self).events() == old(self).events().insert(port@, event),
                Err(e) => final(self).events() == old(self).events()
                    && e@ == unknown_output_message(port@, old(self).expected()),
            },
    {
        self.check_port(port)?;
        self.events.insert(owned(port), event);
        Ok(())
    }
}

impl Outputs for UnifiedOutputMap {
    fn set_typed_value(&mut self, port: &str, value: TypedValue) -> (r: Result<(), String>)
        ensures
            final(self).expected() == old(self).expected(),
            r is Ok <==> (old(self).expected().len() == 0 || old(self).expected().contains(port@)),
            match r {
                Ok(_) => final(self).events().dom() == old(self).events().dom().insert(port@)
                    && final(self).events()[port@].timestamp == 0
                    && final(self).events()[port@].payload@ == value@
                    && forall|k: Seq<char>| k != port@ ==> #[trigger] final(self).events().get(k) == old(self).events().get(k),
                Err(e) => final(self).events() == old(self).events()
                    && e@ == unknown_output_message(port@, old(self).expected()),
            },
    {
        self.set_typed_value_with_timestamp(port, value, 0)
    }

    fn set_typed_value_with_timestamp(&mut self, port: &str, value: TypedValue, timestamp: u64) -> (r: Result<(), String>)
        ensures
            final(self).expected() == old(self).expected(),
            r is Ok <==> (old(self).expected().len() == 0 || old(self).expected().contains(port@)),
            match r {
                Ok(_) => final(self).events().dom() == old(self).events().dom().insert(port@)
                    && final(self).events()[port@].timestamp == timestamp
                    && final(self).events()[port@].payload@ == value@
                    && forall|k: Seq<char>| k != port@ ==> #[trigger] final(self).events().get(k) == old(self).events().get(k),
                Err(e) => final(self).events() == old(self).events()
                    && e@ == unknown_output_message(port@, old(self).expected()),
            },
    {
        self.check_port(port)?;
        let event = Event::from_typed_value(&mut self.ids, timestamp, value);
        self.events.insert(owned(port), event);
        Ok(())
    }

    fn is_valid_port(&self, port: &str) -> (b: bool)
        ensures
            b == (self.expected().len() == 0 || self.expected().contains(port@)),
    {
        self.expected.len() == 0 || contains_name(&self.expected, port)
    }

    fn expected_ports(&self) -> (r: Vec<&str>)
        ensures
            str_views(r@) == self.expected(),
    {
        let mut names: Vec<&str> = Vec::new();
        let mut i: usize = 0;
        while i < self.expected.len()
            invariant
                i <= self.expected@.len(),
                str_views(names@) == string_views(self.expected@).take(i as int),
            decreases self.expected@.len() - i,
        {
            let ghost before = names@;
            names.push(self.expected[i].as_str());
            proof {
                assert(str_views(names@) =~= str_views(before).push(self.expected@[i as int]@));
                assert(string_views(self.expected@).take(i as int + 1)
                    =~= string_views(self.expected@).take(i as int).push(self.expected@[i as int]@));
            }
            i = i + 1;
        }
        assert(string_views(self.expected@).take(self.expected@.len() as int) =~= string_views(self.expected@));
        names
    }
}

impl OutputsExt for UnifiedOutputMap {
    fn set<T: TypedData>(&mut self, port: &str, value: T) -> (r: Result<(), String>)
        ensures
            final(self).expected() == old(self).expected(),
            r is Ok <==> (old(self).expected().len() == 0 || old(self).expected().contains(port@)),
            match r {
                Ok(_) => final(self).events().dom() == old(self).events().dom().insert(port@)
                    && final(self).events()[port@].timestamp == 0
                    && final(self).events()[port@].payload@ == value.data_view()
                    && forall|k: Seq<char>| k != port@ ==> #[trigger] final(self).events().get(k) == old(self).events().get(k),
                Err(e) => final(self).events() == old(self).events()
                    && e@ == unknown_output_message(port@, old(self).expected()),
            },
    {
        self.set_typed_value(port, TypedValue::new(value))
    }

    fn set_with_timestamp<T: TypedData>(&mut self, port: &str, value: T, timestamp: u64) -> (r: Result<(), String>)
        ensures
            final(self).expected() == old(self).expected(),
            r is Ok <==> (old(self).expected().len() == 0 || old(self).expected().contains(port@)),
            match r {
                Ok(_) => final(self).events().dom() == old(self).events().dom().insert(port@)
                    && final(self).events()[port@].timestamp == timestamp
                    && final(self).events()[port@].payload@ == value.data_view()
                    && forall|k: Seq<char>| k != port@ ==> #[trigger] final(self).events().get(k) == old(self).events().get(k),
                Err(e) => final(self).events() == old(self).events()
                    && e@ == unknown_output_message(port@, old(self).expected()),
            },
    {
        self.set_typed_value_with_timestamp(port, TypedValue::new(value), timestamp)
    }
}

} // verus!
