use vstd::prelude::*;
use crate::assoc::KeyLike;
use crate::strings::{seq_less, compare_strs, Order, lemma_seq_less_irreflexive,
    lemma_seq_less_asymmetric, lemma_seq_less_transitive, lemma_seq_less_total};

verus! {

/// The abstract value of a component identifier: its id text and its module type.
pub type IdView = (Seq<char>, Seq<char>);

/// Component identifier carrying the module type it was made from.
#[derive(Debug, Clone, PartialEq, Eq, Hash, PartialOrd, Ord)]
pub struct ComponentId {
    pub(crate) id: String,
    pub(crate) module_type: String,
}

impl View for ComponentId {
    type V = IdView;

    closed spec fn view(&self) -> IdView {
        (self.id@, self.module_type@)
    }
}

impl KeyLike for ComponentId {
    type KeyView = IdView;

    open spec fn key_view(&self) -> IdView {
        self@
    }

    fn same_key(&self, other: &Self) -> (b: bool) {
        self.same_as(other)
    }

    fn copy_key(&self) -> (r: Self) {
        self.duplicate()
    }
}

/// The order that identifiers sort in: by id text, then by module type.
pub open spec fn id_less(a: IdView, b: IdView) -> bool {
    seq_less(a.0, b.0) || (a.0 == b.0 && seq_less(a.1, b.1))
}

pub proof fn lemma_id_less_irreflexive(a: IdView)
    ensures
        !id_less(a, a),
{
    lemma_seq_less_irreflexive(a.0);
    lemma_seq_less_irreflexive(a.1);
}

pub proof fn lemma_id_less_asymmetric(a: IdView, b: IdView)
    ensures
        !(id_less(a, b) && id_less(b, a)),
{
    lemma_seq_less_asymmetric(a.0, b.0);
    lemma_seq_less_asymmetric(a.1, b.1);
    lemma_seq_less_irreflexive(a.0);
}

pub proof fn lemma_id_less_transitive(a: IdView, b: IdView, c: IdView)
    requires
        id_less(a, b),
        id_less(b, c),
    ensures
        id_less(a, c),
{
    if seq_less(a.0, b.0) && seq_less(b.0, c.0) {
        lemma_seq_less_transitive(a.0, b.0, c.0);
    } else if seq_less(a.1, b.1) && seq_less(b.1, c.1) && a.0 == b.0 && b.0 == c.0 {
        lemma_seq_less_transitive(a.1, b.1, c.1);
    }
}

pub proof fn lemma_id_less_total(a: IdView, b: IdView)
    ensures
        id_less(a, b) || id_less(b, a) || a == b,
{
    lemma_seq_less_total(a.0, b.0);
    lemma_seq_less_total(a.1, b.1);
}

impl ComponentId {
    /// Create a new component ID
    pub fn new(id: String, module_type: String) -> (r: Self)
        ensures
            r@ == (id@, module_type@),
    {
        ComponentId { id, module_type }
    }

    /// Get the raw ID string
    pub fn id(&self) -> (r: &str)
        ensures
            r@ == self@.0,
    {
        self.id.as_str()
    }

    /// Get the module type
    pub fn module_type(&self) -> (r: &str)
        ensures
            r@ == self@.1,
    {
        self.module_type.as_str()
    }

    /// The text an identifier is shown by: its id.
    pub fn display_string(&self) -> (r: String)
        ensures
            r@ == self@.0,
    {
        self.id.clone()
    }

    /// Equality of identifiers.
    pub fn same_as(&self, other: &ComponentId) -> (b: bool)
        ensures
            b == (self@ == other@),
    {
        self.id == other.id && self.module_type == other.module_type
    }

    /// A copy of this identifier.
    pub fn duplicate(&self) -> (r: ComponentId)
        ensures
            r@ == self@,
    {
        ComponentId { id: self.id.clone(), module_type: self.module_type.clone() }
    }

    /// Three-way comparison in the order identifiers sort in.
    pub fn compare(&self, other: &ComponentId) -> (r: Order)
        ensures
            r == Order::Less <==> id_less(self@, other@),
            r == Order::Equal <==> self@ == other@,
            r == Order::Greater <==> id_less(other@, self@),
    {
        proof {
            lemma_id_less_irreflexive(self@);
            lemma_id_less_asymmetric(self@, other@);
        }
        match compare_strs(self.id.as_str(), other.id.as_str()) {
            Order::Less => Order::Less,
            Order::Greater => Order::Greater,
            Order::Equal => compare_strs(self.module_type.as_str(), other.module_type.as_str()),
        }
    }

    /// Create an output port handle
    pub fn output(&self, port: &str) -> (r: OutputPort)
        ensures
            r@ == (self@, port@),
    {
        OutputPort { component_id: self.duplicate(), port_name: crate::strings::owned(port) }
    }

    /// Create an input port handle
    pub fn input(&self, port: &str) -> (r: InputPort)
        ensures
            r@ == (self@, port@),
    {
        InputPort { component_id: self.duplicate(), port_name: crate::strings::owned(port) }
    }

    /// Create a memory port handle
    pub fn memory_port(&self, port: &str) -> (r: MemoryPort)
        ensures
            r@ == (self@, port@),
    {
        MemoryPort { component_id: self.duplicate(), port_name: crate::strings::owned(port) }
    }
}

/// Handle for an output port
#[derive(Debug, Clone)]
pub struct OutputPort {
    pub(crate) component_id: ComponentId,
    pub(crate) port_name: String,
}

impl View for OutputPort {
    type V = PortView;

    closed spec fn view(&self) -> PortView {
        (self.component_id@, self.port_name@)
    }
}

impl OutputPort {
    pub fn component_id(&self) -> (r: &ComponentId)
        ensures
            r@ == self@.0,
    {
        &self.component_id
    }

    pub fn port_name(&self) -> (r: &str)
        ensures
            r@ == self@.1,
    {
        self.port_name.as_str()
    }
}

/// Handle for an input port
#[derive(Debug, Clone)]
pub struct InputPort {
    pub(crate) component_id: ComponentId,
    pub(crate) port_name: String,
}

impl View for InputPort {
    type V = PortView;

    closed spec fn view(&self) -> PortView {
        (self.component_id@, self.port_name@)
    }
}

impl InputPort {
    pub fn component_id(&self) -> (r: &ComponentId)
        ensures
            r@ == self@.0,
    {
        &self.component_id
    }

    pub fn port_name(&self) -> (r: &str)
        ensures
            r@ == self@.1,
    {
        self.port_name.as_str()
    }
}

/// Handle for a memory port
#[derive(Debug, Clone)]
pub struct MemoryPort {
    pub(crate) component_id: ComponentId,
    pub(crate) port_name: String,
}

impl View for MemoryPort {
    type V = PortView;

    closed spec fn view(&self) -> PortView {
        (self.component_id@, self.port_name@)
    }
}

impl MemoryPort {
    pub fn component_id(&self) -> (r: &ComponentId)
        ensures
            r@ == self@.0,
    {
        &self.component_id
    }

    pub fn port_name(&self) -> (r: &str)
        ensures
            r@ == self@.1,
    {
        self.port_name.as_str()
    }
}

/// A port of a component: the component's identifier and the port's name.
pub type PortRef = (ComponentId, String);

/// The abstract value of a port reference.
pub type PortView = (IdView, Seq<char>);

impl KeyLike for (ComponentId, String) {
    type KeyView = PortView;

    open spec fn key_view(&self) -> PortView {
        (self.0@, self.1@)
    }

    fn same_key(&self, other: &Self) -> (b: bool) {
        self.0.same_as(&other.0) && self.1 == other.1
    }

    fn copy_key(&self) -> (r: Self) {
        (self.0.duplicate(), self.1.clone())
    }
}

/// Views of a sequence of port references.
pub open spec fn port_views(s: Seq<PortRef>) -> Seq<PortView> {
    s.map_values(|p: PortRef| p.key_view())
}

/// Views of a sequence of identifiers.
pub open spec fn id_views(s: Seq<ComponentId>) -> Seq<IdView> {
    s.map_values(|c: ComponentId| c@)
}

} // verus!
