use vstd::prelude::*;
use crate::assoc::KeyLike;
use crate::strings::{owned, str_eq};
use crate::values::TypedData;

verus! {

/// Port type enumeration for component interfaces
#[derive(Debug, Clone, PartialEq, Eq, Hash, Structural)]
pub enum PortType {
    /// Input port - receives data from other components
    Input,
    /// Output port - sends data to other components
    Output,
    /// Memory port - connects to memory components for read/write access
    Memory,
}

impl PortType {
    /// Check if this port type can be connected to another port type
    pub fn can_connect_to(&self, other: &PortType) -> (b: bool)
        ensures
            b == ((*self == PortType::Output && *other == PortType::Input)
                || (*self == PortType::Memory && *other == PortType::Memory)),
    {
        match (self, other) {
            (PortType::Output, PortType::Input) => true,
            (PortType::Memory, PortType::Memory) => true,
            _ => false,
        }
    }

    /// Get a human-readable description of this port type
    pub fn description(&self) -> (s: &'static str)
        ensures
            s@ == match *self {
                PortType::Input => "Input port that receives data from other components"@,
                PortType::Output => "Output port that sends data to other components"@,
                PortType::Memory => "Memory port that connects to memory components"@,
            },
    {
        match self {
            PortType::Input => "Input port that receives data from other components",
            PortType::Output => "Output port that sends data to other components",
            PortType::Memory => "Memory port that connects to memory components",
        }
    }

    /// A copy of the port type.
    pub fn duplicate(&self) -> (r: PortType)
        ensures
            r == *self,
    {
        match self {
            PortType::Input => PortType::Input,
            PortType::Output => PortType::Output,
            PortType::Memory => PortType::Memory,
        }
    }
}

/// Port specification for component inputs, outputs, and memory ports
#[derive(Debug, Clone)]
pub struct PortSpec {
    /// Port name
    pub name: String,
    /// Port type (input, output, memory)
    pub port_type: PortType,
    /// Whether this port is required for component operation
    pub required: bool,
    /// Optional description for documentation
    pub description: Option<String>,
}

impl PortSpec {
    /// Create a new required input port
    pub fn input(name: &str) -> (r: Self)
        ensures
            r.name@ == name@,
            r.port_type == PortType::Input,
            r.required,
            r.description is None,
    {
        PortSpec { name: owned(name), port_type: PortType::Input, required: true, description: None }
    }

    /// Create a new optional input port
    pub fn input_optional(name: &str) -> (r: Self)
        ensures
            r.name@ == name@,
            r.port_type == PortType::Input,
            !r.required,
            r.description is None,
    {
        PortSpec { name: owned(name), port_type: PortType::Input, required: false, description: None }
    }

    /// Create a new output port
    pub fn output(name: &str) -> (r: Self)
        ensures
            r.name@ == name@,
            r.port_type == PortType::Output,
            !r.required,
            r.description is None,
    {
        PortSpec { name: owned(name), port_type: PortType::Output, required: false, description: None }
    }

    /// Create a new memory port
    pub fn memory(name: &str) -> (r: Self)
        ensures
            r.name@ == name@,
            r.port_type == PortType::Memory,
            !r.required,
            r.description is None,
    {
        PortSpec { name: owned(name), port_type: PortType::Memory, required: false, description: None }
    }

    /// Add a description to this port
    pub fn with_description(self, description: &str) -> (r: Self)
        ensures
            r.name == self.name,
            r.port_type == self.port_type,
            r.required == self.required,
            r.description is Some && r.description->0@ == description@,
    {
        PortSpec { description: Some(owned(description)), ..self }
    }

    /// Mark this port as optional
    pub fn optional(self) -> (r: Self)
        ensures
            r.name == self.name,
            r.port_type == self.port_type,
            !r.required,
            r.description == self.description,
    {
        PortSpec { required: false, ..self }
    }

    /// Mark this port as required
    pub fn required(self) -> (r: Self)
        ensures
            r.name == self.name,
            r.port_type == self.port_type,
            r.required,
            r.description == self.description,
    {
        PortSpec { required: true, ..self }
    }

    /// A copy of the specification.
    pub fn duplicate(&self) -> (r: Self)
        ensures
            r.name@ == self.name@,
            r.port_type == self.port_type,
            r.required == self.required,
    {
        PortSpec {
            name: self.name.clone(),
            port_type: self.port_type.duplicate(),
            required: self.required,
            description: match &self.description {
                Some(d) => Some(d.clone()),
                None => None,
            },
        }
    }
}

/// The names of a list of port specifications.
pub open spec fn spec_names(ports: Seq<PortSpec>) -> Seq<Seq<char>> {
    ports.map_values(|p: PortSpec| p.name@)
}

/// Whether a list of port specifications has a port of the given name.
fn has_port_named(ports: &Vec<PortSpec>, name: &str) -> (b: bool)
    ensures
        b == spec_names(ports@).contains(name@),
{
    let mut i: usize = 0;
    while i < ports.len()
        invariant
            i <= ports@.len(),
            forall|j: int| 0 <= j < i ==> ports@[j].name@ != name@,
        decreases ports@.len() - i,
    {
        if str_eq(ports[i].name.as_str(), name) {
            assert(spec_names(ports@)[i as int] == name@);
            return true;
        }
        i = i + 1;
    }
    false
}

/// The names of a list of port specifications, borrowed.
fn names_of(ports: &Vec<PortSpec>) -> (r: Vec<&str>)
    ensures
        crate::strings::str_views(r@) == spec_names(ports@),
{
    let mut r: Vec<&str> = Vec::new();
    let mut i: usize = 0;
    while i < ports.len()
        invariant
            i <= ports@.len(),
            crate::strings::str_views(r@) == spec_names(ports@).take(i as int),
        decreases ports@.len() - i,
    {
        let ghost before = r@;
        r.push(ports[i].name.as_str());
        proof {
            assert(crate::strings::str_views(r@) =~= crate::strings::str_views(before).push(ports@[i as int].name@));
            assert(spec_names(ports@).take(i as int + 1) =~= spec_names(ports@).take(i as int).push(ports@[i as int].name@));
        }
        i = i + 1;
    }
    assert(spec_names(ports@).take(ports@.len() as int) =~= spec_names(ports@));
    r
}

/// Copies of a list of port specifications.
fn copy_specs(ports: &Vec<PortSpec>) -> (r: Vec<PortSpec>)
    ensures
        r@.len() == ports@.len(),
        spec_names(r@) == spec_names(ports@),
        forall|i: int| 0 <= i < r@.len() ==> (#[trigger] r@[i]).port_type == ports@[i].port_type
            && r@[i].required == ports@[i].required,
{
    let mut r: Vec<PortSpec> = Vec::new();
    let mut i: usize = 0;
    while i < ports.len()
        invariant
            i <= ports@.len(),
            r@.len() == i,
            forall|j: int| 0 <= j < i ==> (#[trigger] r@[j]).name@ == ports@[j].name@
                && r@[j].port_type == ports@[j].port_type && r@[j].required == ports@[j].required,
        decreases ports@.len() - i,
    {
        r.push(ports[i].duplicate());
        i = i + 1;
    }
    assert(spec_names(r@) =~= spec_names(ports@));
    r
}

/// Processing component module: a stateless computation described by its ports.
/// The evaluation function that a module runs is kept by the caller that drives
/// the simulation, by module name.
#[derive(Debug, Clone)]
pub struct ProcessorModule {
    /// Component name/type
    pub name: String,
    /// Input port specifications
    pub input_ports: Vec<PortSpec>,
    /// Output port specifications
    pub output_ports: Vec<PortSpec>,
    /// Memory port specifications
    pub memory_ports: Vec<PortSpec>,
}

impl ProcessorModule {
    /// Create a new processor module
    pub fn new(
        name: &str,
        input_ports: Vec<PortSpec>,
        output_ports: Vec<PortSpec>,
        memory_ports: Vec<PortSpec>,
    ) -> (r: Self)
        ensures
            r.name@ == name@,
            r.input_ports == input_ports,
            r.output_ports == output_ports,
            r.memory_ports == memory_ports,
    {
        ProcessorModule { name: owned(name), input_ports, output_ports, memory_ports }
    }

    /// Validate that this processing module meets architecture constraints:
    /// it must have a name.
    pub fn validate_architecture(&self) -> (r: Result<(), String>)
        ensures
            r is Ok <==> self.name@.len() > 0,
            match r {
                Ok(_) => true,
                Err(e) => e@ == "Processing module must have a valid name"@,
            },
    {
        if self.name.as_str().unicode_len() == 0 {
            return Err(owned("Processing module must have a valid name"));
        }
        Ok(())
    }

    /// Get all input port names
    pub fn input_port_names(&self) -> (r: Vec<&str>)
        ensures
            crate::strings::str_views(r@) == spec_names(self.input_ports@),
    {
        names_of(&self.input_ports)
    }

    /// Get all output port names
    pub fn output_port_names(&self) -> (r: Vec<&str>)
        ensures
            crate::strings::str_views(r@) == spec_names(self.output_ports@),
    {
        names_of(&self.output_ports)
    }

    /// Get all memory port names
    pub fn memory_port_names(&self) -> (r: Vec<&str>)
        ensures
            crate::strings::str_views(r@) == spec_names(self.memory_ports@),
    {
        names_of(&self.memory_ports)
    }

    /// Check if an input port exists
    pub fn has_input_port(&self, name: &str) -> (b: bool)
        ensures
            b == spec_names(self.input_ports@).contains(name@),
    {
        has_port_named(&self.input_ports, name)
    }

    /// Check if an output port exists
    pub fn has_output_port(&self, name: &str) -> (b: bool)
        ensures
            b == spec_names(self.output_ports@).contains(name@),
    {
        has_port_named(&self.output_ports, name)
    }

    /// Check if a memory port exists
    pub fn has_memory_port(&self, name: &str) -> (b: bool)
        ensures
            b == spec_names(self.memory_ports@).contains(name@),
    {
        has_port_named(&self.memory_ports, name)
    }

    /// A copy of the module.
    pub fn duplicate(&self) -> (r: Self)
        ensures
            r.name@ == self.name@,
            spec_names(r.input_ports@) == spec_names(self.input_ports@),
            spec_names(r.output_ports@) == spec_names(self.output_ports@),
            spec_names(r.memory_ports@) == spec_names(self.memory_ports@),
            r.input_ports@.len() == self.input_ports@.len(),
            forall|i: int| 0 <= i < r.input_ports@.len() ==> (#[trigger] r.input_ports@[i]).required
                == self.input_ports@[i].required,
    {
        ProcessorModule {
            name: self.name.clone(),
            input_ports: copy_specs(&self.input_ports),
            output_ports: copy_specs(&self.output_ports),
            memory_ports: copy_specs(&self.memory_ports),
        }
    }
}

/// Error types for component operations
#[derive(Debug, Clone)]
pub enum ComponentError {
    /// Port not found
    PortNotFound(String),
    /// Invalid port type
    InvalidPortType(String),
    /// Type mismatch
    TypeMismatch(String),
    /// Component not found
    ComponentNotFound(String),
    /// Invalid connection
    InvalidConnection(String),
    /// Memory access error
    MemoryError(String),
}

impl ComponentError {
    /// The error as text
    pub fn message(&self) -> (r: String)
        ensures
            r@ == match *self {
                ComponentError::PortNotFound(m) => "Port not found: "@ + m@,
                ComponentError::InvalidPortType(m) => "Invalid port type: "@ + m@,
                ComponentError::TypeMismatch(m) => "Type mismatch: "@ + m@,
                ComponentError::ComponentNotFound(m) => "Component not found: "@ + m@,
                ComponentError::InvalidConnection(m) => "Invalid connection: "@ + m@,
                ComponentError::MemoryError(m) => "Memory error: "@ + m@,
            },
    {
        match self {
            ComponentError::PortNotFound(m) => crate::strings::concat_strs("Port not found: ", m.as_str()),
            ComponentError::InvalidPortType(m) => crate::strings::concat_strs("Invalid port type: ", m.as_str()),
            ComponentError::TypeMismatch(m) => crate::strings::concat_strs("Type mismatch: ", m.as_str()),
            ComponentError::ComponentNotFound(m) => crate::strings::concat_strs("Component not found: ", m.as_str()),
            ComponentError::InvalidConnection(m) => crate::strings::concat_strs("Invalid connection: ", m.as_str()),
            ComponentError::MemoryError(m) => crate::strings::concat_strs("Memory error: ", m.as_str()),
        }
    }
}

/// A text error becomes a missing-component error.
impl From<String> for ComponentError {
    fn from(msg: String) -> (r: Self) {
        ComponentError::ComponentNotFound(msg)
    }
}

impl vstd::std_specs::convert::FromSpecImpl<String> for ComponentError {
    open spec fn obeys_from_spec() -> bool {
        true
    }

    open spec fn from_spec(msg: String) -> Self {
        ComponentError::ComponentNotFound(msg)
    }
}

} // verus!
