use vstd::prelude::*;
use crate::components::{PortType, ProcessorModule};
use crate::memory::{MemoryData, MemoryModule};
use crate::strings::{concat_strs, decimal, decimal_string, join4};

verus! {

/// Parametric processor reaction trait for component logic
pub trait React<Ctx = ()> {
    type Output;

    /// Execute the component's logic and return optional output
    fn react(&mut self, ctx: Ctx) -> Option<Self::Output>;
}

/// Memory update trait for stateful components
pub trait Cycle {
    type Output;

    /// Update internal state and return optional output for next cycle
    fn cycle(&mut self) -> Option<Self::Output>;
}

/// Manual component definition trait for processors
pub trait Component {
    /// Define all ports for this component type
    fn define_ports() -> Vec<(String, PortType)>;

    /// Convert this component type into a processor module
    fn into_module() -> ProcessorModule;
}

/// Number of ports of one kind.
pub open spec fn count_kind(ports: Seq<(String, PortType)>, kind: PortType) -> nat
    decreases ports.len(),
{
    if ports.len() == 0 {
        0
    } else {
        count_kind(ports.drop_last(), kind) + if ports.last().1 == kind { 1nat } else { 0nat }
    }
}

proof fn lemma_count_kind_bounded(ports: Seq<(String, PortType)>, kind: PortType)
    ensures
        count_kind(ports, kind) <= ports.len(),
    decreases ports.len(),
{
    if ports.len() > 0 {
        lemma_count_kind_bounded(ports.drop_last(), kind);
    }
}

/// Number of ports of one kind in a list.
fn count_ports(ports: &Vec<(String, PortType)>, kind: PortType) -> (n: usize)
    ensures
        n == count_kind(ports@, kind),
{
    let mut n: usize = 0;
    let mut i: usize = 0;
    while i < ports.len()
        invariant
            i <= ports@.len(),
            n == count_kind(ports@.take(i as int), kind),
        decreases ports@.len() - i,
    {
        proof {
            assert(ports@.take(i as int + 1).drop_last() =~= ports@.take(i as int));
            lemma_count_kind_bounded(ports@.take(i as int), kind);
        }
        if ports[i].1 == kind {
            n = n + 1;
        }
        i = i + 1;
    }
    assert(ports@.take(ports@.len() as int) =~= ports@);
    n
}

/// What the port list of a memory component must satisfy: exactly one input,
/// exactly one output, and no memory port.
pub open spec fn memory_ports_check(ports: Seq<(String, PortType)>, type_path: Seq<char>) -> Result<(), Seq<char>> {
    if count_kind(ports, PortType::Input) != 1 {
        Err("Memory component "@ + type_path + " must have exactly one input port, found "@ + decimal(
            count_kind(ports, PortType::Input),
        ))
    } else if count_kind(ports, PortType::Output) != 1 {
        Err("Memory component "@ + type_path + " must have exactly one output port, found "@ + decimal(
            count_kind(ports, PortType::Output),
        ))
    } else if count_kind(ports, PortType::Memory) != 0 {
        Err("Memory component "@ + type_path + " cannot have memory ports, found "@ + decimal(
            count_kind(ports, PortType::Memory),
        ))
    } else {
        Ok(())
    }
}

/// Checks the port list of a memory component.
pub fn validate_memory_ports(ports: &Vec<(String, PortType)>, type_path: &str) -> (r: Result<(), String>)
    ensures
        crate::strings::outcome(r) == memory_ports_check(ports@, type_path@),
{
    let inputs = count_ports(ports, PortType::Input);
    let outputs = count_ports(ports, PortType::Output);
    let memories = count_ports(ports, PortType::Memory);
    if inputs != 1 {
        let n = decimal_string(inputs as u64);
        return Err(join4("Memory component ", type_path, " must have exactly one input port, found ", n.as_str()));
    }
    if outputs != 1 {
        let n = decimal_string(outputs as u64);
        return Err(join4("Memory component ", type_path, " must have exactly one output port, found ", n.as_str()));
    }
    if memories != 0 {
        let n = decimal_string(memories as u64);
        return Err(join4("Memory component ", type_path, " cannot have memory ports, found ", n.as_str()));
    }
    Ok(())
}

/// Manual memory component definition trait: a memory component has exactly
/// one input port, one output port and no memory port.
pub trait MemoryComponent: Cycle {
    /// The ports this memory component type declares; a verified impl states
    /// them, and `define_ports` is held to what it states.
    open spec fn declared_ports() -> Seq<(String, PortType)> {
        vstd::pervasive::arbitrary()
    }

    /// Define all ports for this memory component type
    fn define_ports() -> (r: Vec<(String, PortType)>)
        ensures
            r@ == Self::declared_ports(),
    ;

    /// Convert this memory component type into a memory module; its declared
    /// ports must be one input and one output and no memory port
    fn into_memory_module(type_path: &str) -> (r: MemoryModule<Self>) where Self: Sized + MemoryData
        requires
            memory_ports_check(Self::declared_ports(), type_path@) is Ok,
        default_ensures
            r.wf() && r.id_view() == "memory_"@ + type_path@ && r.current() == Map::<Seq<char>, crate::values::ValueView>::empty()
                && r.snapshot_state() == Map::<Seq<char>, crate::values::ValueView>::empty(),
    {
        let name = concat_strs("memory_", type_path);
        MemoryModule::new(name.as_str())
    }
}

/// Helper trait for component utilities
pub trait ReactHelper {
    /// Get the component type name for debugging and registration
    fn component_type_name() -> &'static str;
}

/// Marker trait for components that can be used in the simulation
pub trait SimulationComponent {
    /// Get the component type name for debugging and registration
    fn component_type_name() -> &'static str;
}

} // verus!
