use vstd::prelude::*;
use crate::components::spec_names;
use crate::modules::{ComponentInstance, ComponentModule};
use crate::strings::{join3, list_string, list_text, str_eq};

verus! {

/// The component has an output port of that name; a memory component's output
/// port is `out`.
pub open spec fn has_output_port(c: ComponentInstance, port: Seq<char>) -> bool {
    match c.module {
        ComponentModule::Processing(m) => spec_names(m.output_ports@).contains(port),
        ComponentModule::Memory(_) => port == "out"@,
    }
}

/// The component has an input port of that name; a memory component's input
/// port is `in`.
pub open spec fn has_input_port(c: ComponentInstance, port: Seq<char>) -> bool {
    match c.module {
        ComponentModule::Processing(m) => spec_names(m.input_ports@).contains(port),
        ComponentModule::Memory(_) => port == "in"@,
    }
}

/// The component is a processing component with a memory port of that name.
pub open spec fn has_memory_port(c: ComponentInstance, port: Seq<char>) -> bool {
    match c.module {
        ComponentModule::Processing(m) => spec_names(m.memory_ports@).contains(port),
        ComponentModule::Memory(_) => false,
    }
}

pub open spec fn source_port_message(c: ComponentInstance, port: Seq<char>) -> Seq<char> {
    match c.module {
        ComponentModule::Processing(m) => "Output port '"@ + port + "' not found on component '"@ + c.id@.0
            + "'. Valid output ports: "@ + list_text(spec_names(m.output_ports@)),
        ComponentModule::Memory(_) => "Output port '"@ + port + "' not found on memory component '"@ + c.id@.0
            + "'. Valid port: 'out'"@,
    }
}

pub open spec fn target_port_message(c: ComponentInstance, port: Seq<char>) -> Seq<char> {
    match c.module {
        ComponentModule::Processing(m) => "Input port '"@ + port + "' not found on component '"@ + c.id@.0
            + "'. Valid input ports: "@ + list_text(spec_names(m.input_ports@)),
        ComponentModule::Memory(_) => "Input port '"@ + port + "' not found on memory component '"@ + c.id@.0
            + "'. Valid port: 'in'"@,
    }
}

pub open spec fn memory_port_message(c: ComponentInstance, port: Seq<char>) -> Seq<char> {
    match c.module {
        ComponentModule::Processing(m) => "Memory port '"@ + port + "' not found on component '"@ + c.id@.0
            + "'. Valid memory ports: "@ + list_text(spec_names(m.memory_ports@)),
        ComponentModule::Memory(_) => "Component '"@ + c.id@.0
            + "' is not a processing component and cannot have memory ports"@,
    }
}

/// Port validation utilities for components
pub struct PortValidator;

fn not_found(kind: &str, port: &str, on: &str, id: &str, tail: &str, listed: &str) -> (r: String)
    ensures
        r@ == kind@ + port@ + on@ + id@ + tail@ + listed@,
{
    let mut e = join3(kind, port, on);
    e.append(id);
    e.append(tail);
    e.append(listed);
    e
}

impl PortValidator {
    /// Validate that a component has the specified output port
    pub fn validate_source_port(component: &ComponentInstance, port: &str) -> (r: Result<(), String>)
        ensures
            r is Ok <==> has_output_port(*component, port@),
            match r {
                Ok(_) => true,
                Err(e) => e@ == source_port_message(*component, port@),
            },
    {
        match &component.module {
            ComponentModule::Processing(m) => {
                if m.has_output_port(port) {
                    Ok(())
                } else {
                    let names = m.output_port_names();
                    let listed = list_string(&names);
                    Err(not_found("Output port '", port, "' not found on component '", component.id.id(),
                        "'. Valid output ports: ", listed.as_str()))
                }
            },
            ComponentModule::Memory(_) => {
                if str_eq(port, "out") {
                    Ok(())
                } else {
                    proof { reveal_strlit(""); }
                    Err(not_found("Output port '", port, "' not found on memory component '", component.id.id(),
                        "'. Valid port: 'out'", ""))
                }
            },
        }
    }

    /// Validate that a component has the specified input port
    pub fn validate_target_port(component: &ComponentInstance, port: &str) -> (r: Result<(), String>)
        ensures
            r is Ok <==> has_input_port(*component, port@),
            match r {
                Ok(_) => true,
                Err(e) => e@ == target_port_message(*component, port@),
            },
    {
        match &component.module {
            ComponentModule::Processing(m) => {
                if m.has_input_port(port) {
                    Ok(())
                } else {
                    let names = m.input_port_names();
                    let listed = list_string(&names);
                    Err(not_found("Input port '", port, "' not found on component '", component.id.id(),
                        "'. Valid input ports: ", listed.as_str()))
                }
            },
            ComponentModule::Memory(_) => {
                if str_eq(port, "in") {
                    Ok(())
                } else {
                    proof { reveal_strlit(""); }
                    Err(not_found("Input port '", port, "' not found on memory component '", component.id.id(),
                        "'. Valid port: 'in'", ""))
                }
            },
        }
    }

    /// Validate that a processing component has the specified memory port
    pub fn validate_memory_port(component: &ComponentInstance, port: &str) -> (r: Result<(), String>)
        ensures
            r is Ok <==> has_memory_port(*component, port@),
            match r {
                Ok(_) => true,
                Err(e) => e@ == memory_port_message(*component, port@),
            },
    {
        match &component.module {
            ComponentModule::Processing(m) => {
                if m.has_memory_port(port) {
                    Ok(())
                } else {
                    let names = m.memory_port_names();
                    let listed = list_string(&names);
                    Err(not_found("Memory port '", port, "' not found on component '", component.id.id(),
                        "'. Valid memory ports: ", listed.as_str()))
                }
            },
            ComponentModule::Memory(_) => {
                Err(join3("Component '", component.id.id(), "' is not a processing component and cannot have memory ports"))
            },
        }
    }
}

} // verus!
