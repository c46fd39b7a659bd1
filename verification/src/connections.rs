use vstd::prelude::*;
use crate::assoc::{AssocMap, KeyLike, lemma_filter_push, lemma_index_of_distinct};
use crate::components::spec_names;
use crate::modules::{ComponentInstance, ComponentModule};
use crate::port_validator::{PortValidator, has_output_port, has_input_port, has_memory_port,
    source_port_message, target_port_message, memory_port_message};
use crate::registry::ComponentRegistry;
use crate::strings::{join3, join5, join6, list_string, list_text, owned, outcome, str_eq};
use crate::types::{ComponentId, IdView, PortRef, PortView, port_views};

verus! {

/// Regular connections by source port: the targets of each source, by view.
pub open spec fn connection_view(a: AssocMap<PortRef, Vec<PortRef>>) -> Map<PortView, Seq<PortView>> {
    Map::new(|k: PortView| a.as_map().contains_key(k), |k: PortView| port_views(a.as_map()[k]@))
}

/// Memory connections by memory port: the memory component each one is wired to.
pub open spec fn memory_view(a: AssocMap<PortRef, ComponentId>) -> Map<PortView, IdView> {
    Map::new(|k: PortView| a.as_map().contains_key(k), |k: PortView| a.as_map()[k]@)
}

/// Some source port drives the given input port.
pub open spec fn is_driven(c: Map<PortView, Seq<PortView>>, t: PortView) -> bool {
    exists|k: PortView| c.contains_key(k) && #[trigger] c[k].contains(t)
}

/// Every input port is driven by at most one source: a port occurs once over
/// all the target lists.
pub open spec fn drivers_unique(c: Map<PortView, Seq<PortView>>) -> bool {
    forall|k1: PortView, k2: PortView, i: int, j: int|
        c.contains_key(k1) && c.contains_key(k2) && 0 <= i < c[k1].len() && 0 <= j < c[k2].len()
            && (k1 != k2 || i != j) ==> #[trigger] c[k1][i] != #[trigger] c[k2][j]
}

pub open spec fn collision_message(t: PortView) -> Seq<char> {
    "Input port '"@ + t.1 + "' on component '"@ + t.0.0
        + "' is already connected. Multiple drivers not allowed."@
}

pub open spec fn memory_collision_message(p: PortView, m: IdView) -> Seq<char> {
    "Memory port '"@ + p.1 + "' on component '"@ + p.0.0 + "' is already connected to memory '"@ + m.0
        + "'"@
}

/// What checking a connection against the registered components gives: both
/// components exist, the source has the output port and the target the input port.
pub open spec fn connection_check(
    cm: Map<IdView, ComponentInstance>,
    s: PortView,
    t: PortView,
) -> Result<(), Seq<char>> {
    if !cm.contains_key(s.0) {
        Err("Source component '"@ + s.0.0 + "' not found"@)
    } else if !cm.contains_key(t.0) {
        Err("Target component '"@ + t.0.0 + "' not found"@)
    } else if !has_output_port(cm[s.0], s.1) {
        Err(source_port_message(cm[s.0], s.1))
    } else if !has_input_port(cm[t.0], t.1) {
        Err(target_port_message(cm[t.0], t.1))
    } else {
        Ok(())
    }
}

/// What checking a memory connection against the registered components gives.
pub open spec fn memory_connection_check(
    cm: Map<IdView, ComponentInstance>,
    p: PortView,
    m: IdView,
) -> Result<(), Seq<char>> {
    if !(cm.contains_key(p.0) && cm[p.0].module is Processing) {
        Err("Processing component '"@ + p.0.0 + "' not found"@)
    } else if !(cm.contains_key(m) && cm[m].module is Memory) {
        Err("Memory component '"@ + m.0 + "' not found"@)
    } else {
        match cm[p.0].module {
            ComponentModule::Processing(pm) => if !spec_names(pm.memory_ports@).contains(p.1) {
                Err("Memory port '"@ + p.1 + "' not found on component '"@ + p.0.0 + "'. Valid ports: "@
                    + list_text(spec_names(pm.memory_ports@)))
            } else {
                Ok(())
            },
            ComponentModule::Memory(_) => Ok(()),
        }
    }
}

/// The error, if any, of a stored connection's source port: a registered
/// component that lacks the output port.
pub open spec fn source_entry_error(cm: Map<IdView, ComponentInstance>, s: PortView) -> Option<Seq<char>> {
    if cm.contains_key(s.0) && !has_output_port(cm[s.0], s.1) {
        Some(source_port_message(cm[s.0], s.1))
    } else {
        None
    }
}

/// The error, if any, of a stored connection's target port.
pub open spec fn target_entry_error(cm: Map<IdView, ComponentInstance>, t: PortView) -> Option<Seq<char>> {
    if cm.contains_key(t.0) && !has_input_port(cm[t.0], t.1) {
        Some(target_port_message(cm[t.0], t.1))
    } else {
        None
    }
}

/// The error, if any, of a stored memory connection.
pub open spec fn memory_entry_error(cm: Map<IdView, ComponentInstance>, p: PortView, m: IdView) -> Option<
    Seq<char>,
> {
    if !cm.contains_key(p.0) {
        Some("Component '"@ + p.0.0 + "' in memory connection not found"@)
    } else if !(cm.contains_key(m) && cm[m].module is Memory) {
        Some("Memory component '"@ + m.0 + "' in memory connection not found"@)
    } else if cm[p.0].module is Processing && !has_memory_port(cm[p.0], p.1) {
        Some("Memory port '"@ + p.1 + "' not found on component '"@ + p.0.0 + "'"@)
    } else {
        None
    }
}

/// The error, if any, of a stored connection's source port, as the connection
/// manager words it: a registered component that lacks the output port.
pub open spec fn manager_source_error(cm: Map<IdView, ComponentInstance>, s: PortView) -> Option<Seq<char>> {
    if !cm.contains_key(s.0) {
        None
    } else {
        match cm[s.0].module {
            ComponentModule::Processing(m) => if spec_names(m.output_ports@).contains(s.1) {
                None
            } else {
                Some("Output port '"@ + s.1 + "' not found on processing component '"@ + s.0.0
                    + "'. Valid ports: "@ + list_text(spec_names(m.output_ports@)))
            },
            ComponentModule::Memory(_) => if s.1 == "out"@ {
                None
            } else {
                Some("Output port '"@ + s.1 + "' not found on memory component '"@ + s.0.0
                    + "'. Valid port: 'out'"@)
            },
        }
    }
}

/// The error, if any, of a stored connection's target port, as the connection
/// manager words it.
pub open spec fn manager_target_error(cm: Map<IdView, ComponentInstance>, t: PortView) -> Option<Seq<char>> {
    if !cm.contains_key(t.0) {
        None
    } else {
        match cm[t.0].module {
            ComponentModule::Processing(m) => if spec_names(m.input_ports@).contains(t.1) {
                None
            } else {
                Some("Input port '"@ + t.1 + "' not found on processing component '"@ + t.0.0
                    + "'. Valid ports: "@ + list_text(spec_names(m.input_ports@)))
            },
            ComponentModule::Memory(_) => if t.1 == "in"@ {
                None
            } else {
                Some("Input port '"@ + t.1 + "' not found on memory component '"@ + t.0.0
                    + "'. Valid port: 'in'"@)
            },
        }
    }
}

/// The source port error in one of the two wordings.
pub open spec fn source_error(cm: Map<IdView, ComponentInstance>, s: PortView, manager_style: bool) -> Option<
    Seq<char>,
> {
    if manager_style {
        manager_source_error(cm, s)
    } else {
        source_entry_error(cm, s)
    }
}

/// The target port error in one of the two wordings.
pub open spec fn target_error(cm: Map<IdView, ComponentInstance>, t: PortView, manager_style: bool) -> Option<
    Seq<char>,
> {
    if manager_style {
        manager_target_error(cm, t)
    } else {
        target_entry_error(cm, t)
    }
}

/// Every stored connection names ports that its registered components have.
pub open spec fn connections_valid(
    cm: Map<IdView, ComponentInstance>,
    c: Map<PortView, Seq<PortView>>,
    manager_style: bool,
) -> bool {
    forall|k: PortView| #[trigger] c.contains_key(k) ==> source_error(cm, k, manager_style) is None
        && forall|i: int| 0 <= i < c[k].len() ==> target_error(cm, #[trigger] c[k][i], manager_style) is None
}

/// The text is the error of one of the stored connections.
pub open spec fn is_connection_error(
    cm: Map<IdView, ComponentInstance>,
    c: Map<PortView, Seq<PortView>>,
    manager_style: bool,
    e: Seq<char>,
) -> bool {
    exists|k: PortView| #[trigger] c.contains_key(k) && (source_error(cm, k, manager_style) == Some(e)
        || exists|i: int| 0 <= i < c[k].len() && target_error(cm, #[trigger] c[k][i], manager_style) == Some(e))
}

/// Every stored memory connection is valid.
pub open spec fn memory_connections_valid(cm: Map<IdView, ComponentInstance>, mc: Map<PortView, IdView>) -> bool {
    forall|k: PortView| #[trigger] mc.contains_key(k) ==> memory_entry_error(cm, k, mc[k]) is None
}

/// The text is the error of one of the stored memory connections.
pub open spec fn is_memory_connection_error(
    cm: Map<IdView, ComponentInstance>,
    mc: Map<PortView, IdView>,
    e: Seq<char>,
) -> bool {
    exists|k: PortView| #[trigger] mc.contains_key(k) && memory_entry_error(cm, k, mc[k]) == Some(e)
}

/// Centralized connection validation logic
pub struct ConnectionValidator;

/// Whether the port occurs in the list of ports.
fn targets_contain(targets: &Vec<PortRef>, id: &ComponentId, port: &str) -> (b: bool)
    ensures
        b == port_views(targets@).contains((id@, port@)),
{
    let mut j: usize = 0;
    while j < targets.len()
        invariant
            j <= targets@.len(),
            forall|b: int| 0 <= b < j ==> port_views(targets@)[b] != (id@, port@),
        decreases targets@.len() - j,
    {
        if targets[j].0.same_as(id) && str_eq(targets[j].1.as_str(), port) {
            assert(port_views(targets@)[j as int] == (id@, port@));
            return true;
        }
        j = j + 1;
    }
    false
}

/// Whether some source drives the port.
pub(crate) fn driven(connections: &AssocMap<PortRef, Vec<PortRef>>, id: &ComponentId, port: &str) -> (b: bool)
    ensures
        b == is_driven(connection_view(*connections), (id@, port@)),
{
    let n = connections.len();
    let ghost tv = (id@, port@);
    let ghost c = connection_view(*connections);
    let mut i: usize = 0;
    while i < n
        invariant
            n == connections.entries().len(),
            i <= n,
            connections.wf(),
            c == connection_view(*connections),
            tv == (id@, port@),
            forall|a: int| 0 <= a < i ==> !port_views((#[trigger] connections.value_seq()[a])@).contains(tv),
        decreases n - i,
    {
        if targets_contain(connections.value_at(i), id, port) {
            proof {
                connections.lemma_view_at(i as int);
                let k = connections.key_seq()[i as int];
                assert(c.contains_key(k));
                assert(c[k].contains(tv));
            }
            return true;
        }
        i = i + 1;
    }
    proof {
        if is_driven(c, tv) {
            let k = choose|k: PortView| c.contains_key(k) && #[trigger] c[k].contains(tv);
            let a = connections.key_seq().index_of(k);
            connections.lemma_view_at(a);
            assert(connections.value_seq()[a] == connections.entries()[a].1);
        }
    }
    false
}

impl ConnectionValidator {
    /// Create a new connection validator
    pub fn new() -> (r: Self) {
        ConnectionValidator
    }

    /// Validate a connection between components with direct component access
    pub fn validate_connection_direct(
        source_component: &ComponentInstance,
        source_port: &str,
        target_component: &ComponentInstance,
        target_port: &str,
    ) -> (r: Result<(), String>)
        ensures
            r is Ok <==> has_output_port(*source_component, source_port@) && has_input_port(
                *target_component,
                target_port@,
            ),
            match r {
                Ok(_) => true,
                Err(e) => if !has_output_port(*source_component, source_port@) {
                    e@ == source_port_message(*source_component, source_port@)
                } else {
                    e@ == target_port_message(*target_component, target_port@)
                },
            },
    {
        PortValidator::validate_source_port(source_component, source_port)?;
        PortValidator::validate_target_port(target_component, target_port)?;
        Ok(())
    }

    /// Validate a memory connection with direct component access
    pub fn validate_memory_connection_direct(component: &ComponentInstance, port: &str) -> (r: Result<(), String>)
        ensures
            r is Ok <==> has_memory_port(*component, port@),
            match r {
                Ok(_) => true,
                Err(e) => e@ == memory_port_message(*component, port@),
            },
    {
        PortValidator::validate_memory_port(component, port)
    }

    /// Check if an input port is already connected (prevents multiple drivers)
    pub fn check_input_port_collision(
        connections: &AssocMap<PortRef, Vec<PortRef>>,
        target_id: &ComponentId,
        target_port: &str,
    ) -> (r: Result<(), String>)
        ensures
            r is Ok <==> !is_driven(connection_view(*connections), (target_id@, target_port@)),
            match r {
                Ok(_) => true,
                Err(e) => e@ == collision_message((target_id@, target_port@)),
            },
    {
        if driven(connections, target_id, target_port) {
            return Err(join5("Input port '", target_port, "' on component '", target_id.id(),
                "' is already connected. Multiple drivers not allowed."));
        }
        Ok(())
    }

    /// Check if a memory port is already connected
    pub fn check_memory_port_collision(
        memory_connections: &AssocMap<PortRef, ComponentId>,
        proc_id: &ComponentId,
        port: &str,
    ) -> (r: Result<(), String>)
        ensures
            r is Ok <==> !memory_view(*memory_connections).contains_key((proc_id@, port@)),
            match r {
                Ok(_) => true,
                Err(e) => e@ == memory_collision_message(
                    (proc_id@, port@),
                    memory_view(*memory_connections)[(proc_id@, port@)],
                ),
            },
    {
        let key = (proc_id.duplicate(), owned(port));
        match memory_connections.get(&key) {
            Some(existing) => {
                let mut e = join6("Memory port '", port, "' on component '", proc_id.id(),
                    "' is already connected to memory '", existing.id());
                e.append("'");
                Err(e)
            },
            None => Ok(()),
        }
    }

    /// Validate a regular port-to-port connection against the registered components
    pub fn validate_connection(
        registry: &ComponentRegistry,
        source_id: &ComponentId,
        source_port: &str,
        target_id: &ComponentId,
        target_port: &str,
    ) -> (r: Result<(), String>)
        ensures
            outcome(r) == connection_check(registry.components_map(), (source_id@, source_port@), (target_id@, target_port@)),
    {
        if !registry.has_component(source_id) {
            return Err(join3("Source component '", source_id.id(), "' not found"));
        }
        if !registry.has_component(target_id) {
            return Err(join3("Target component '", target_id.id(), "' not found"));
        }
        match registry.get_component(source_id) {
            Some(c) => {
                PortValidator::validate_source_port(c, source_port)?;
            },
            None => {},
        }
        match registry.get_component(target_id) {
            Some(c) => {
                PortValidator::validate_target_port(c, target_port)?;
            },
            None => {},
        }
        Ok(())
    }

    /// Validate a memory connection against the registered components
    pub fn validate_memory_connection(
        registry: &ComponentRegistry,
        proc_id: &ComponentId,
        port: &str,
        mem_id: &ComponentId,
    ) -> (r: Result<(), String>)
        ensures
            outcome(r) == memory_connection_check(registry.components_map(), (proc_id@, port@), mem_id@),
    {
        if !registry.has_processing_component(proc_id) {
            return Err(join3("Processing component '", proc_id.id(), "' not found"));
        }
        if !registry.has_memory_component(mem_id) {
            return Err(join3("Memory component '", mem_id.id(), "' not found"));
        }
        match registry.get_component(proc_id) {
            Some(component) => match &component.module {
                ComponentModule::Processing(proc_module) => {
                    if !proc_module.has_memory_port(port) {
                        let names = proc_module.memory_port_names();
                        let listed = list_string(&names);
                        return Err(join6("Memory port '", port, "' not found on component '", proc_id.id(),
                            "'. Valid ports: ", listed.as_str()));
                    }
                },
                ComponentModule::Memory(_) => {},
            },
            None => {},
        }
        Ok(())
    }

    /// Validate all connections in a connection map: every source port must be
    /// an output port and every target port an input port of its registered
    /// component.
    pub fn validate_all_connections(
        registry: &ComponentRegistry,
        connections: &AssocMap<PortRef, Vec<PortRef>>,
    ) -> (r: Result<(), String>)
        ensures
            r is Ok <==> connections_valid(registry.components_map(), connection_view(*connections), false),
            match r {
                Ok(_) => true,
                Err(e) => is_connection_error(registry.components_map(), connection_view(*connections), false, e@),
            },
    {
        check_connection_entries(registry, connections, false)
    }

    /// Validate all memory connections in a memory connection map
    pub fn validate_all_memory_connections(
        registry: &ComponentRegistry,
        memory_connections: &AssocMap<PortRef, ComponentId>,
    ) -> (r: Result<(), String>)
        ensures
            r is Ok <==> memory_connections_valid(registry.components_map(), memory_view(*memory_connections)),
            match r {
                Ok(_) => true,
                Err(e) => is_memory_connection_error(registry.components_map(), memory_view(*memory_connections), e@),
            },
    {
        check_memory_entries(registry, memory_connections)
    }
}

/// The stored connection at one position has no error.
pub open spec fn entry_ok(
    cm: Map<IdView, ComponentInstance>,
    k: PortView,
    targets: Vec<PortRef>,
    manager_style: bool,
) -> bool {
    source_error(cm, k, manager_style) is None && forall|b: int| 0 <= b < targets@.len()
        ==> target_error(cm, #[trigger] port_views(targets@)[b], manager_style) is None
}

/// Checks each stored memory connection in order and gives the first error.
fn check_memory_entries(registry: &ComponentRegistry, memory_connections: &AssocMap<PortRef, ComponentId>) -> (r:
    Result<(), String>)
    ensures
        r is Ok <==> memory_connections_valid(registry.components_map(), memory_view(*memory_connections)),
        match r {
            Ok(_) => true,
            Err(e) => is_memory_connection_error(registry.components_map(), memory_view(*memory_connections), e@),
        },
{
    let ghost cm = registry.components_map();
    let ghost mc = memory_view(*memory_connections);
    let n = memory_connections.len();
    let mut i: usize = 0;
    while i < n
        invariant
            n == memory_connections.entries().len(),
            i <= n,
            memory_connections.wf(),
            cm == registry.components_map(),
            mc == memory_view(*memory_connections),
            forall|a: int| 0 <= a < i ==> memory_entry_error(cm, #[trigger] memory_connections.key_seq()[a],
                memory_connections.value_seq()[a]@) is None,
        decreases n - i,
    {
        proof {
            memory_connections.lemma_view_at(i as int);
        }
        let key = memory_connections.key_at(i);
        let memory_id = memory_connections.value_at(i);
        let ghost k = memory_connections.key_seq()[i as int];
        assert(mc.contains_key(k) && mc[k] == memory_id@);
        if !registry.has_component(&key.0) {
            return Err(join3("Component '", key.0.id(), "' in memory connection not found"));
        }
        if !registry.has_memory_component(memory_id) {
            return Err(join3("Memory component '", memory_id.id(), "' in memory connection not found"));
        }
        match registry.get_component(&key.0) {
            Some(component) => match &component.module {
                ComponentModule::Processing(proc_module) => {
                    if !proc_module.has_memory_port(key.1.as_str()) {
                        return Err(join5("Memory port '", key.1.as_str(), "' not found on component '",
                            key.0.id(), "'"));
                    }
                },
                ComponentModule::Memory(_) => {},
            },
            None => {},
        }
        i = i + 1;
    }
    proof {
        assert forall|k: PortView| #[trigger] mc.contains_key(k) implies memory_entry_error(cm, k, mc[k]) is None by {
            let a = memory_connections.key_seq().index_of(k);
            memory_connections.lemma_view_at(a);
        }
    }
    Ok(())
}

/// The error of a source port against the registered components, if any.
fn source_error_of(registry: &ComponentRegistry, id: &ComponentId, port: &str, manager_style: bool) -> (r: Option<
    String,
>)
    ensures
        match r {
            Some(e) => source_error(registry.components_map(), (id@, port@), manager_style) == Some(e@),
            None => source_error(registry.components_map(), (id@, port@), manager_style) is None,
        },
{
    match registry.get_component(id) {
        None => None,
        Some(comp) => if manager_style {
            match &comp.module {
                ComponentModule::Processing(m) => if m.has_output_port(port) {
                    None
                } else {
                    let names = m.output_port_names();
                    let listed = list_string(&names);
                    Some(join6("Output port '", port, "' not found on processing component '", id.id(),
                        "'. Valid ports: ", listed.as_str()))
                },
                ComponentModule::Memory(_) => if str_eq(port, "out") {
                    None
                } else {
                    Some(join5("Output port '", port, "' not found on memory component '", id.id(),
                        "'. Valid port: 'out'"))
                },
            }
        } else {
            match PortValidator::validate_source_port(comp, port) {
                Ok(_) => None,
                Err(e) => Some(e),
            }
        },
    }
}

/// The error of a target port against the registered components, if any.
fn target_error_of(registry: &ComponentRegistry, id: &ComponentId, port: &str, manager_style: bool) -> (r: Option<
    String,
>)
    ensures
        match r {
            Some(e) => target_error(registry.components_map(), (id@, port@), manager_style) == Some(e@),
            None => target_error(registry.components_map(), (id@, port@), manager_style) is None,
        },
{
    match registry.get_component(id) {
        None => None,
        Some(comp) => if manager_style {
            match &comp.module {
                ComponentModule::Processing(m) => if m.has_input_port(port) {
                    None
                } else {
                    let names = m.input_port_names();
                    let listed = list_string(&names);
                    Some(join6("Input port '", port, "' not found on processing component '", id.id(),
                        "'. Valid ports: ", listed.as_str()))
                },
                ComponentModule::Memory(_) => if str_eq(port, "in") {
                    None
                } else {
                    Some(join5("Input port '", port, "' not found on memory component '", id.id(),
                        "'. Valid port: 'in'"))
                },
            }
        } else {
            match PortValidator::validate_target_port(comp, port) {
                Ok(_) => None,
                Err(e) => Some(e),
            }
        },
    }
}

/// Checks each stored connection in order and gives the first error.
fn check_connection_entries(
    registry: &ComponentRegistry,
    connections: &AssocMap<PortRef, Vec<PortRef>>,
    manager_style: bool,
) -> (r: Result<(), String>)
    ensures
        r is Ok <==> connections_valid(registry.components_map(), connection_view(*connections), manager_style),
        match r {
            Ok(_) => true,
            Err(e) => is_connection_error(registry.components_map(), connection_view(*connections), manager_style, e@),
        },
{
    let ghost cm = registry.components_map();
    let ghost c = connection_view(*connections);
    let n = connections.len();
    let mut i: usize = 0;
    while i < n
        invariant
            n == connections.entries().len(),
            i <= n,
            connections.wf(),
            cm == registry.components_map(),
            c == connection_view(*connections),
            forall|a: int| 0 <= a < i ==> #[trigger] entry_ok(cm, connections.key_seq()[a], connections.value_seq()[a],
                manager_style),
        decreases n - i,
    {
        proof {
            connections.lemma_view_at(i as int);
        }
        let key = connections.key_at(i);
        let targets = connections.value_at(i);
        let ghost k = connections.key_seq()[i as int];
        assert(k == (key.0@, key.1@));
        assert(c.contains_key(k));
        assert(c[k] == port_views(targets@));
        match source_error_of(registry, &key.0, key.1.as_str(), manager_style) {
            Some(e) => {
                assert(is_connection_error(cm, c, manager_style, e@));
                return Err(e);
            },
            None => {},
        }
        let mut j: usize = 0;
        while j < targets.len()
            invariant
                j <= targets@.len(),
                cm == registry.components_map(),
                c == connection_view(*connections),
                c.contains_key(k),
                c[k] == port_views(targets@),
                forall|b: int| 0 <= b < j ==> target_error(cm, #[trigger] port_views(targets@)[b], manager_style) is None,
            decreases targets@.len() - j,
        {
            let t = &targets[j];
            assert(port_views(targets@)[j as int] == (t.0@, t.1@));
            match target_error_of(registry, &t.0, t.1.as_str(), manager_style) {
                Some(e) => {
                    proof {
                        assert(c[k][j as int] == port_views(targets@)[j as int]);
                        assert(is_connection_error(cm, c, manager_style, e@));
                    }
                    return Err(e);
                },
                None => {},
            }
            j = j + 1;
        }
        assert(entry_ok(cm, connections.key_seq()[i as int], connections.value_seq()[i as int], manager_style));
        i = i + 1;
    }
    proof {
        assert forall|k: PortView| #[trigger] c.contains_key(k) implies source_error(cm, k, manager_style) is None
            && forall|b: int| 0 <= b < c[k].len() ==> target_error(cm, #[trigger] c[k][b], manager_style) is None by {
            let a = connections.key_seq().index_of(k);
            connections.lemma_view_at(a);
            assert(entry_ok(cm, connections.key_seq()[a], connections.value_seq()[a], manager_style));
        }
    }
    Ok(())
}

/// The targets stored for a source port, or none.
pub open spec fn targets_or_empty(c: Map<PortView, Seq<PortView>>, s: PortView) -> Seq<PortView> {
    if c.contains_key(s) {
        c[s]
    } else {
        Seq::empty()
    }
}

/// Views of a list of port references with one more at the end.
proof fn lemma_port_views_push(s: Seq<PortRef>, x: PortRef)
    ensures
        port_views(s.push(x)) == port_views(s).push(x.key_view()),
{
    assert(port_views(s.push(x)) =~= port_views(s).push(x.key_view()));
}

/// Appends a target to the list of a source port, making the list if needed.
pub(crate) fn push_target(map: &mut AssocMap<PortRef, Vec<PortRef>>, source: PortRef, target: PortRef)
    ensures
        connection_view(*final(map)) == connection_view(*old(map)).insert(
            source.key_view(),
            targets_or_empty(connection_view(*old(map)), source.key_view()).push(target.key_view()),
        ),
        final(map).key_seq() == if old(map).as_map().contains_key(source.key_view()) {
            old(map).key_seq()
        } else {
            old(map).key_seq().push(source.key_view())
        },
{
    let ghost sv = source.key_view();
    let ghost tv = target.key_view();
    let ghost c0 = connection_view(*map);
    match map.find(&source) {
        Some(i) => {
            proof {
                map.lemma_view_at(i as int);
            }
            let mut v = map.set_value_at(i, Vec::new());
            let ghost old_v = v@;
            v.push(target);
            map.set_value_at(i, v);
            proof {
                assert(port_views(v@) =~= c0[sv].push(tv));
                assert(connection_view(*map) =~= c0.insert(sv, targets_or_empty(c0, sv).push(tv)));
            }
        },
        None => {
            let mut v: Vec<PortRef> = Vec::new();
            v.push(target);
            map.insert(source, v);
            proof {
                assert(port_views(v@) =~= seq![tv]);
                assert(targets_or_empty(c0, sv) =~= Seq::<PortView>::empty());
                assert(connection_view(*map) =~= c0.insert(sv, targets_or_empty(c0, sv).push(tv)));
            }
        },
    }
}

/// Sum of the lengths of the lists.
pub open spec fn total_len(s: Seq<Seq<PortView>>) -> nat
    decreases s.len(),
{
    if s.len() == 0 {
        0
    } else {
        total_len(s.drop_last()) + s.last().len()
    }
}

/// The target lists of the given sources, in that order.
pub open spec fn lists_of(c: Map<PortView, Seq<PortView>>, ks: Seq<PortView>) -> Seq<Seq<PortView>> {
    ks.map_values(|k: PortView| c[k])
}

/// The port is connected: it is a source with targets stored, a target of some
/// source, or a memory port wired to a memory component.
pub open spec fn port_connected(c: Map<PortView, Seq<PortView>>, mc: Map<PortView, IdView>, p: PortView) -> bool {
    c.contains_key(p) || is_driven(c, p) || mc.contains_key(p)
}

/// Statistics about connections
#[derive(Debug, Clone)]
pub struct ConnectionStats {
    /// Number of source ports with connections
    pub regular_connections: usize,
    /// Number of memory ports wired to a memory component
    pub memory_connections: usize,
    /// Number of source-to-target links
    pub total_targets: usize,
}

/// Manages all connections between components and validates connection rules.
pub struct ConnectionManager {
    /// Port connections: (source_id, port) -> targets
    connections: AssocMap<PortRef, Vec<PortRef>>,
    /// Memory connections: (component_id, port) -> memory component
    memory_connections: AssocMap<PortRef, ComponentId>,
}

impl ConnectionManager {
    /// The targets of each connected source port.
    pub closed spec fn conns(&self) -> Map<PortView, Seq<PortView>> {
        connection_view(self.connections)
    }

    /// The connected source ports, in the order they were first connected.
    pub closed spec fn sources(&self) -> Seq<PortView> {
        self.connections.key_seq()
    }

    /// The memory component wired to each memory port.
    pub closed spec fn mems(&self) -> Map<PortView, IdView> {
        memory_view(self.memory_connections)
    }

    /// Create a new connection manager
    pub fn new() -> (r: Self)
        ensures
            r.conns() == Map::<PortView, Seq<PortView>>::empty(),
            r.sources() == Seq::<PortView>::empty(),
            r.mems() == Map::<PortView, IdView>::empty(),
    {
        let r = ConnectionManager { connections: AssocMap::new(), memory_connections: AssocMap::new() };
        proof {
            assert(r.conns() =~= Map::<PortView, Seq<PortView>>::empty());
            assert(r.sources() =~= Seq::<PortView>::empty());
            assert(r.mems() =~= Map::<PortView, IdView>::empty());
        }
        r
    }

    /// Add a regular port connection: the target joins the source's targets.
    pub fn add_connection(
        &mut self,
        source_id: ComponentId,
        source_port: String,
        target_id: ComponentId,
        target_port: String,
    ) -> (r: Result<(), String>)
        ensures
            r is Ok,
            final(self).conns() == old(self).conns().insert(
                (source_id@, source_port@),
                targets_or_empty(old(self).conns(), (source_id@, source_port@)).push((target_id@, target_port@)),
            ),
            final(self).sources() == if old(self).conns().contains_key((source_id@, source_port@)) {
                old(self).sources()
            } else {
                old(self).sources().push((source_id@, source_port@))
            },
            final(self).mems() == old(self).mems(),
    {
        push_target(&mut self.connections, (source_id, source_port), (target_id, target_port));
        Ok(())
    }

    /// Add a memory connection; a memory port is wired once.
    pub fn add_memory_connection(&mut self, component_id: ComponentId, port: String, memory_id: ComponentId) -> (r:
        Result<(), String>)
        ensures
            r is Ok <==> !old(self).mems().contains_key((component_id@, port@)),
            final(self).conns() == old(self).conns(),
            final(self).sources() == old(self).sources(),
            match r {
                Ok(_) => final(self).mems() == old(self).mems().insert((component_id@, port@), memory_id@),
                Err(e) => final(self).mems() == old(self).mems() && e@ == "Memory port '"@ + port@
                    + "' on component '"@ + component_id@.0 + "' is already connected"@,
            },
    {
        let key = (component_id, port);
        if self.memory_connections.contains_key(&key) {
            return Err(join5("Memory port '", key.1.as_str(), "' on component '", key.0.id(), "' is already connected"));
        }
        let ghost m0 = memory_view(self.memory_connections);
        let ghost kv = key.key_view();
        self.memory_connections.insert(key, memory_id);
        assert(memory_view(self.memory_connections) =~= m0.insert(kv, memory_id@));
        Ok(())
    }

    /// Get all regular connections
    pub fn connections(&self) -> (r: &AssocMap<PortRef, Vec<PortRef>>)
        ensures
            connection_view(*r) == self.conns(),
            r.key_seq() == self.sources(),
    {
        &self.connections
    }

    /// Get all memory connections
    pub fn memory_connections(&self) -> (r: &AssocMap<PortRef, ComponentId>)
        ensures
            memory_view(*r) == self.mems(),
    {
        &self.memory_connections
    }

    /// Get targets for a source port
    pub fn get_targets(&self, source_id: &ComponentId, source_port: &str) -> (r: Option<&Vec<PortRef>>)
        ensures
            match r {
                Some(v) => self.conns().contains_key((source_id@, source_port@))
                    && port_views(v@) == self.conns()[(source_id@, source_port@)],
                None => !self.conns().contains_key((source_id@, source_port@)),
            },
    {
        let key = (source_id.duplicate(), owned(source_port));
        self.connections.get(&key)
    }

    /// Get memory connection for a component port
    pub fn get_memory_connection(&self, component_id: &ComponentId, port: &str) -> (r: Option<&ComponentId>)
        ensures
            match r {
                Some(m) => self.mems().contains_key((component_id@, port@)) && m@ == self.mems()[(component_id@, port@)],
                None => !self.mems().contains_key((component_id@, port@)),
            },
    {
        let key = (component_id.duplicate(), owned(port));
        self.memory_connections.get(&key)
    }

    /// Check if a port has any connections, as source, target or memory port
    pub fn is_connected(&self, component_id: &ComponentId, port: &str) -> (b: bool)
        ensures
            b == port_connected(self.conns(), self.mems(), (component_id@, port@)),
    {
        let key = (component_id.duplicate(), owned(port));
        let has_output_connections = self.connections.contains_key(&key);
        let has_input_connections = driven(&self.connections, component_id, port);
        let has_memory_connection = self.memory_connections.contains_key(&key);
        has_output_connections || has_input_connections || has_memory_connection
    }

    /// Get connection statistics
    pub fn stats(&self) -> (r: ConnectionStats)
        ensures
            r.regular_connections == self.conns().dom().len(),
            r.memory_connections == self.mems().dom().len(),
            r.total_targets == if total_len(lists_of(self.conns(), self.sources())) <= usize::MAX {
                total_len(lists_of(self.conns(), self.sources()))
            } else {
                usize::MAX as nat
            },
    {
        let n = self.connections.len();
        let m = self.memory_connections.len();
        proof {
            assert(self.conns().dom() =~= self.connections.as_map().dom());
            assert(self.mems().dom() =~= self.memory_connections.as_map().dom());
        }
        let ghost ls = lists_of(self.conns(), self.sources());
        let mut total: usize = 0;
        let mut i: usize = 0;
        while i < n
            invariant
                n == self.connections.entries().len(),
                i <= n,
                self.connections.wf(),
                ls == lists_of(self.conns(), self.sources()),
                total == if total_len(ls.take(i as int)) <= usize::MAX {
                    total_len(ls.take(i as int))
                } else {
                    usize::MAX as nat
                },
            decreases n - i,
        {
            proof {
                self.connections.lemma_view_at(i as int);
                assert(ls.take(i as int + 1).drop_last() =~= ls.take(i as int));
                assert(ls[i as int] == port_views(self.connections.entries()[i as int].1@));
            }
            let len = self.connections.value_at(i).len();
            total = total.saturating_add(len);
            i = i + 1;
        }
        assert(ls.take(n as int) =~= ls);
        ConnectionStats { regular_connections: n, memory_connections: m, total_targets: total }
    }

    /// Connect a processing component's memory port to a memory component
    pub fn connect_memory(
        &mut self,
        registry: &ComponentRegistry,
        proc_id: ComponentId,
        port: String,
        mem_id: ComponentId,
    ) -> (r: Result<(), String>)
        ensures
            outcome(r) == connect_memory_check(registry.components_map(), old(self).mems(), (proc_id@, port@), mem_id@),
            final(self).conns() == old(self).conns(),
            final(self).sources() == old(self).sources(),
            final(self).mems() == if r is Ok {
                old(self).mems().insert((proc_id@, port@), mem_id@)
            } else {
                old(self).mems()
            },
    {
        ConnectionValidator::validate_memory_connection(registry, &proc_id, port.as_str(), &mem_id)?;
        ConnectionValidator::check_memory_port_collision(&self.memory_connections, &proc_id, port.as_str())?;
        let ghost m0 = memory_view(self.memory_connections);
        let ghost kv = (proc_id@, port@);
        self.memory_connections.insert((proc_id, port), mem_id);
        assert(memory_view(self.memory_connections) =~= m0.insert(kv, mem_id@));
        Ok(())
    }

    /// Connect two component ports; an input port takes one driver.
    pub fn connect(&mut self, registry: &ComponentRegistry, source: PortRef, target: PortRef) -> (r: Result<(), String>)
        ensures
            outcome(r) == connect_check(registry.components_map(), old(self).conns(), source.key_view(),
                target.key_view()),
            final(self).conns() == if r is Ok {
                old(self).conns().insert(
                    source.key_view(),
                    targets_or_empty(old(self).conns(), source.key_view()).push(target.key_view()),
                )
            } else {
                old(self).conns()
            },
            final(self).mems() == old(self).mems(),
            drivers_unique(old(self).conns()) ==> drivers_unique(final(self).conns()),
            r is Ok ==> port_connected(final(self).conns(), final(self).mems(), source.key_view())
                && port_connected(final(self).conns(), final(self).mems(), target.key_view()),
    {
        if !registry.has_component(&source.0) {
            return Err(join3("Source component '", source.0.id(), "' not found"));
        }
        if !registry.has_component(&target.0) {
            return Err(join3("Target component '", target.0.id(), "' not found"));
        }
        match source_error_of(registry, &source.0, source.1.as_str(), true) {
            Some(e) => return Err(e),
            None => {},
        }
        match target_error_of(registry, &target.0, target.1.as_str(), true) {
            Some(e) => return Err(e),
            None => {},
        }
        ConnectionValidator::check_input_port_collision(&self.connections, &target.0, target.1.as_str())?;
        let ghost c0 = connection_view(self.connections);
        let ghost sv = source.key_view();
        let ghost tv = target.key_view();
        push_target(&mut self.connections, source, target);
        proof {
            if drivers_unique(c0) {
                lemma_connect_keeps_drivers_unique(c0, sv, tv);
            }
            let c1 = connection_view(self.connections);
            assert(c1.contains_key(sv));
            assert(c1[sv][c1[sv].len() - 1] == tv);
            assert(c1[sv].contains(tv));
        }
        Ok(())
    }

    /// Validate all stored connections against the registered components
    pub fn validate_all_connections(&self, registry: &ComponentRegistry) -> (r: Result<(), String>)
        ensures
            r is Ok <==> connections_valid(registry.components_map(), self.conns(), true)
                && memory_connections_valid(registry.components_map(), self.mems()),
            match r {
                Ok(_) => true,
                Err(e) => is_connection_error(registry.components_map(), self.conns(), true, e@)
                    || is_memory_connection_error(registry.components_map(), self.mems(), e@),
            },
    {
        check_connection_entries(registry, &self.connections, true)?;
        check_memory_entries(registry, &self.memory_connections)
    }

    /// Check that every required input port of every processing component is
    /// driven by some connection
    pub fn validate_required_connections(&self, registry: &ComponentRegistry) -> (r: Result<(), String>)
        ensures
            r is Ok <==> !exists|id: IdView, i: int| #[trigger] required_unconnected(registry.components_map(),
                self.conns(), id, i),
            match r {
                Ok(_) => true,
                Err(e) => exists|id: IdView, i: int| #[trigger] required_unconnected(registry.components_map(),
                    self.conns(), id, i) && e@ == required_message(registry.components_map(), id, i),
            },
    {
        let comps = registry.components();
        let r = check_required_inputs(comps, &self.connections);
        assert(comps.as_map() == registry.components_map());
        assert(connection_view(self.connections) == self.conns());
        r
    }

    /// Get connection statistics
    pub fn connection_stats(&self) -> (r: ConnectionStats)
        ensures
            r.regular_connections == self.conns().dom().len(),
            r.memory_connections == self.mems().dom().len(),
            r.total_targets == if total_len(lists_of(self.conns(), self.sources())) <= usize::MAX {
                total_len(lists_of(self.conns(), self.sources()))
            } else {
                usize::MAX as nat
            },
    {
        self.stats()
    }

    /// Remove all connections involving a specific component: as source, as
    /// target, as the owner of a memory port, and as the memory connected to.
    pub fn remove_component_connections(&mut self, component_id: &ComponentId)
        ensures
            final(self).conns() == Map::new(
                |k: PortView| old(self).conns().contains_key(k) && k.0 != component_id@,
                |k: PortView| old(self).conns()[k].filter(not_of(component_id@)),
            ),
            final(self).mems() == Map::new(
                |k: PortView| old(self).mems().contains_key(k) && k.0 != component_id@
                    && old(self).mems()[k] != component_id@,
                |k: PortView| old(self).mems()[k],
            ),
            !port_connected_component(final(self).conns(), final(self).mems(), component_id@),
    {
        let conns = retain_connections(&self.connections, component_id);
        let mems = retain_memory(&self.memory_connections, component_id);
        self.connections = conns;
        self.memory_connections = mems;
        proof {
            let c = self.conns();
            let mc = self.mems();
            assert forall|k: PortView, t: PortView| c.contains_key(k) && #[trigger] c[k].contains(t)
                implies t.0 != component_id@ by {
                let i = c[k].index_of(t);
                lemma_filter_excludes(old(self).conns()[k], component_id@, i);
            }
        }
    }

    /// Clear all connections
    pub fn clear(&mut self)
        ensures
            final(self).conns() == Map::<PortView, Seq<PortView>>::empty(),
            final(self).sources() == Seq::<PortView>::empty(),
            final(self).mems() == Map::<PortView, IdView>::empty(),
    {
        self.connections.clear();
        self.memory_connections.clear();
        assert(self.conns() =~= Map::<PortView, Seq<PortView>>::empty());
        assert(self.sources() =~= Seq::<PortView>::empty());
        assert(self.mems() =~= Map::<PortView, IdView>::empty());
    }
}

impl Default for ConnectionManager {
    fn default() -> (r: Self)
        ensures
            r.conns() == Map::<PortView, Seq<PortView>>::empty(),
            r.mems() == Map::<PortView, IdView>::empty(),
    {
        Self::new()
    }
}

/// What connecting two ports gives: both components exist, the ports exist,
/// and no source drives the target yet.
pub open spec fn connect_check(
    cm: Map<IdView, ComponentInstance>,
    c: Map<PortView, Seq<PortView>>,
    s: PortView,
    t: PortView,
) -> Result<(), Seq<char>> {
    if !cm.contains_key(s.0) {
        Err("Source component '"@ + s.0.0 + "' not found"@)
    } else if !cm.contains_key(t.0) {
        Err("Target component '"@ + t.0.0 + "' not found"@)
    } else {
        match manager_source_error(cm, s) {
            Some(e) => Err(e),
            None => match manager_target_error(cm, t) {
                Some(e) => Err(e),
                None => if is_driven(c, t) {
                    Err(collision_message(t))
                } else {
                    Ok(())
                },
            },
        }
    }
}

/// What wiring a memory port gives: the checks of `memory_connection_check`,
/// then that the port is not wired yet.
pub open spec fn connect_memory_check(
    cm: Map<IdView, ComponentInstance>,
    mc: Map<PortView, IdView>,
    p: PortView,
    m: IdView,
) -> Result<(), Seq<char>> {
    match memory_connection_check(cm, p, m) {
        Err(e) => Err(e),
        Ok(_) => if mc.contains_key(p) {
            Err(memory_collision_message(p, mc[p]))
        } else {
            Ok(())
        },
    }
}

/// The `i`-th input port of a registered processing component is required and
/// no source drives it.
pub open spec fn required_unconnected(
    cm: Map<IdView, ComponentInstance>,
    c: Map<PortView, Seq<PortView>>,
    id: IdView,
    i: int,
) -> bool {
    cm.contains_key(id) && match cm[id].module {
        ComponentModule::Processing(m) => 0 <= i < m.input_ports@.len() && m.input_ports@[i].required
            && !is_driven(c, (id, m.input_ports@[i].name@)),
        ComponentModule::Memory(_) => false,
    }
}

pub open spec fn required_message(cm: Map<IdView, ComponentInstance>, id: IdView, i: int) -> Seq<char> {
    match cm[id].module {
        ComponentModule::Processing(m) => "Required input port '"@ + m.input_ports@[i].name@ + "' on component '"@
            + id.0 + "' is not connected"@,
        ComponentModule::Memory(_) => Seq::empty(),
    }
}

/// Ports that do not belong to the component.
pub open spec fn not_of(id: IdView) -> spec_fn(PortView) -> bool {
    |t: PortView| t.0 != id
}

/// Some port of the component takes part in a connection.
pub open spec fn port_connected_component(c: Map<PortView, Seq<PortView>>, mc: Map<PortView, IdView>, id: IdView) -> bool {
    (exists|k: PortView| #[trigger] c.contains_key(k) && k.0 == id)
        || (exists|k: PortView, t: PortView| c.contains_key(k) && #[trigger] c[k].contains(t) && t.0 == id)
        || (exists|k: PortView| #[trigger] mc.contains_key(k) && (k.0 == id || mc[k] == id))
}

/// An element of a filtered sequence passes the filter.
proof fn lemma_filter_excludes(s: Seq<PortView>, id: IdView, i: int)
    requires
        0 <= i < s.filter(not_of(id)).len(),
    ensures
        s.filter(not_of(id))[i].0 != id,
{
    let f = s.filter(not_of(id));
    assert(f.contains(f[i]));
    assert(not_of(id)(f[i]));
}

/// Law: connecting a port that no source drives keeps every input port driven
/// by at most one source.
pub proof fn lemma_connect_keeps_drivers_unique(c: Map<PortView, Seq<PortView>>, s: PortView, t: PortView)
    requires
        drivers_unique(c),
        !is_driven(c, t),
    ensures
        drivers_unique(c.insert(s, targets_or_empty(c, s).push(t))),
{
    let old_list = targets_or_empty(c, s);
    let c2 = c.insert(s, old_list.push(t));
    assert forall|k1: PortView, k2: PortView, i: int, j: int|
        c2.contains_key(k1) && c2.contains_key(k2) && 0 <= i < c2[k1].len() && 0 <= j < c2[k2].len()
            && (k1 != k2 || i != j) implies #[trigger] c2[k1][i] != #[trigger] c2[k2][j] by {
        let new1 = k1 == s && i == old_list.len();
        let new2 = k2 == s && j == old_list.len();
        if !new1 {
            assert(c.contains_key(k1) && c[k1][i] == c2[k1][i] && c[k1].contains(c[k1][i]));
        }
        if !new2 {
            assert(c.contains_key(k2) && c[k2][j] == c2[k2][j] && c[k2].contains(c[k2][j]));
        }
        if !new1 && !new2 {
            assert(c[k1][i] != c[k2][j]);
        }
    }
}

/// Copies of the ports that do not belong to the component, in order.
fn filter_targets(targets: &Vec<PortRef>, id: &ComponentId) -> (r: Vec<PortRef>)
    ensures
        port_views(r@) == port_views(targets@).filter(not_of(id@)),
{
    let mut r: Vec<PortRef> = Vec::new();
    let mut j: usize = 0;
    while j < targets.len()
        invariant
            j <= targets@.len(),
            port_views(r@) == port_views(targets@).take(j as int).filter(not_of(id@)),
        decreases targets@.len() - j,
    {
        let ghost before = r@;
        let t = &targets[j];
        proof {
            let pv = port_views(targets@);
            assert(pv.take(j as int + 1) =~= pv.take(j as int).push(pv[j as int]));
            lemma_filter_push(pv.take(j as int), pv[j as int], not_of(id@));
        }
        if !t.0.same_as(id) {
            r.push(t.copy_key());
            proof {
                lemma_port_views_push(before, r@.last());
                assert(r@ == before.push(r@.last()));
            }
        }
        j = j + 1;
    }
    assert(port_views(targets@).take(targets@.len() as int) =~= port_views(targets@));
    r
}

/// The connections that do not start at the component, each without the targets
/// on the component.
fn retain_connections(map: &AssocMap<PortRef, Vec<PortRef>>, id: &ComponentId) -> (r: AssocMap<PortRef, Vec<PortRef>>)
    ensures
        connection_view(r) == Map::new(
            |k: PortView| connection_view(*map).contains_key(k) && k.0 != id@,
            |k: PortView| connection_view(*map)[k].filter(not_of(id@)),
        ),
{
    let ghost c = connection_view(*map);
    let mut r: AssocMap<PortRef, Vec<PortRef>> = AssocMap::new();
    let n = map.len();
    let mut i: usize = 0;
    while i < n
        invariant
            n == map.entries().len(),
            i <= n,
            map.wf(),
            c == connection_view(*map),
            connection_view(r) == Map::new(
                |k: PortView| map.key_seq().contains(k) && map.key_seq().index_of(k) < i && k.0 != id@,
                |k: PortView| c[k].filter(not_of(id@)),
            ),
        decreases n - i,
    {
        proof {
            map.lemma_view_at(i as int);
        }
        let key = map.key_at(i);
        let ghost kv = key.key_view();
        assert(kv == map.key_seq()[i as int]);
        let ghost before = connection_view(r);
        if !key.0.same_as(id) {
            let kept = filter_targets(map.value_at(i), id);
            let ghost kept_view = port_views(kept@);
            r.insert(key.copy_key(), kept);
            proof {
                assert(connection_view(r) =~= before.insert(kv, kept_view));
            }
        }
        proof {
            assert forall|k: PortView| #[trigger] map.key_seq().contains(k) implies
                (map.key_seq().index_of(k) < i + 1 <==> (map.key_seq().index_of(k) < i || k == kv)) by {
                let x = map.key_seq().index_of(k);
                lemma_index_of_distinct(map.key_seq(), x);
            }
            assert(connection_view(r) =~= Map::new(
                |k: PortView| map.key_seq().contains(k) && map.key_seq().index_of(k) < i + 1 && k.0 != id@,
                |k: PortView| c[k].filter(not_of(id@)),
            ));
        }
        i = i + 1;
    }
    proof {
        assert forall|k: PortView| #[trigger] map.key_seq().contains(k) implies map.key_seq().index_of(k) < n by {}
        assert(connection_view(r) =~= Map::new(
            |k: PortView| c.contains_key(k) && k.0 != id@,
            |k: PortView| c[k].filter(not_of(id@)),
        ));
    }
    r
}

/// The memory connections that neither belong to the component nor lead to it.
fn retain_memory(map: &AssocMap<PortRef, ComponentId>, id: &ComponentId) -> (r: AssocMap<PortRef, ComponentId>)
    ensures
        memory_view(r) == Map::new(
            |k: PortView| memory_view(*map).contains_key(k) && k.0 != id@ && memory_view(*map)[k] != id@,
            |k: PortView| memory_view(*map)[k],
        ),
{
    let ghost mc = memory_view(*map);
    let mut r: AssocMap<PortRef, ComponentId> = AssocMap::new();
    let n = map.len();
    let mut i: usize = 0;
    while i < n
        invariant
            n == map.entries().len(),
            i <= n,
            map.wf(),
            mc == memory_view(*map),
            memory_view(r) == Map::new(
                |k: PortView| map.key_seq().contains(k) && map.key_seq().index_of(k) < i && k.0 != id@ && mc[k] != id@,
                |k: PortView| mc[k],
            ),
        decreases n - i,
    {
        proof {
            map.lemma_view_at(i as int);
        }
        let key = map.key_at(i);
        let memory_id = map.value_at(i);
        let ghost kv = key.key_view();
        assert(kv == map.key_seq()[i as int]);
        assert(mc[kv] == memory_id@);
        let ghost before = memory_view(r);
        if !key.0.same_as(id) && !memory_id.same_as(id) {
            r.insert(key.copy_key(), memory_id.duplicate());
            proof {
                assert(memory_view(r) =~= before.insert(kv, mc[kv]));
            }
        }
        proof {
            assert forall|k: PortView| #[trigger] map.key_seq().contains(k) implies
                (map.key_seq().index_of(k) < i + 1 <==> (map.key_seq().index_of(k) < i || k == kv)) by {
                let x = map.key_seq().index_of(k);
                lemma_index_of_distinct(map.key_seq(), x);
            }
            assert(memory_view(r) =~= Map::new(
                |k: PortView| map.key_seq().contains(k) && map.key_seq().index_of(k) < i + 1 && k.0 != id@
                    && mc[k] != id@,
                |k: PortView| mc[k],
            ));
        }
        i = i + 1;
    }
    proof {
        assert(memory_view(r) =~= Map::new(
            |k: PortView| mc.contains_key(k) && k.0 != id@ && mc[k] != id@,
            |k: PortView| mc[k],
        ));
    }
    r
}

/// Checks that every required input port of every processing component is
/// driven, going through the components in order; the first one that is not
/// is reported.
pub(crate) fn check_required_inputs(
    comps: &AssocMap<ComponentId, ComponentInstance>,
    connections: &AssocMap<PortRef, Vec<PortRef>>,
) -> (r: Result<(), String>)
    ensures
        r is Ok <==> !exists|id: IdView, i: int| #[trigger] required_unconnected(comps.as_map(),
            connection_view(*connections), id, i),
        match r {
            Ok(_) => true,
            Err(e) => exists|id: IdView, i: int| #[trigger] required_unconnected(comps.as_map(),
                connection_view(*connections), id, i) && e@ == required_message(comps.as_map(), id, i),
        },
{
    let ghost cm = comps.as_map();
    let ghost c = connection_view(*connections);
    let n = comps.len();
    let mut a: usize = 0;
    while a < n
        invariant
            n == comps.entries().len(),
            a <= n,
            comps.wf(),
            comps.as_map() == cm,
            c == connection_view(*connections),
            forall|x: int, i: int| 0 <= x < a ==> !#[trigger] required_unconnected(cm, c, comps.key_seq()[x], i),
        decreases n - a,
    {
        proof {
            comps.lemma_view_at(a as int);
        }
        let id = comps.key_at(a);
        let instance = comps.value_at(a);
        let ghost idv = comps.key_seq()[a as int];
        assert(idv == id@);
        assert(cm[idv] == *instance);
        match &instance.module {
            ComponentModule::Processing(proc_module) => {
                let mut j: usize = 0;
                while j < proc_module.input_ports.len()
                    invariant
                        j <= proc_module.input_ports@.len(),
                        cm == comps.as_map(),
                        cm.contains_key(idv),
                        cm[idv].module == ComponentModule::Processing(*proc_module),
                        c == connection_view(*connections),
                        idv == id@,
                        forall|i: int| 0 <= i < j ==> !#[trigger] required_unconnected(cm, c, idv, i),
                    decreases proc_module.input_ports@.len() - j,
                {
                    let spec = &proc_module.input_ports[j];
                    if spec.required && !driven(connections, id, spec.name.as_str()) {
                        assert(required_unconnected(cm, c, idv, j as int));
                        let e = join5("Required input port '", spec.name.as_str(), "' on component '",
                            id.id(), "' is not connected");
                        assert(e@ == required_message(cm, idv, j as int));
                        return Err(e);
                    }
                    j = j + 1;
                }
            },
            ComponentModule::Memory(_) => {},
        }
        assert(forall|i: int| !#[trigger] required_unconnected(cm, c, idv, i));
        a = a + 1;
    }
    proof {
        if exists|id: IdView, i: int| #[trigger] required_unconnected(cm, c, id, i) {
            let (id, i) = choose|id: IdView, i: int| #[trigger] required_unconnected(cm, c, id, i);
            let x = comps.key_seq().index_of(id);
            comps.lemma_view_at(x);
            assert(!required_unconnected(cm, c, comps.key_seq()[x], i));
        }
    }
    Ok(())
}

} // verus!
