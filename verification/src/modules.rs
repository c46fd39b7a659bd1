use vstd::prelude::*;
use crate::components::{PortSpec, PortType, ProcessorModule, spec_names};
use crate::memory::{MemoryModuleTrait, MemoryStore};
use crate::types::ComponentId;

verus! {

/// The two kinds of component modules.
pub enum ComponentModule {
    Processing(ProcessorModule),
    Memory(MemoryStore),
}

/// The ports of a processing module: inputs, then outputs, then memory ports.
pub open spec fn module_ports(m: ProcessorModule) -> Seq<(Seq<char>, PortType)> {
    spec_names(m.input_ports@).map_values(|n: Seq<char>| (n, PortType::Input))
        + spec_names(m.output_ports@).map_values(|n: Seq<char>| (n, PortType::Output))
        + spec_names(m.memory_ports@).map_values(|n: Seq<char>| (n, PortType::Memory))
}

pub open spec fn port_list_views(s: Seq<(String, PortType)>) -> Seq<(Seq<char>, PortType)> {
    s.map_values(|p: (String, PortType)| (p.0@, p.1))
}

/// The name of a module.
pub open spec fn module_name(m: ComponentModule) -> Seq<char> {
    match m {
        ComponentModule::Processing(p) => p.name@,
        ComponentModule::Memory(s) => s.id_view(),
    }
}

fn push_ports(out: &mut Vec<(String, PortType)>, specs: &Vec<PortSpec>, kind: PortType)
    ensures
        port_list_views(final(out)@) == port_list_views(old(out)@)
            + spec_names(specs@).map_values(|n: Seq<char>| (n, kind)),
{
    let ghost start = port_list_views(out@);
    let mut i: usize = 0;
    while i < specs.len()
        invariant
            i <= specs@.len(),
            port_list_views(out@) == start + spec_names(specs@).take(i as int).map_values(|n: Seq<char>| (n, kind)),
        decreases specs@.len() - i,
    {
        let ghost before = out@;
        out.push((specs[i].name.clone(), kind.duplicate()));
        proof {
            assert(port_list_views(out@) =~= port_list_views(before).push((specs@[i as int].name@, kind)));
            assert(spec_names(specs@).take(i as int + 1).map_values(|n: Seq<char>| (n, kind))
                =~= spec_names(specs@).take(i as int).map_values(|n: Seq<char>| (n, kind)).push((specs@[i as int].name@, kind)));
        }
        i = i + 1;
    }
    assert(spec_names(specs@).take(specs@.len() as int) =~= spec_names(specs@));
}

/// `r` is a copy of `m`: the same name, kind and ports, or the same memory
/// contents.
pub open spec fn module_copy(r: ComponentModule, m: ComponentModule) -> bool {
    &&& module_name(r) == module_name(m)
    &&& (r is Processing <==> m is Processing)
    &&& match (r, m) {
        (ComponentModule::Processing(a), ComponentModule::Processing(b)) =>
            spec_names(a.input_ports@) == spec_names(b.input_ports@)
            && spec_names(a.output_ports@) == spec_names(b.output_ports@)
            && spec_names(a.memory_ports@) == spec_names(b.memory_ports@)
            && a.input_ports@.len() == b.input_ports@.len()
            && forall|i: int| 0 <= i < a.input_ports@.len() ==> (#[trigger] a.input_ports@[i]).required
                == b.input_ports@[i].required,
        (ComponentModule::Memory(a), ComponentModule::Memory(b)) =>
            a.id_view() == b.id_view() && a.data_kind() == b.data_kind() && a.current() == b.current()
            && a.snapshot_state() == b.snapshot_state(),
        _ => false,
    }
}

impl ComponentModule {
    /// Get the name of this component module
    pub fn name(&self) -> (r: &str)
        ensures
            r@ == module_name(*self),
    {
        match self {
            ComponentModule::Processing(module) => module.name.as_str(),
            ComponentModule::Memory(module) => module.memory_id(),
        }
    }

    /// Check if this is a processing module
    pub fn is_processing(&self) -> (b: bool)
        ensures
            b == (*self is Processing),
    {
        match self {
            ComponentModule::Processing(_) => true,
            _ => false,
        }
    }

    /// Check if this is a memory module
    pub fn is_memory(&self) -> (b: bool)
        ensures
            b == (*self is Memory),
    {
        match self {
            ComponentModule::Memory(_) => true,
            _ => false,
        }
    }

    /// Get as processing module
    pub fn as_processing(&self) -> (r: Option<&ProcessorModule>)
        ensures
            match *self {
                ComponentModule::Processing(p) => r == Some(&p),
                _ => r is None,
            },
    {
        match self {
            ComponentModule::Processing(module) => Some(module),
            _ => None,
        }
    }

    /// Get as memory module
    pub fn as_memory(&self) -> (r: Option<&MemoryStore>)
        ensures
            match *self {
                ComponentModule::Memory(m) => r == Some(&m),
                _ => r is None,
            },
    {
        match self {
            ComponentModule::Memory(module) => Some(module),
            _ => None,
        }
    }

    /// Get all ports for this component module: a processing module's inputs,
    /// outputs and memory ports, in that order; a memory module has none.
    pub fn ports(&self) -> (r: Vec<(String, PortType)>)
        ensures
            port_list_views(r@) == match *self {
                ComponentModule::Processing(p) => module_ports(p),
                ComponentModule::Memory(_) => Seq::empty(),
            },
    {
        match self {
            ComponentModule::Processing(module) => {
                let mut ports: Vec<(String, PortType)> = Vec::new();
                push_ports(&mut ports, &module.input_ports, PortType::Input);
                push_ports(&mut ports, &module.output_ports, PortType::Output);
                push_ports(&mut ports, &module.memory_ports, PortType::Memory);
                assert(port_list_views(Seq::<(String, PortType)>::empty()) =~= Seq::<(Seq<char>, PortType)>::empty());
                ports
            },
            ComponentModule::Memory(_) => {
                let ports: Vec<(String, PortType)> = Vec::new();
                assert(port_list_views(ports@) =~= Seq::<(Seq<char>, PortType)>::empty());
                ports
            },
        }
    }

    /// A copy of the module.
    pub fn duplicate(&self) -> (r: ComponentModule)
        ensures
            module_copy(r, *self),
    {
        match self {
            ComponentModule::Processing(p) => ComponentModule::Processing(p.duplicate()),
            ComponentModule::Memory(m) => ComponentModule::Memory(m.clone_module()),
        }
    }
}

/// Name and copy of any component module.
pub trait ModuleTrait {
    /// Get the module name/identifier
    fn name(&self) -> &str;

    /// Clone this module
    fn clone_module(&self) -> ComponentModule;
}

impl ModuleTrait for ComponentModule {
    fn name(&self) -> (r: &str)
        ensures
            r@ == module_name(*self),
    {
        ComponentModule::name(self)
    }

    fn clone_module(&self) -> (r: ComponentModule)
        ensures
            module_name(r) == module_name(*self),
            r is Processing <==> *self is Processing,
            module_copy(r, *self),
    {
        self.duplicate()
    }
}

/// A component: its identifier and its module.
pub struct ComponentInstance {
    pub id: ComponentId,
    pub module: ComponentModule,
}

impl ComponentInstance {
    /// Get the component ID
    pub fn id(&self) -> (r: &ComponentId)
        ensures
            r@ == self.id@,
    {
        &self.id
    }

    /// Get the module name
    pub fn module_name(&self) -> (r: &str)
        ensures
            r@ == module_name(self.module),
    {
        self.module.name()
    }

    /// Check if this is a processing component
    pub fn is_processing(&self) -> (b: bool)
        ensures
            b == (self.module is Processing),
    {
        self.module.is_processing()
    }

    /// Check if this is a memory component
    pub fn is_memory(&self) -> (b: bool)
        ensures
            b == (self.module is Memory),
    {
        self.module.is_memory()
    }
}

/// A component built from a module.
pub struct Component {
    pub instance: ComponentInstance,
}

impl Component {
    /// Create a new module-based component
    pub fn new(instance: ComponentInstance) -> (r: Self)
        ensures
            r.instance == instance,
    {
        Component { instance }
    }

    /// Get the component ID
    pub fn id(&self) -> (r: &ComponentId)
        ensures
            r@ == self.instance.id@,
    {
        self.instance.id()
    }

    /// Get the module name
    pub fn module_name(&self) -> (r: &str)
        ensures
            r@ == module_name(self.instance.module),
    {
        self.instance.module_name()
    }

    /// Check if this is a processing component
    pub fn is_processing(&self) -> (b: bool)
        ensures
            b == (self.instance.module is Processing),
    {
        self.instance.is_processing()
    }

    /// Check if this is a memory component
    pub fn is_memory(&self) -> (b: bool)
        ensures
            b == (self.instance.module is Memory),
    {
        self.instance.is_memory()
    }

    /// Get a reference to the underlying component instance
    pub fn instance(&self) -> (r: &ComponentInstance)
        ensures
            *r == self.instance,
    {
        &self.instance
    }
}

} // verus!
