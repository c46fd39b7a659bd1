use vstd::prelude::*;
use crate::assoc::AssocMap;
use crate::modules::{ComponentInstance, ComponentModule, module_copy};
use crate::strings::{decimal, decimal_string, join3, join5, lemma_decimal_injective, owned, str_eq};
use crate::types::{ComponentId, IdView, id_views};
use crate::maps::string_views;

verus! {

/// The identifier made for the `n`-th automatically named component of a module.
pub open spec fn generated_id(module_name: Seq<char>, n: nat) -> IdView {
    (module_name + "_"@ + decimal(n), module_name)
}

/// The counter after `k` more identifiers were made, wrapping as an unsigned
/// 64-bit counter does.
pub open spec fn counter_after(c: u64, k: nat) -> nat {
    ((c + k) % 0x1_0000_0000_0000_0000) as nat
}

pub open spec fn not_found_message(module_name: Seq<char>) -> Seq<char> {
    "Component module '"@ + module_name + "' not found"@
}

/// Two sequences with a common prefix are equal when what follows it is.
proof fn lemma_prefix_cancel(p: Seq<char>, x: Seq<char>, y: Seq<char>)
    requires
        p + x == p + y,
    ensures
        x == y,
{
    assert(x =~= (p + x).skip(p.len() as int));
    assert(y =~= (p + y).skip(p.len() as int));
}

/// Law: the identifiers made from different counter values differ, whatever
/// the modules.
pub proof fn lemma_generated_ids_distinct(a: Seq<char>, b: Seq<char>, m: nat, n: nat)
    requires
        m != n,
    ensures
        generated_id(a, m) != generated_id(b, n),
{
    if a == b && generated_id(a, m) == generated_id(b, n) {
        assert(a + "_"@ + decimal(m) == (a + "_"@) + decimal(m));
        assert(a + "_"@ + decimal(n) == (a + "_"@) + decimal(n));
        lemma_prefix_cancel(a + "_"@, decimal(m), decimal(n));
        lemma_decimal_injective(m, n);
    }
}

/// Law: the identifiers made with one prefix and different numbers differ.
pub proof fn lemma_prefixed_ids_distinct(prefix: Seq<char>, module_name: Seq<char>, m: nat, n: nat)
    requires
        m != n,
    ensures
        (prefix + "_"@ + decimal(m), module_name) != (prefix + "_"@ + decimal(n), module_name),
{
    if prefix + "_"@ + decimal(m) == prefix + "_"@ + decimal(n) {
        assert(prefix + "_"@ + decimal(m) == (prefix + "_"@) + decimal(m));
        assert(prefix + "_"@ + decimal(n) == (prefix + "_"@) + decimal(n));
        lemma_prefix_cancel(prefix + "_"@, decimal(m), decimal(n));
        lemma_decimal_injective(m, n);
    }
}

/// Number of processing modules in `s`.
pub open spec fn count_processing_modules(s: Seq<ComponentModule>) -> nat
    decreases s.len(),
{
    if s.len() == 0 {
        0
    } else {
        count_processing_modules(s.drop_last()) + if s.last() is Processing { 1nat } else { 0nat }
    }
}

/// Number of memory modules in `s`.
pub open spec fn count_memory_modules(s: Seq<ComponentModule>) -> nat
    decreases s.len(),
{
    if s.len() == 0 {
        0
    } else {
        count_memory_modules(s.drop_last()) + if s.last() is Memory { 1nat } else { 0nat }
    }
}

proof fn lemma_module_counts(s: Seq<ComponentModule>)
    ensures
        count_processing_modules(s) + count_memory_modules(s) == s.len(),
    decreases s.len(),
{
    if s.len() > 0 {
        lemma_module_counts(s.drop_last());
    }
}

/// The `i`-th input port of the module is required and not among the
/// connected ports.
pub open spec fn required_port_missing(m: ComponentModule, connected: Seq<Seq<char>>, i: int) -> bool {
    match m {
        ComponentModule::Processing(p) => 0 <= i < p.input_ports@.len() && p.input_ports@[i].required
            && !connected.contains(p.input_ports@[i].name@),
        ComponentModule::Memory(_) => false,
    }
}

/// Statistics about the component manager state
#[derive(Debug, Clone)]
pub struct ComponentManagerStats {
    pub total_modules: usize,
    pub processing_modules: usize,
    pub memory_modules: usize,
    pub components_created: u64,
}

/// Manages component module templates and creates component instances
pub struct ComponentManager {
    /// Registry of component module templates by name
    module_templates: AssocMap<String, ComponentModule>,
    /// Counter for automatic ID generation
    id_counter: u64,
}

impl ComponentManager {
    /// The registered templates by name.
    pub closed spec fn templates(&self) -> Map<Seq<char>, ComponentModule> {
        self.module_templates.as_map()
    }

    /// The template names in registration order.
    pub closed spec fn template_order(&self) -> Seq<Seq<char>> {
        self.module_templates.key_seq()
    }

    /// How many identifiers have been made, as the counter holds it.
    pub closed spec fn counter(&self) -> u64 {
        self.id_counter
    }

    /// Create a new component manager
    pub fn new() -> (r: Self)
        ensures
            r.templates() == Map::<Seq<char>, ComponentModule>::empty(),
            r.template_order() == Seq::<Seq<char>>::empty(),
            r.counter() == 0,
    {
        let r = ComponentManager { module_templates: AssocMap::new(), id_counter: 0 };
        assert(r.template_order() =~= Seq::<Seq<char>>::empty());
        r
    }

    /// Register a component module template under a name not yet taken
    pub fn register_module(&mut self, name: &str, module: ComponentModule) -> (r: Result<(), String>)
        ensures
            r is Ok <==> !old(self).templates().contains_key(name@),
            final(self).counter() == old(self).counter(),
            match r {
                Ok(_) => final(self).templates() == old(self).templates().insert(name@, module)
                    && final(self).template_order() == old(self).template_order().push(name@),
                Err(e) => final(self).templates() == old(self).templates()
                    && final(self).template_order() == old(self).template_order()
                    && e@ == "Component module '"@ + name@ + "' is already registered"@,
            },
    {
        let key = owned(name);
        if self.module_templates.contains_key(&key) {
            return Err(join3("Component module '", name, "' is already registered"));
        }
        self.module_templates.insert(key, module);
        Ok(())
    }

    /// Create a component instance with a specific ID from a registered template
    pub fn create_component(&self, module_name: &str, id_string: String) -> (r: Result<ComponentInstance, String>)
        ensures
            r is Ok <==> self.templates().contains_key(module_name@),
            match r {
                Ok(c) => c.id@ == (id_string@, module_name@) && module_copy(c.module, self.templates()[module_name@]),
                Err(e) => e@ == not_found_message(module_name@),
            },
    {
        let key = owned(module_name);
        match self.module_templates.get(&key) {
            None => Err(join3("Component module '", module_name, "' not found")),
            Some(template) => {
                let module = template.duplicate();
                let component_id = ComponentId::new(id_string, owned(module_name));
                Ok(ComponentInstance { id: component_id, module })
            },
        }
    }

    /// Generate a unique component ID: the module name, an underscore and the
    /// counter, which then advances
    pub fn generate_unique_id(&mut self, module_name: &str) -> (r: ComponentId)
        ensures
            r@ == generated_id(module_name@, old(self).counter() as nat),
            final(self).counter() == counter_after(old(self).counter(), 1),
            final(self).templates() == old(self).templates(),
            final(self).template_order() == old(self).template_order(),
    {
        let counter = self.id_counter;
        self.id_counter = counter.wrapping_add(1);
        let number = decimal_string(counter);
        let id_string = join3(module_name, "_", number.as_str());
        ComponentId::new(id_string, owned(module_name))
    }

    /// Create a component instance with an automatically generated ID; the
    /// counter advances whether or not the template exists
    pub fn create_component_auto_id(&mut self, module_name: &str) -> (r: Result<ComponentInstance, String>)
        ensures
            r is Ok <==> old(self).templates().contains_key(module_name@),
            final(self).counter() == counter_after(old(self).counter(), 1),
            final(self).templates() == old(self).templates(),
            final(self).template_order() == old(self).template_order(),
            match r {
                Ok(c) => c.id@ == generated_id(module_name@, old(self).counter() as nat)
                    && module_copy(c.module, old(self).templates()[module_name@]),
                Err(e) => e@ == not_found_message(module_name@),
            },
    {
        let id = self.generate_unique_id(module_name);
        self.create_component(module_name, owned(id.id()))
    }

    /// Check if a module template exists
    pub fn has_module(&self, name: &str) -> (b: bool)
        ensures
            b == self.templates().contains_key(name@),
    {
        self.module_templates.contains_key(&owned(name))
    }

    /// Get the names of all registered modules, in registration order
    pub fn module_names(&self) -> (r: Vec<String>)
        ensures
            string_views(r@) == self.template_order(),
    {
        let mut r: Vec<String> = Vec::new();
        let n = self.module_templates.len();
        let mut i: usize = 0;
        while i < n
            invariant
                n == self.module_templates.entries().len(),
                i <= n,
                string_views(r@) == self.module_templates.key_seq().take(i as int),
            decreases n - i,
        {
            let ghost before = r@;
            r.push(self.module_templates.key_at(i).clone());
            proof {
                assert(string_views(r@) =~= string_views(before).push(
                    self.module_templates.key_seq()[i as int],
                ));
                assert(self.module_templates.key_seq().take(i as int + 1) =~= self.module_templates.key_seq().take(
                    i as int,
                ).push(self.module_templates.key_seq()[i as int]));
            }
            i = i + 1;
        }
        assert(self.module_templates.key_seq().take(n as int) =~= self.module_templates.key_seq());
        r
    }

    /// Get a reference to a module template
    pub fn get_module(&self, name: &str) -> (r: Option<&ComponentModule>)
        ensures
            match r {
                Some(m) => self.templates().contains_key(name@) && *m == self.templates()[name@],
                None => !self.templates().contains_key(name@),
            },
    {
        self.module_templates.get(&owned(name))
    }

    /// Create several components of one module with generated IDs.  With a
    /// count of zero nothing is made; otherwise an unknown module fails at the
    /// first one, after the counter advanced once.
    pub fn create_components(&mut self, module_name: &str, count: usize) -> (r: Result<Vec<ComponentInstance>, String>)
        ensures
            final(self).templates() == old(self).templates(),
            final(self).template_order() == old(self).template_order(),
            r is Ok <==> (count == 0 || old(self).templates().contains_key(module_name@)),
            match r {
                Ok(v) => v@.len() == count && final(self).counter() == counter_after(old(self).counter(), count as nat)
                    && forall|i: int| 0 <= i < count ==> (#[trigger] v@[i]).id@ == generated_id(
                        module_name@,
                        counter_after(old(self).counter(), i as nat),
                    ) && module_copy(v@[i].module, old(self).templates()[module_name@]),
                Err(e) => e@ == not_found_message(module_name@) && final(self).counter() == counter_after(
                    old(self).counter(),
                    1,
                ),
            },
            count <= u64::MAX - old(self).counter() ==> match r {
                Ok(v) => id_views(v@.map_values(|c: ComponentInstance| c.id)).no_duplicates(),
                Err(_) => true,
            },
    {
        let ghost c0 = self.id_counter;
        let mut components: Vec<ComponentInstance> = Vec::new();
        let mut k: usize = 0;
        while k < count
            invariant
                k <= count,
                components@.len() == k,
                self.templates() == old(self).templates(),
                self.template_order() == old(self).template_order(),
                c0 == old(self).counter(),
                k > 0 ==> old(self).templates().contains_key(module_name@),
                self.counter() == counter_after(c0, k as nat),
                forall|i: int| 0 <= i < k ==> (#[trigger] components@[i]).id@ == generated_id(
                    module_name@,
                    counter_after(c0, i as nat),
                ) && module_copy(components@[i].module, old(self).templates()[module_name@]),
            decreases count - k,
        {
            let ghost before = self.counter();
            match self.create_component_auto_id(module_name) {
                Ok(c) => {
                    components.push(c);
                },
                Err(e) => {
                    return Err(e);
                },
            }
            proof {
                assert(counter_after(c0, k as nat + 1) == counter_after(before, 1)) by (nonlinear_arith)
                    requires
                        before == counter_after(c0, k as nat),
                ;
            }
            k = k + 1;
        }
        proof {
            if count <= u64::MAX - c0 {
                let ids = id_views(components@.map_values(|c: ComponentInstance| c.id));
                assert forall|a: int, b: int| 0 <= a < ids.len() && 0 <= b < ids.len() && a != b implies ids[a]
                    != ids[b] by {
                    assert(ids[a] == components@[a].id@);
                    assert(ids[b] == components@[b].id@);
                    assert(counter_after(c0, a as nat) == c0 + a);
                    assert(counter_after(c0, b as nat) == c0 + b);
                    lemma_generated_ids_distinct(module_name@, module_name@, counter_after(c0, a as nat),
                        counter_after(c0, b as nat));
                }
            }
        }
        Ok(components)
    }

    /// Create components whose IDs are a prefix, an underscore and their
    /// position; with a count of zero nothing is made
    pub fn create_components_with_prefix(&self, module_name: &str, prefix: &str, count: usize) -> (r: Result<
        Vec<ComponentInstance>,
        String,
    >)
        ensures
            r is Ok <==> (count == 0 || self.templates().contains_key(module_name@)),
            match r {
                Ok(v) => v@.len() == count && (forall|i: int| 0 <= i < count ==> (#[trigger] v@[i]).id@ == (
                    prefix@ + "_"@ + decimal(i as nat),
                    module_name@,
                ) && module_copy(v@[i].module, self.templates()[module_name@]))
                    && id_views(v@.map_values(|c: ComponentInstance| c.id)).no_duplicates(),
                Err(e) => e@ == not_found_message(module_name@),
            },
    {
        let mut components: Vec<ComponentInstance> = Vec::new();
        let mut i: usize = 0;
        while i < count
            invariant
                i <= count,
                components@.len() == i,
                i > 0 ==> self.templates().contains_key(module_name@),
                forall|j: int| 0 <= j < i ==> (#[trigger] components@[j]).id@ == (
                    prefix@ + "_"@ + decimal(j as nat),
                    module_name@,
                ) && module_copy(components@[j].module, self.templates()[module_name@]),
            decreases count - i,
        {
            let number = decimal_string(i as u64);
            let id_string = join3(prefix, "_", number.as_str());
            match self.create_component(module_name, id_string) {
                Ok(c) => components.push(c),
                Err(e) => return Err(e),
            }
            i = i + 1;
        }
        proof {
            let ids = id_views(components@.map_values(|c: ComponentInstance| c.id));
            assert forall|a: int, b: int| 0 <= a < ids.len() && 0 <= b < ids.len() && a != b implies ids[a]
                != ids[b] by {
                assert(ids[a] == components@[a].id@);
                assert(ids[b] == components@[b].id@);
                lemma_prefixed_ids_distinct(prefix@, module_name@, a as nat, b as nat);
            }
        }
        Ok(components)
    }

    /// Validate that every required input port of a module is among the
    /// connected ports; the first one missing is reported
    pub fn validate_component_ports(&self, module_name: &str, connected_ports: &[String]) -> (r: Result<(), String>)
        ensures
            r is Ok <==> self.templates().contains_key(module_name@) && forall|i: int| !#[trigger] required_port_missing(
                self.templates()[module_name@],
                string_views(connected_ports@),
                i,
            ),
            match r {
                Ok(_) => true,
                Err(e) => if !self.templates().contains_key(module_name@) {
                    e@ == not_found_message(module_name@)
                } else {
                    exists|i: int| #[trigger] required_port_missing(
                        self.templates()[module_name@],
                        string_views(connected_ports@),
                        i,
                    ) && (forall|j: int| 0 <= j < i ==> !required_port_missing(
                        self.templates()[module_name@],
                        string_views(connected_ports@),
                        j,
                    )) && e@ == "Required input port '"@ + match self.templates()[module_name@] {
                        ComponentModule::Processing(p) => p.input_ports@[i].name@,
                        ComponentModule::Memory(_) => Seq::empty(),
                    } + "' is not connected for component type '"@ + module_name@ + "'"@
                },
            },
    {
        let ghost connected = string_views(connected_ports@);
        let template = match self.module_templates.get(&owned(module_name)) {
            Some(t) => t,
            None => return Err(join3("Component module '", module_name, "' not found")),
        };
        match template {
            ComponentModule::Processing(proc_module) => {
                let mut i: usize = 0;
                while i < proc_module.input_ports.len()
                    invariant
                        i <= proc_module.input_ports@.len(),
                        *template == ComponentModule::Processing(*proc_module),
                        self.templates().contains_key(module_name@),
                        self.templates()[module_name@] == *template,
                        connected == string_views(connected_ports@),
                        forall|j: int| 0 <= j < i ==> !#[trigger] required_port_missing(*template, connected, j),
                    decreases proc_module.input_ports@.len() - i,
                {
                    let spec = &proc_module.input_ports[i];
                    if spec.required && !slice_contains(connected_ports, spec.name.as_str()) {
                        assert(required_port_missing(*template, connected, i as int));
                        return Err(join5("Required input port '", spec.name.as_str(),
                            "' is not connected for component type '", module_name, "'"));
                    }
                    i = i + 1;
                }
                assert forall|j: int| !#[trigger] required_port_missing(*template, connected, j) by {
                    if 0 <= j < i {
                    }
                }
            },
            ComponentModule::Memory(_) => {},
        }
        Ok(())
    }

    /// Get statistics about registered modules
    pub fn get_module_stats(&self) -> (r: ComponentManagerStats)
        ensures
            r.total_modules == self.templates().dom().len(),
            r.processing_modules == count_processing_modules(
                self.template_order().map_values(|k: Seq<char>| self.templates()[k]),
            ),
            r.memory_modules == count_memory_modules(
                self.template_order().map_values(|k: Seq<char>| self.templates()[k]),
            ),
            r.components_created == self.counter(),
    {
        let n = self.module_templates.len();
        let ghost ms = self.template_order().map_values(|k: Seq<char>| self.templates()[k]);
        let mut processing_count: usize = 0;
        let mut memory_count: usize = 0;
        let mut i: usize = 0;
        while i < n
            invariant
                n == self.module_templates.entries().len(),
                i <= n,
                self.module_templates.wf(),
                ms == self.template_order().map_values(|k: Seq<char>| self.templates()[k]),
                processing_count == count_processing_modules(ms.take(i as int)),
                memory_count == count_memory_modules(ms.take(i as int)),
            decreases n - i,
        {
            proof {
                self.module_templates.lemma_view_at(i as int);
                assert(ms.take(i as int + 1).drop_last() =~= ms.take(i as int));
                lemma_module_counts(ms.take(i as int));
            }
            match self.module_templates.value_at(i) {
                ComponentModule::Processing(_) => processing_count = processing_count + 1,
                ComponentModule::Memory(_) => memory_count = memory_count + 1,
            }
            i = i + 1;
        }
        assert(ms.take(n as int) =~= ms);
        proof {
            assert(self.templates().dom() =~= self.module_templates.as_map().dom());
        }
        ComponentManagerStats {
            total_modules: n,
            processing_modules: processing_count,
            memory_modules: memory_count,
            components_created: self.id_counter,
        }
    }
}

/// Whether one of the strings equals the given text.
fn slice_contains(items: &[String], s: &str) -> (b: bool)
    ensures
        b == string_views(items@).contains(s@),
{
    let mut i: usize = 0;
    while i < items.len()
        invariant
            i <= items@.len(),
            forall|j: int| 0 <= j < i ==> items@[j]@ != s@,
        decreases items@.len() - i,
    {
        if str_eq(items[i].as_str(), s) {
            assert(string_views(items@)[i as int] == s@);
            return true;
        }
        i = i + 1;
    }
    proof {
        if string_views(items@).contains(s@) {
            let j = string_views(items@).index_of(s@);
            assert(items@[j]@ == s@);
        }
    }
    false
}

impl Default for ComponentManager {
    fn default() -> (r: Self)
        ensures
            r.templates() == Map::<Seq<char>, ComponentModule>::empty(),
            r.counter() == 0,
    {
        Self::new()
    }
}

} // verus!
