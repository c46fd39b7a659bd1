use vstd::prelude::*;
use crate::assoc::{AssocMap, KeyLike};
use crate::connections::{ConnectionManager, connection_view, connect_check, connect_memory_check, targets_or_empty};
use crate::memory::MemoryStore;
use crate::strings::outcome;
use crate::values::{TypedValue, ValueView};
use crate::components::{ProcessorModule, spec_names};
use crate::contexts::{TypeSafeCentralMemoryProxy, central_effect, central_writes_allowed};
use crate::proxy::{WriteView, memory_step};
use crate::engine::cycle_memory;
use crate::maps::{TypedInputMap, TypedOutputMap, TypedOutputs};
use crate::modules::{ComponentInstance, ComponentModule};
use crate::registry::ComponentRegistry;
use crate::strings::join3;
use crate::types::{ComponentId, IdView, PortRef, PortView, id_views};

verus! {

/// The component exists and is a processing component.
pub open spec fn is_proc(cm: Map<IdView, ComponentInstance>, id: IdView) -> bool {
    cm.contains_key(id) && cm[id].module is Processing
}

/// Some connection from a port of `s` ends at a port of `x`.
pub open spec fn feeds(c: Map<PortView, Seq<PortView>>, s: IdView, x: IdView) -> bool {
    exists|k: PortView, i: int| #[trigger] c.contains_key(k) && k.0 == s && 0 <= i < c[k].len() && (#[trigger] c[k][i]).0 == x
}

/// `x` depends on `s`: another processing component that feeds it.
pub open spec fn depends(cm: Map<IdView, ComponentInstance>, c: Map<PortView, Seq<PortView>>, x: IdView, s: IdView) -> bool {
    s != x && is_proc(cm, s) && feeds(c, s, x)
}

/// A dependency cycle: each component depends on the next, and the last is
/// the first.
pub open spec fn is_cycle(cm: Map<IdView, ComponentInstance>, c: Map<PortView, Seq<PortView>>, p: Seq<IdView>) -> bool {
    &&& p.len() >= 2
    &&& p[0] == p[p.len() - 1]
    &&& forall|i: int| 0 <= i < p.len() - 1 ==> #[trigger] depends(cm, c, p[i], p[i + 1])
}

/// The processing components depend on each other in a cycle.
pub open spec fn has_cycle(cm: Map<IdView, ComponentInstance>, c: Map<PortView, Seq<PortView>>) -> bool {
    exists|p: Seq<IdView>| #[trigger] is_cycle(cm, c, p)
}

/// The text a detected cycle is reported by.
pub open spec fn cycle_message(id: IdView) -> Seq<char> {
    "Cycle detected involving component '"@ + id.0 + "'"@
}

/// Every component comes after the components it depends on: a topological
/// order.
pub open spec fn dependencies_first(cm: Map<IdView, ComponentInstance>, c: Map<PortView, Seq<PortView>>, order: Seq<IdView>) -> bool {
    forall|i: int, j: int|
        0 <= i < order.len() && 0 <= j < order.len() && #[trigger] depends(cm, c, order[i], order[j]) ==> j < i
}

/// Every component comes before the components it depends on.
spec fn dependents_first(cm: Map<IdView, ComponentInstance>, c: Map<PortView, Seq<PortView>>, order: Seq<IdView>) -> bool {
    forall|i: int, j: int|
        0 <= i < order.len() && 0 <= j < order.len() && #[trigger] depends(cm, c, order[i], order[j]) ==> i < j
}

/// The state of the depth-first search: the finished components `done`, in
/// the order they finished, each after what it depends on; the components
/// being visited, `stack`, each depending on the next; none in both.
pub open spec fn search_state(
    cm: Map<IdView, ComponentInstance>,
    c: Map<PortView, Seq<PortView>>,
    stack: Seq<IdView>,
    done: Seq<IdView>,
) -> bool {
    &&& done.no_duplicates()
    &&& stack.no_duplicates()
    &&& forall|i: int| 0 <= i < done.len() ==> is_proc(cm, #[trigger] done[i])
    &&& forall|i: int| 0 <= i < stack.len() ==> is_proc(cm, #[trigger] stack[i])
    &&& forall|i: int| 0 <= i < stack.len() ==> !done.contains(#[trigger] stack[i])
    &&& forall|i: int, s: IdView| 0 <= i < done.len() && #[trigger] depends(cm, c, done[i], s) ==> exists|j: int|
        0 <= j < i && done[j] == s
    &&& forall|i: int| 0 <= i < stack.len() - 1 ==> #[trigger] depends(cm, c, stack[i], stack[i + 1])
}

/// Where a visit reaches a component already on the stack, the stack from
/// there closes a cycle.
proof fn lemma_stack_cycle(
    cm: Map<IdView, ComponentInstance>,
    c: Map<PortView, Seq<PortView>>,
    stack: Seq<IdView>,
    x: IdView,
    q: int,
)
    requires
        forall|i: int| 0 <= i < stack.len() - 1 ==> #[trigger] depends(cm, c, stack[i], stack[i + 1]),
        stack.len() > 0,
        depends(cm, c, stack[stack.len() - 1], x),
        0 <= q < stack.len(),
        stack[q] == x,
    ensures
        is_cycle(cm, c, stack.skip(q).push(x)),
{
    let p = stack.skip(q).push(x);
    assert forall|i: int| 0 <= i < p.len() - 1 implies #[trigger] depends(cm, c, p[i], p[i + 1]) by {
        if i < p.len() - 2 {
            assert(p[i] == stack[q + i] && p[i + 1] == stack[q + i + 1]);
            assert(depends(cm, c, stack[q + i], stack[q + i + 1]));
        } else {
            assert(p[i] == stack[stack.len() - 1]);
        }
    }
}

/// A topological order holding every processing component leaves no room for a
/// dependency cycle.
pub proof fn lemma_dependencies_first_acyclic(
    cm: Map<IdView, ComponentInstance>,
    c: Map<PortView, Seq<PortView>>,
    order: Seq<IdView>,
)
    requires
        dependencies_first(cm, c, order),
        forall|id: IdView| is_proc(cm, id) ==> #[trigger] order.contains(id),
    ensures
        !has_cycle(cm, c),
{
    let rv = order.reverse();
    let n = order.len();
    assert forall|a: int, b: int| 0 <= a < n && 0 <= b < n && #[trigger] depends(cm, c, rv[a], rv[b]) implies a < b by {
        assert(rv[a] == order[n - 1 - a] && rv[b] == order[n - 1 - b]);
        assert(depends(cm, c, order[n - 1 - a], order[n - 1 - b]));
    }
    assert forall|id: IdView| is_proc(cm, id) implies #[trigger] rv.contains(id) by {
        assert(order.contains(id));
        let k = order.index_of(id);
        assert(rv[n - 1 - k] == order[k]);
    }
    lemma_dependents_first_acyclic(cm, c, rv);
}

/// An order with every component before what it depends on, and every
/// processing component in it, leaves no room for a cycle.
proof fn lemma_dependents_first_acyclic(
    cm: Map<IdView, ComponentInstance>,
    c: Map<PortView, Seq<PortView>>,
    order: Seq<IdView>,
)
    requires
        dependents_first(cm, c, order),
        forall|id: IdView| is_proc(cm, id) ==> #[trigger] order.contains(id),
    ensures
        !has_cycle(cm, c),
{
    if has_cycle(cm, c) {
        let p = choose|p: Seq<IdView>| #[trigger] is_cycle(cm, c, p);
        assert forall|k: int| 1 <= k < p.len() implies order.index_of(p[0]) < order.index_of(#[trigger] p[k]) by {
            lemma_chain_increases(cm, c, order, p, k);
        }
        assert(order.index_of(p[0]) < order.index_of(p[p.len() - 1]));
    }
}

/// Along a chain of dependencies, positions in such an order increase.
proof fn lemma_chain_increases(
    cm: Map<IdView, ComponentInstance>,
    c: Map<PortView, Seq<PortView>>,
    order: Seq<IdView>,
    p: Seq<IdView>,
    k: int,
)
    requires
        dependents_first(cm, c, order),
        forall|id: IdView| is_proc(cm, id) ==> #[trigger] order.contains(id),
        p.len() >= 2,
        forall|i: int| 0 <= i < p.len() - 1 ==> #[trigger] depends(cm, c, p[i], p[i + 1]),
        p[0] == p[p.len() - 1],
        1 <= k < p.len(),
    ensures
        order.contains(p[0]),
        order.contains(p[k]),
        order.index_of(p[0]) < order.index_of(p[k]),
    decreases k,
{
    let i = k - 1;
    assert(depends(cm, c, p[i], p[i + 1]));
    let l = p.len() - 2;
    assert(depends(cm, c, p[l], p[l + 1]));
    assert(order.contains(p[k]));
    assert(order.contains(p[0]));
    if k > 1 {
        lemma_chain_increases(cm, c, order, p, k - 1);
    }
    assert(order.contains(p[k - 1])) by {
        if k - 1 > 0 {
            let h = k - 2;
            assert(depends(cm, c, p[h], p[h + 1]));
        }
    }
    let a = order.index_of(p[k - 1]);
    let b = order.index_of(p[k]);
    assert(order[a] == p[k - 1] && order[b] == p[k]);
    assert(depends(cm, c, order[a], order[b]));
}

/// Whether an identifier is in a list of identifiers.
fn contains_id(ids: &Vec<ComponentId>, id: &ComponentId) -> (b: bool)
    ensures
        b == id_views(ids@).contains(id@),
{
    let mut i: usize = 0;
    while i < ids.len()
        invariant
            i <= ids@.len(),
            forall|j: int| 0 <= j < i ==> ids@[j]@ != id@,
        decreases ids@.len() - i,
    {
        if ids[i].same_as(id) {
            assert(id_views(ids@)[i as int] == id@);
            return true;
        }
        i = i + 1;
    }
    proof {
        if id_views(ids@).contains(id@) {
            let j = choose|j: int| 0 <= j < id_views(ids@).len() && id_views(ids@)[j] == id@;
            assert(ids@[j]@ == id@);
        }
    }
    false
}

/// The stack of a search never holds more components than are registered.
proof fn lemma_stack_bounded(cm: Map<IdView, ComponentInstance>, ids: Seq<IdView>, stack: Seq<IdView>)
    requires
        stack.no_duplicates(),
        forall|i: int| 0 <= i < stack.len() ==> is_proc(cm, #[trigger] stack[i]),
        forall|k: IdView| #[trigger] cm.contains_key(k) <==> ids.contains(k),
    ensures
        stack.len() <= ids.len(),
{
    stack.unique_seq_to_set();
    ids.lemma_cardinality_of_set();
    assert(stack.to_set().subset_of(ids.to_set())) by {
        assert forall|k: IdView| stack.to_set().contains(k) implies ids.to_set().contains(k) by {
            let i = stack.index_of(k);
            assert(is_proc(cm, stack[i]));
        }
    }
    vstd::set_lib::lemma_len_subset(stack.to_set(), ids.to_set());
}

/// Some connection stored before position (`i`, `j`) goes from `s` to `x`.
pub open spec fn fed_before(
    c: Map<PortView, Seq<PortView>>,
    keys: Seq<PortView>,
    x: IdView,
    s: IdView,
    i: int,
    j: int,
) -> bool {
    exists|a: int, b: int|
        0 <= a <= i && a < keys.len() && 0 <= b < c[keys[a]].len() && (a < i || b < j) && keys[a].0 == s && (
        #[trigger] c[keys[a]][b]).0 == x
}

/// Runs processing components cycle by cycle on typed values, in an order
/// found by a depth-first search over their connections.
pub struct CycleEngine {
    /// Component registry for managing all components
    component_registry: ComponentRegistry,
    /// Connection manager for handling all connections
    connection_manager: ConnectionManager,
    /// Typed outputs of the last cycle, the inputs of the next
    current_typed_outputs: AssocMap<PortRef, TypedValue>,
    /// Execution order for processing components
    execution_order: Vec<ComponentId>,
    /// Current cycle counter
    current_cycle: u64,
}

impl CycleEngine {
    /// The registered components by identifier.
    pub closed spec fn comps(&self) -> Map<IdView, ComponentInstance> {
        self.component_registry.components_map()
    }

    /// The connections: the targets of each source port.
    pub closed spec fn conns(&self) -> Map<PortView, Seq<PortView>> {
        self.connection_manager.conns()
    }

    /// The memory connections.
    pub closed spec fn mem_conns(&self) -> Map<PortView, IdView> {
        self.connection_manager.mems()
    }

    /// The memory modules by identifier.
    pub closed spec fn memories(&self) -> Map<IdView, MemoryStore> {
        self.component_registry.memory_map()
    }

    /// The execution order.
    pub closed spec fn order(&self) -> Seq<IdView> {
        id_views(self.execution_order@)
    }

    /// The typed outputs of the last cycle, by port.
    pub closed spec fn outputs(&self) -> Map<PortView, TypedValue> {
        self.current_typed_outputs.as_map()
    }

    /// The connected source ports, in the order they were first connected.
    pub closed spec fn sources(&self) -> Seq<PortView> {
        self.connection_manager.sources()
    }

    /// The identifiers in registration order.
    pub closed spec fn ids(&self) -> Seq<IdView> {
        self.component_registry.id_order()
    }

    /// The number of cycles run.
    pub closed spec fn cycle_count(&self) -> u64 {
        self.current_cycle
    }

    /// A new engine with no components
    pub fn new() -> (r: Self)
        ensures
            r.comps() == Map::<IdView, ComponentInstance>::empty(),
            r.conns() == Map::<PortView, Seq<PortView>>::empty(),
            r.mem_conns() == Map::<PortView, IdView>::empty(),
            r.order() == Seq::<IdView>::empty(),
            r.outputs() == Map::<PortView, TypedValue>::empty(),
            r.cycle_count() == 0,
    {
        let r = CycleEngine {
            component_registry: ComponentRegistry::new(),
            connection_manager: ConnectionManager::new(),
            current_typed_outputs: AssocMap::new(),
            execution_order: Vec::new(),
            current_cycle: 0,
        };
        assert(r.order() =~= Seq::<IdView>::empty());
        r
    }

    /// Register a component instance; an identifier can be registered once
    pub fn register_component(&mut self, instance: ComponentInstance) -> (r: Result<(), String>)
        ensures
            r is Ok <==> !old(self).comps().contains_key(instance.id@),
            final(self).comps() == if r is Ok {
                old(self).comps().insert(instance.id@, instance)
            } else {
                old(self).comps()
            },
            final(self).conns() == old(self).conns(),
            final(self).mem_conns() == old(self).mem_conns(),
            final(self).order() == old(self).order(),
            final(self).cycle_count() == old(self).cycle_count(),
    {
        self.component_registry.register_component(instance)
    }

    /// Connect two component ports; an input port takes one driver
    pub fn connect(&mut self, source: PortRef, target: PortRef) -> (r: Result<(), String>)
        ensures
            outcome(r) == connect_check(old(self).comps(), old(self).conns(), source.key_view(), target.key_view()),
            final(self).conns() == if r is Ok {
                old(self).conns().insert(
                    source.key_view(),
                    targets_or_empty(old(self).conns(), source.key_view()).push(target.key_view()),
                )
            } else {
                old(self).conns()
            },
            final(self).comps() == old(self).comps(),
            final(self).mem_conns() == old(self).mem_conns(),
            final(self).order() == old(self).order(),
            final(self).cycle_count() == old(self).cycle_count(),
    {
        self.connection_manager.connect(&self.component_registry, source, target)
    }

    /// Connect a component's memory port to a memory component
    pub fn connect_memory(&mut self, component_id: ComponentId, port: String, memory_id: ComponentId) -> (r: Result<
        (),
        String,
    >)
        ensures
            outcome(r) == connect_memory_check(old(self).comps(), old(self).mem_conns(), (component_id@, port@), memory_id@),
            final(self).mem_conns() == if r is Ok {
                old(self).mem_conns().insert((component_id@, port@), memory_id@)
            } else {
                old(self).mem_conns()
            },
            final(self).comps() == old(self).comps(),
            final(self).conns() == old(self).conns(),
            final(self).order() == old(self).order(),
            final(self).cycle_count() == old(self).cycle_count(),
    {
        self.connection_manager.connect_memory(&self.component_registry, component_id, port, memory_id)
    }

    /// Visit a component in the depth-first search: first the processing
    /// components it depends on, then the component itself joins the order.
    /// Reaching a component still being visited is a cycle.
    fn topological_sort_visit(
        &self,
        component_id: &ComponentId,
        temp_visited: &mut Vec<ComponentId>,
        order: &mut Vec<ComponentId>,
    ) -> (r: Result<(), String>)
        requires
            search_state(self.comps(), self.conns(), id_views(old(temp_visited)@), id_views(old(order)@)),
            is_proc(self.comps(), component_id@),
            old(temp_visited)@.len() > 0 ==> depends(
                self.comps(),
                self.conns(),
                id_views(old(temp_visited)@).last(),
                component_id@,
            ),
        ensures
            match r {
                Ok(_) => search_state(self.comps(), self.conns(), id_views(final(temp_visited)@), id_views(final(order)@))
                    && id_views(final(temp_visited)@) == id_views(old(temp_visited)@) && id_views(old(order)@).is_prefix_of(
                    id_views(final(order)@),
                ) && id_views(final(order)@).contains(component_id@),
                Err(e) => exists|p: Seq<IdView>| #[trigger] is_cycle(self.comps(), self.conns(), p) && e@ == cycle_message(
                    p[0],
                ),
            },
        decreases self.component_registry.id_order().len() - old(temp_visited)@.len(),
    {
        let ghost cm = self.comps();
        let ghost c = self.conns();
        let ghost x = component_id@;
        let ghost ts = id_views(temp_visited@);
        let ghost os0 = id_views(order@);
        if contains_id(temp_visited, component_id) {
            proof {
                let q = ts.index_of(x);
                lemma_stack_cycle(cm, c, ts, x, q);
                let p = ts.skip(q).push(x);
                assert(p[0] == x);
            }
            return Err(join3("Cycle detected involving component '", component_id.id(), "'"));
        }
        if contains_id(order, component_id) {
            assert(os0.is_prefix_of(os0));
            return Ok(());
        }
        temp_visited.push(component_id.duplicate());
        proof {
            assert(id_views(temp_visited@) =~= ts.push(x));
            self.component_registry.lemma_id_order();
            lemma_stack_bounded(cm, self.component_registry.id_order(), ts.push(x));
        }
        let conns = self.connection_manager.connections();
        let ghost keys = conns.key_seq();
        let n = conns.len();
        let mut i: usize = 0;
        while i < n
            invariant
                n == conns.entries().len(),
                i <= n,
                conns.wf(),
                keys == conns.key_seq(),
                connection_view(*conns) == c,
                cm == self.comps(),
                c == self.conns(),
                x == component_id@,
                is_proc(cm, x),
                search_state(cm, c, id_views(temp_visited@), id_views(order@)),
                id_views(temp_visited@) == ts.push(x),
                temp_visited@.len() == ts.len() + 1,
                ts.len() == old(temp_visited)@.len(),
                ts.push(x).len() <= self.component_registry.id_order().len(),
                os0.is_prefix_of(id_views(order@)),
                forall|s: IdView| #[trigger] depends(cm, c, x, s) && fed_before(c, keys, x, s, i as int, 0) ==> id_views(
                    order@,
                ).contains(s),
            decreases n - i,
        {
            proof {
                conns.lemma_view_at(i as int);
            }
            let source = conns.key_at(i);
            let targets = conns.value_at(i);
            let ghost k = keys[i as int];
            assert(k == source.key_view());
            assert(c.contains_key(k) && c[k] == crate::types::port_views(targets@));
            let mut j: usize = 0;
            while j < targets.len()
                invariant
                    n == conns.entries().len(),
                    i < n,
                    keys == conns.key_seq(),
                    connection_view(*conns) == c,
                    k == keys[i as int],
                    k == source.key_view(),
                    c.contains_key(k),
                    c[k] == crate::types::port_views(targets@),
                    j <= targets@.len(),
                    cm == self.comps(),
                    c == self.conns(),
                    x == component_id@,
                    is_proc(cm, x),
                    search_state(cm, c, id_views(temp_visited@), id_views(order@)),
                    id_views(temp_visited@) == ts.push(x),
                    temp_visited@.len() == ts.len() + 1,
                    ts.len() == old(temp_visited)@.len(),
                    ts.push(x).len() <= self.component_registry.id_order().len(),
                    os0.is_prefix_of(id_views(order@)),
                    forall|s: IdView| #[trigger] depends(cm, c, x, s) && fed_before(c, keys, x, s, i as int, j as int)
                        ==> id_views(order@).contains(s),
                decreases targets@.len() - j,
            {
                let target = &targets[j];
                assert(c[k][j as int] == target.key_view());
                let ghost before = id_views(order@);
                if target.0.same_as(component_id) && !source.0.same_as(component_id) {
                    match self.component_registry.get_component(&source.0) {
                        Some(instance) => {
                            if instance.is_processing() {
                                proof {
                                    assert(feeds(c, k.0, x));
                                    assert(depends(cm, c, x, k.0));
                                    assert(id_views(temp_visited@).last() == x);
                                }
                                match self.topological_sort_visit(&source.0, temp_visited, order) {
                                    Ok(_) => {},
                                    Err(e) => return Err(e),
                                }
                            }
                        },
                        None => {},
                    }
                }
                proof {
                    assert forall|s: IdView| #[trigger] depends(cm, c, x, s) && fed_before(c, keys, x, s, i as int, j as int + 1)
                        implies id_views(order@).contains(s) by {
                        let (a, b) = choose|a: int, b: int|
                            0 <= a <= i && a < keys.len() && 0 <= b < c[keys[a]].len() && (a < i || b < j + 1)
                                && keys[a].0 == s && (#[trigger] c[keys[a]][b]).0 == x;
                        if a < i || b < j {
                            assert(fed_before(c, keys, x, s, i as int, j as int));
                            assert(before.contains(s));
                            let y = before.index_of(s);
                            assert(id_views(order@)[y] == s);
                        }
                    }
                }
                j = j + 1;
            }
            proof {
                assert forall|s: IdView| #[trigger] depends(cm, c, x, s) && fed_before(c, keys, x, s, i as int + 1, 0)
                    implies id_views(order@).contains(s) by {
                    let (a, b) = choose|a: int, b: int|
                        0 <= a <= i + 1 && a < keys.len() && 0 <= b < c[keys[a]].len() && (a < i + 1 || b < 0)
                            && keys[a].0 == s && (#[trigger] c[keys[a]][b]).0 == x;
                    assert(fed_before(c, keys, x, s, i as int, targets@.len() as int));
                }
            }
            i = i + 1;
        }
        let ghost osn = id_views(order@);
        let ghost tb = temp_visited@;
        temp_visited.pop();
        assert(temp_visited@ =~= tb.subrange(0, tb.len() - 1));
        assert forall|a: int| 0 <= a < ts.len() implies id_views(temp_visited@)[a] == ts[a] by {
            assert(temp_visited@[a] == tb[a]);
            assert(id_views(tb)[a] == ts.push(x)[a]);
        }
        order.push(component_id.duplicate());
        proof {
            assert(id_views(temp_visited@) =~= ts);
            assert(id_views(order@) =~= osn.push(x));
            assert forall|s: IdView| #[trigger] depends(cm, c, x, s) implies osn.contains(s) by {
                let (kk, b) = choose|kk: PortView, b: int| #[trigger] c.contains_key(kk) && kk.0 == s && 0 <= b < c[kk].len()
                    && (#[trigger] c[kk][b]).0 == x;
                let a = keys.index_of(kk);
                assert(fed_before(c, keys, x, s, n as int, 0));
            }
            assert(!osn.contains(x)) by {
                assert(id_views(temp_visited@).push(x)[ts.len() as int] == x);
            }
            assert(search_state(cm, c, ts, osn.push(x))) by {
                let d = osn.push(x);
                assert forall|a: int, s: IdView| 0 <= a < d.len() && #[trigger] depends(cm, c, d[a], s) implies exists|b: int|
                    0 <= b < a && d[b] == s by {
                    if a < osn.len() {
                        let b = choose|b: int| 0 <= b < a && osn[b] == s;
                        assert(d[b] == s);
                    } else {
                        let b = osn.index_of(s);
                        assert(d[b] == s);
                    }
                }
                assert forall|a: int| 0 <= a < ts.len() implies !d.contains(#[trigger] ts[a]) by {
                    assert(ts.push(x)[a] == ts[a]);
                    if d.contains(ts[a]) {
                        let b = d.index_of(ts[a]);
                        if b < osn.len() {
                            assert(osn[b] == ts[a]);
                        }
                    }
                }
                assert forall|a: int| 0 <= a < ts.len() - 1 implies #[trigger] depends(cm, c, ts[a], ts[a + 1]) by {
                    assert(ts.push(x)[a] == ts[a] && ts.push(x)[a + 1] == ts[a + 1]);
                }
                assert forall|a: int| 0 <= a < ts.len() implies is_proc(cm, #[trigger] ts[a]) by {
                    assert(ts.push(x)[a] == ts[a]);
                }
                assert(ts.no_duplicates()) by {
                    assert forall|a: int, b: int| 0 <= a < b < ts.len() implies ts[a] != ts[b] by {
                        assert(ts.push(x)[a] == ts[a] && ts.push(x)[b] == ts[b]);
                    }
                }
            }
            assert(os0.is_prefix_of(osn.push(x)));
            assert(id_views(order@)[osn.len() as int] == x);
        }
        Ok(())
    }
}

impl CycleEngine {
    /// Build the execution order by a depth-first search from each processing
    /// component in registration order: each component follows the components
    /// it depends on (a topological order); it fails exactly when
    /// the processing components depend on each other in a cycle, and then
    /// leaves the order as it was
    pub fn build_execution_order(&mut self) -> (r: Result<(), String>)
        ensures
            r is Ok <==> !has_cycle(old(self).comps(), old(self).conns()),
            final(self).comps() == old(self).comps(),
            final(self).conns() == old(self).conns(),
            final(self).mem_conns() == old(self).mem_conns(),
            final(self).memories() == old(self).memories(),
            final(self).outputs() == old(self).outputs(),
            final(self).cycle_count() == old(self).cycle_count(),
            match r {
                Ok(_) => final(self).order().no_duplicates() && (forall|id: IdView| #[trigger] final(self).order().contains(id)
                    <==> is_proc(final(self).comps(), id)) && dependencies_first(
                    final(self).comps(),
                    final(self).conns(),
                    final(self).order(),
                ),
                Err(e) => final(self).order() == old(self).order() && exists|p: Seq<IdView>| #[trigger] is_cycle(
                    old(self).comps(),
                    old(self).conns(),
                    p,
                ) && e@ == cycle_message(p[0]),
            },
    {
        let ghost cm = self.comps();
        let ghost c = self.conns();
        let ids = self.component_registry.processing_component_ids();
        let mut temp_visited: Vec<ComponentId> = Vec::new();
        let mut order: Vec<ComponentId> = Vec::new();
        proof {
            assert(id_views(temp_visited@) =~= Seq::<IdView>::empty());
            assert(id_views(order@) =~= Seq::<IdView>::empty());
        }
        let mut i: usize = 0;
        while i < ids.len()
            invariant
                i <= ids@.len(),
                cm == self.comps(),
                c == self.conns(),
                forall|v: IdView| id_views(ids@).contains(v) <==> is_proc(cm, v),
                search_state(cm, c, id_views(temp_visited@), id_views(order@)),
                temp_visited@.len() == 0,
                forall|a: int| 0 <= a < i ==> id_views(order@).contains(#[trigger] id_views(ids@)[a]),
            decreases ids@.len() - i,
        {
            assert(id_views(ids@)[i as int] == ids@[i as int]@);
            assert(id_views(ids@).contains(ids@[i as int]@));
            let ghost before = id_views(order@);
            if !contains_id(&order, &ids[i]) {
                match self.topological_sort_visit(&ids[i], &mut temp_visited, &mut order) {
                    Ok(_) => {},
                    Err(e) => return Err(e),
                }
                proof {
                    assert forall|a: int| 0 <= a < i implies id_views(order@).contains(#[trigger] id_views(ids@)[a]) by {
                        let y = before.index_of(id_views(ids@)[a]);
                        assert(id_views(order@)[y] == before[y]);
                    }
                }
            }
            i = i + 1;
        }
        proof {
            let post = id_views(order@);
            let n = post.len();
            assert forall|id: IdView| #[trigger] post.contains(id) <==> is_proc(cm, id) by {
                if post.contains(id) {
                    let a = post.index_of(id);
                }
                if is_proc(cm, id) {
                    let a = id_views(ids@).index_of(id);
                    assert(post.contains(id_views(ids@)[a]));
                }
            }
            assert forall|a: int, b: int| 0 <= a < n && 0 <= b < n && #[trigger] depends(cm, c, post[a], post[b]) implies b < a by {
                let q = choose|q: int| 0 <= q < a && post[q] == post[b];
            }
            lemma_dependencies_first_acyclic(cm, c, post);
        }
        self.execution_order = order;
        Ok(())
    }

    /// Get current cycle number
    pub fn current_cycle(&self) -> (r: u64)
        ensures
            r == self.cycle_count(),
    {
        self.current_cycle
    }

    /// Get execution order
    pub fn execution_order(&self) -> (r: &[ComponentId])
        ensures
            id_views(r@) == self.order(),
    {
        self.execution_order.as_slice()
    }

    /// Get component by ID
    pub fn get_component(&self, id: &ComponentId) -> (r: Option<&ComponentInstance>)
        ensures
            match r {
                Some(c) => self.comps().contains_key(id@) && *c == self.comps()[id@],
                None => !self.comps().contains_key(id@),
            },
    {
        self.component_registry.get_component(id)
    }
}

/// The context a module is evaluated in by this engine: its typed inputs by
/// port, a memory proxy over the memory modules, and its identifier.
pub struct EvaluationContext {
    /// Typed input values from connected components
    pub inputs: TypedInputMap,
    /// Memory proxy for type-safe memory access
    pub memory: TypeSafeCentralMemoryProxy,
    /// Component ID for context
    pub component_id: ComponentId,
}

/// Evaluates processing modules on typed values: the simulation's user
/// supplies what each module computes from its inputs and memory.
pub trait TypedEvaluator {
    /// Whether evaluating the module named `module` for `component` on `inputs`
    /// may end in `result` (the values it set, by port, or its error) after
    /// making the memory writes `writes`, in order.  An evaluator that says
    /// nothing more allows every result.
    open spec fn evaluates_to(
        &self,
        component: IdView,
        module: Seq<char>,
        inputs: Map<Seq<char>, ValueView>,
        result: Result<Map<Seq<char>, ValueView>, Seq<char>>,
        writes: Seq<WriteView>,
    ) -> bool {
        true
    }

    /// Evaluate a processing module in a context, setting its outputs.  The
    /// context's memory is used through reads and writes of its proxy only:
    /// the writes that took effect are the ones the evaluation names.
    fn evaluate(&self, module: &ProcessorModule, context: &mut EvaluationContext, outputs: &mut TypedOutputMap) -> (r:
        Result<(), String>)
        ensures
            exists|ws: Seq<WriteView>|
                #[trigger] self.evaluates_to(
                    old(context).component_id@,
                    module.name@,
                    value_views(old(context).inputs.values()),
                    typed_evaluation_view(r, final(outputs).values()),
                    ws,
                ) && central_effect(old(context).memory, final(context).memory, ws),
            final(context).component_id@ == old(context).component_id@,
    ;
}

/// The result of an evaluation, by view: the values set, or the error.
pub open spec fn typed_evaluation_view(r: Result<(), String>, values: Map<Seq<char>, TypedValue>) -> Result<
    Map<Seq<char>, ValueView>,
    Seq<char>,
> {
    match r {
        Ok(_) => Ok(value_views(values)),
        Err(e) => Err(e@),
    }
}

/// One component's values, keyed by its ports.
pub open spec fn typed_tagged(id: IdView, o: Map<Seq<char>, ValueView>) -> Map<PortView, ValueView> {
    Map::new(|k: PortView| k.0 == id && o.contains_key(k.1), |k: PortView| o[k.1])
}

/// The outputs of a cycle after one more component: on success its values
/// join them, under the component and port; on failure nothing changes.
pub open spec fn typed_step(
    acc: Map<PortView, ValueView>,
    id: IdView,
    res: Result<Map<Seq<char>, ValueView>, Seq<char>>,
) -> Map<PortView, ValueView> {
    match res {
        Ok(o) => acc.union_prefer_right(typed_tagged(id, o)),
        Err(_) => acc,
    }
}

/// The inputs a processing component gets from the outputs of the last cycle.
pub open spec fn typed_inputs(e: &CycleEngine, id: IdView) -> Map<Seq<char>, ValueView> {
    gathered(
        spec_names(e.comps()[id].module->Processing_0.input_ports@),
        e.conns(),
        e.sources(),
        output_views(e.outputs()),
        id,
    )
}

/// The evaluations of the first `res.len()` components of `ids`: each
/// processing component among them was evaluated on the inputs the last
/// cycle's outputs deliver, its evaluation ended in `res[k]` after making the
/// writes `wss[k]`, each the component's, to a memory one of its memory ports
/// is wired to; other components wrote nothing.
pub open spec fn typed_run<V: TypedEvaluator>(
    ev: &V,
    e: &CycleEngine,
    ids: Seq<IdView>,
    res: Seq<Result<Map<Seq<char>, ValueView>, Seq<char>>>,
    wss: Seq<Seq<WriteView>>,
) -> bool {
    &&& res.len() <= ids.len()
    &&& wss.len() == res.len()
    &&& forall|k: int| 0 <= k < res.len() && is_proc(e.comps(), #[trigger] ids[k]) ==> ev.evaluates_to(
        ids[k],
        e.comps()[ids[k]].module->Processing_0.name@,
        typed_inputs(e, ids[k]),
        res[k],
        wss[k],
    ) && central_writes_allowed(e.mem_conns(), ids[k], wss[k])
    &&& forall|k: int| 0 <= k < res.len() && !is_proc(e.comps(), #[trigger] ids[k]) ==> wss[k].len() == 0
}

/// The outputs after the first `res.len()` components of `ids`: each
/// processing component's step in turn; other components add nothing.
pub open spec fn typed_outputs_of(
    cm: Map<IdView, ComponentInstance>,
    ids: Seq<IdView>,
    res: Seq<Result<Map<Seq<char>, ValueView>, Seq<char>>>,
) -> Map<PortView, ValueView>
    decreases res.len(),
{
    if res.len() == 0 {
        Map::empty()
    } else {
        let prev = typed_outputs_of(cm, ids, res.drop_last());
        let j = res.len() - 1;
        if is_proc(cm, ids[j]) {
            typed_step(prev, ids[j], res[j])
        } else {
            prev
        }
    }
}

/// Adds a component's outputs to the outputs of a cycle: on success each value
/// it set, under the component and the port; on failure nothing.
pub fn merge_typed_outputs(
    acc: &mut AssocMap<PortRef, TypedValue>,
    comp_id: &ComponentId,
    result: &Result<(), String>,
    produced: &AssocMap<String, TypedValue>,
)
    ensures
        output_views(final(acc).as_map()) == typed_step(
            output_views(old(acc).as_map()),
            comp_id@,
            typed_evaluation_view(*result, produced.as_map()),
        ),
{
    if result.is_err() {
        return ;
    }
    let ghost b0 = output_views(acc.as_map());
    let ghost o = value_views(produced.as_map());
    let ghost ks = produced.key_seq();
    let n = produced.len();
    let mut i: usize = 0;
    while i < n
        invariant
            n == produced.entries().len(),
            i <= n,
            produced.wf(),
            ks == produced.key_seq(),
            o == value_views(produced.as_map()),
            output_views(acc.as_map()) == b0.union_prefer_right(Map::new(
                |k: PortView| k.0 == comp_id@ && ks.contains(k.1) && ks.index_of(k.1) < i,
                |k: PortView| o[k.1],
            )),
        decreases n - i,
    {
        proof {
            produced.lemma_view_at(i as int);
        }
        let port = produced.key_at(i);
        let value = produced.value_at(i);
        let ghost pv = port@;
        assert(pv == ks[i as int]);
        assert(o[pv] == value@);
        let ghost before = output_views(acc.as_map());
        let copy = value.duplicate();
        acc.insert((comp_id.duplicate(), port.clone()), copy);
        proof {
            assert(output_views(acc.as_map()) =~= before.insert((comp_id@, pv), value@));
            assert forall|q: Seq<char>| #[trigger] ks.contains(q) implies (ks.index_of(q) < i + 1 <==> (ks.index_of(q) < i
                || q == pv)) by {
                let x = ks.index_of(q);
                crate::assoc::lemma_index_of_distinct(ks, x);
            }
            assert(output_views(acc.as_map()) =~= b0.union_prefer_right(Map::new(
                |k: PortView| k.0 == comp_id@ && ks.contains(k.1) && ks.index_of(k.1) < i + 1,
                |k: PortView| o[k.1],
            )));
        }
        i = i + 1;
    }
    proof {
        assert(Map::new(
            |k: PortView| k.0 == comp_id@ && ks.contains(k.1) && ks.index_of(k.1) < n,
            |k: PortView| o[k.1],
        ) =~= typed_tagged(comp_id@, o));
    }
}

/// The views of a map's typed values.
pub open spec fn value_views(m: Map<Seq<char>, TypedValue>) -> Map<Seq<char>, ValueView> {
    m.map_values(|v: TypedValue| v@)
}

/// The views of the typed outputs, by port.
pub open spec fn output_views(m: Map<PortView, TypedValue>) -> Map<PortView, ValueView> {
    m.map_values(|v: TypedValue| v@)
}

/// What the last of the first `i` stored sources that is connected to
/// `target` and produced a value delivers there.
pub open spec fn delivered(
    c: Map<PortView, Seq<PortView>>,
    keys: Seq<PortView>,
    outs: Map<PortView, ValueView>,
    target: PortView,
    i: nat,
) -> Option<ValueView>
    decreases i,
{
    if i == 0 || i > keys.len() {
        None
    } else if outs.contains_key(keys[i - 1]) && c[keys[i - 1]].contains(target) {
        Some(outs[keys[i - 1]])
    } else {
        delivered(c, keys, outs, target, (i - 1) as nat)
    }
}

/// The inputs a component gets on the named ports: what is delivered to each.
pub open spec fn gathered(
    names: Seq<Seq<char>>,
    c: Map<PortView, Seq<PortView>>,
    keys: Seq<PortView>,
    outs: Map<PortView, ValueView>,
    comp: IdView,
) -> Map<Seq<char>, ValueView> {
    Map::new(
        |q: Seq<char>| names.contains(q) && delivered(c, keys, outs, (comp, q), keys.len()) is Some,
        |q: Seq<char>| delivered(c, keys, outs, (comp, q), keys.len())->0,
    )
}

/// Every memory module's snapshot is its current state.
pub open spec fn snapshots_current(mems: Map<IdView, MemoryStore>) -> bool {
    forall|k: IdView| #[trigger] mems.contains_key(k) ==> mems[k].snapshot_state() == mems[k].current()
}

impl CycleEngine {
    /// The inputs of a component: for each of its input ports, the value
    /// delivered by the last stored connection into it whose source produced
    /// a value last cycle; a port nothing delivers to stays out.
    fn gather_inputs(&self, comp_id: &ComponentId, module: &ProcessorModule) -> (r: TypedInputMap)
        ensures
            value_views(r.values()) == gathered(
                spec_names(module.input_ports@),
                self.conns(),
                self.sources(),
                output_views(self.outputs()),
                comp_id@,
            ),
    {
        let ghost names = spec_names(module.input_ports@);
        let ghost c = self.conns();
        let ghost keys = self.sources();
        let ghost outs = output_views(self.outputs());
        let ghost cv = comp_id@;
        let mut inputs = TypedInputMap::new();
        let conns = self.connection_manager.connections();
        let np = module.input_ports.len();
        let mut p: usize = 0;
        proof {
            assert(value_views(inputs.values()) =~= gathered(names.take(0), c, keys, outs, cv));
        }
        while p < np
            invariant
                np == module.input_ports@.len(),
                p <= np,
                names == spec_names(module.input_ports@),
                c == self.conns(),
                keys == self.sources(),
                outs == output_views(self.outputs()),
                cv == comp_id@,
                connection_view(*conns) == c,
                conns.key_seq() == keys,
                value_views(inputs.values()) == gathered(names.take(p as int), c, keys, outs, cv),
            decreases np - p,
        {
            let port = &module.input_ports[p];
            let ghost name = port.name@;
            let ghost target = (cv, name);
            let ghost base = gathered(names.take(p as int), c, keys, outs, cv);
            assert(names[p as int] == name);
            let n = conns.len();
            let mut i: usize = 0;
            while i < n
                invariant
                    n == conns.entries().len(),
                    i <= n,
                    conns.wf(),
                    connection_view(*conns) == c,
                    conns.key_seq() == keys,
                    c == self.conns(),
                    outs == output_views(self.outputs()),
                    cv == comp_id@,
                    name == port.name@,
                    target == (cv, name),
                    value_views(inputs.values()) == match delivered(c, keys, outs, target, i as nat) {
                        Some(v) => base.insert(name, v),
                        None => base,
                    },
                decreases n - i,
            {
                proof {
                    conns.lemma_view_at(i as int);
                }
                let source = conns.key_at(i);
                let targets = conns.value_at(i);
                let ghost k = keys[i as int];
                assert(k == source.key_view());
                assert(c.contains_key(k) && c[k] == crate::types::port_views(targets@));
                let ghost mid = value_views(inputs.values());
                let mut j: usize = 0;
                while j < targets.len()
                    invariant
                        j <= targets@.len(),
                        c.contains_key(k),
                        c[k] == crate::types::port_views(targets@),
                        k == source.key_view(),
                        outs == output_views(self.outputs()),
                        cv == comp_id@,
                        name == port.name@,
                        target == (cv, name),
                        value_views(inputs.values()) == if outs.contains_key(k) && c[k].take(j as int).contains(target) {
                            base.insert(name, outs[k])
                        } else {
                            mid
                        },
                        mid == match delivered(c, keys, outs, target, i as nat) {
                            Some(v) => base.insert(name, v),
                            None => base,
                        },
                    decreases targets@.len() - j,
                {
                    let t = &targets[j];
                    assert(c[k][j as int] == t.key_view());
                    proof {
                        crate::assoc::lemma_take_one_more(c[k], j as int);
                    }
                    if t.0.same_as(comp_id) && t.1 == port.name {
                        match self.current_typed_outputs.get(source) {
                            Some(v) => {
                                let ghost before = inputs.values();
                                let d = v.duplicate();
                                let nm = port.name.clone();
                                inputs.insert_typed(nm, d);
                                proof {
                                    assert(outs.contains_key(k) && outs[k] == v@);
                                    assert(inputs.values() == before.insert(name, d));
                                    assert(value_views(inputs.values()) =~= value_views(before).insert(name, outs[k]));
                                    assert(value_views(before).insert(name, outs[k]) =~= base.insert(name, outs[k]));
                                }
                            },
                            None => {
                                assert(!outs.contains_key(k));
                            },
                        }
                    }
                    j = j + 1;
                }
                proof {
                    assert(c[k].take(c[k].len() as int) =~= c[k]);
                    assert(keys[(i + 1) - 1] == k);
                    if outs.contains_key(k) && c[k].contains(target) {
                        assert(value_views(inputs.values()) =~= base.insert(name, outs[k]));
                    }
                }
                i = i + 1;
            }
            proof {
                crate::assoc::lemma_take_one_more(names, p as int);
                assert(value_views(inputs.values()) =~= gathered(names.take(p as int + 1), c, keys, outs, cv));
            }
            p = p + 1;
        }
        proof {
            assert(names.take(np as int) =~= names);
        }
        inputs
    }

    /// Run a single simulation cycle: each processing component in the
    /// execution order is evaluated on the outputs of the last cycle, its
    /// outputs kept for the next; a failing component leaves no outputs.  Then
    /// every memory module takes its snapshot and the cycle is counted
    pub fn run_cycle<V: TypedEvaluator>(&mut self, evaluator: &V)
        requires
            old(self).cycle_count() < u64::MAX,
        ensures
            final(self).cycle_count() == old(self).cycle_count() + 1,
            final(self).comps() == old(self).comps(),
            final(self).conns() == old(self).conns(),
            final(self).mem_conns() == old(self).mem_conns(),
            final(self).order() == old(self).order(),
            forall|k: PortView| #[trigger] final(self).outputs().contains_key(k) ==> old(self).order().contains(k.0),
            exists|res: Seq<Result<Map<Seq<char>, ValueView>, Seq<char>>>, wss: Seq<Seq<WriteView>>|
                #[trigger] typed_run(evaluator, &*old(self), old(self).order(), res, wss) && res.len() == old(self).order().len()
                && output_views(final(self).outputs()) == typed_outputs_of(old(self).comps(), old(self).order(), res)
                && cycle_memory(old(self).memories(), final(self).memories(), wss.flatten()),
    {
        let mut new_typed_outputs: AssocMap<PortRef, TypedValue> = AssocMap::new();
        let ghost m0 = self.memories();
        let ghost e0 = *self;
        let ghost mut res: Seq<Result<Map<Seq<char>, ValueView>, Seq<char>>> = Seq::empty();
        let ghost mut wss: Seq<Seq<WriteView>> = Seq::empty();
        proof {
            assert(output_views(new_typed_outputs.as_map()) =~= Map::<PortView, ValueView>::empty());
            assert(wss.flatten() =~= Seq::<WriteView>::empty());
            crate::proxy::lemma_memory_step_none(m0);
        }
        let n = self.execution_order.len();
        let mut i: usize = 0;
        while i < n
            invariant
                n == self.execution_order@.len(),
                i <= n,
                e0 == *old(self),
                self.comps() == old(self).comps(),
                self.conns() == old(self).conns(),
                self.sources() == old(self).sources(),
                self.mem_conns() == old(self).mem_conns(),
                self.order() == old(self).order(),
                self.cycle_count() == old(self).cycle_count(),
                self.outputs() == old(self).outputs(),
                forall|k: PortView| #[trigger] new_typed_outputs.as_map().contains_key(k) ==> self.order().take(i as int).contains(k.0),
                res.len() == i,
                typed_run(evaluator, &e0, e0.order(), res, wss),
                output_views(new_typed_outputs.as_map()) == typed_outputs_of(e0.comps(), e0.order(), res),
                memory_step(m0, self.memories(), wss.flatten()),
            decreases n - i,
        {
            let comp_id = self.execution_order[i].duplicate();
            let ghost cv = comp_id@;
            assert(self.order()[i as int] == cv);
            let ghost old_outputs = new_typed_outputs.as_map();
            let ghost mems_before = self.memories();
            let module = match self.component_registry.get_component(&comp_id) {
                Some(instance) => match &instance.module {
                    ComponentModule::Processing(m) => Some(m.duplicate()),
                    ComponentModule::Memory(_) => None,
                },
                None => None,
            };
            match module {
                Some(module) => {
                    let inputs = self.gather_inputs(&comp_id, &module);
                    let ghost inputs_view = value_views(inputs.values());
                    let memory = TypeSafeCentralMemoryProxy::new(
                        self.component_registry.memory_modules(),
                        self.connection_manager.memory_connections(),
                        comp_id.duplicate(),
                    );
                    let ghost memory0 = memory;
                    let mut context = EvaluationContext { inputs, memory, component_id: comp_id.duplicate() };
                    let mut typed_outputs = TypedOutputMap::new_flexible();
                    let result = evaluator.evaluate(&module, &mut context, &mut typed_outputs);
                    let ghost r = typed_evaluation_view(result, typed_outputs.values());
                    let ghost ws = choose|ws: Seq<WriteView>|
                        #[trigger] evaluator.evaluates_to(cv, module.name@, inputs_view, r, ws)
                        && central_effect(memory0, context.memory, ws);
                    let ghost memory1 = context.memory;
                    self.component_registry.replace_memory_modules(context.memory.into_memory_modules());
                    let produced = typed_outputs.into_map();
                    merge_typed_outputs(&mut new_typed_outputs, &comp_id, &result, &produced);
                    proof {
                        assert(is_proc(e0.comps(), cv));
                        assert(memory_step(mems_before, self.memories(), ws)) by {
                            assert(self.memories() == memory1.modules());
                            assert(memory0.modules().dom() == mems_before.dom());
                            assert forall|k: IdView| #[trigger] mems_before.contains_key(k) implies self.memories()[k].current()
                                == crate::proxy::current_after(mems_before[k].current(), ws, k) && self.memories()[k].snapshot_state()
                                == mems_before[k].snapshot_state() && self.memories()[k].data_kind() == mems_before[k].data_kind()
                                && self.memories()[k].id_view() == mems_before[k].id_view() by {
                                assert(memory0.modules().contains_key(k));
                            }
                        }
                        assert(inputs_view == typed_inputs(&e0, cv));
                        assert(module.name@ == e0.comps()[cv].module->Processing_0.name@);
                        assert(memory0.conns() == e0.mem_conns());
                        lemma_typed_run_push(evaluator, &e0, e0.order(), res, wss, r, ws);
                        crate::proxy::lemma_memory_step_append(m0, mems_before, self.memories(), wss.flatten(), ws);
                        wss.lemma_flatten_push(ws);
                        let res2 = res.push(r);
                        assert(res2.drop_last() =~= res);
                        res = res2;
                        wss = wss.push(ws);
                        assert forall|k: PortView| #[trigger] new_typed_outputs.as_map().contains_key(k)
                            implies self.order().take(i as int + 1).contains(k.0) by {
                            assert(output_views(new_typed_outputs.as_map()).contains_key(k));
                            if old_outputs.contains_key(k) {
                                assert(self.order().take(i as int).contains(k.0));
                                let y = self.order().take(i as int).index_of(k.0);
                                assert(self.order().take(i as int + 1)[y] == k.0);
                            } else {
                                assert(output_views(old_outputs).contains_key(k) == old_outputs.contains_key(k));
                                assert(k.0 == cv);
                                assert(self.order().take(i as int + 1)[i as int] == cv);
                            }
                        }
                    }
                },
                None => {
                    proof {
                        let ws = Seq::<WriteView>::empty();
                        let r = Err::<Map<Seq<char>, ValueView>, Seq<char>>(Seq::<char>::empty());
                        assert(!is_proc(e0.comps(), cv));
                        lemma_typed_run_push(evaluator, &e0, e0.order(), res, wss, r, ws);
                        wss.lemma_flatten_push(ws);
                        assert(wss.flatten() + ws =~= wss.flatten());
                        let res2 = res.push(r);
                        assert(res2.drop_last() =~= res);
                        res = res2;
                        wss = wss.push(ws);
                        assert forall|k: PortView| #[trigger] new_typed_outputs.as_map().contains_key(k)
                            implies self.order().take(i as int + 1).contains(k.0) by {
                            let y = self.order().take(i as int).index_of(k.0);
                            assert(self.order().take(i as int + 1)[y] == k.0);
                        }
                    }
                },
            }
            i = i + 1;
        }
        proof {
            assert(self.order().take(n as int) =~= self.order());
        }
        let ghost before_snapshot = self.memories();
        self.current_typed_outputs = new_typed_outputs;
        self.component_registry.snapshot_memory_modules();
        self.current_cycle = self.current_cycle + 1;
        proof {
            crate::engine::lemma_cycle_memory(m0, before_snapshot, self.memories(), wss.flatten());
        }
    }
}

/// One more component of a typed run.
pub proof fn lemma_typed_run_push<V: TypedEvaluator>(
    ev: &V,
    e: &CycleEngine,
    ids: Seq<IdView>,
    res: Seq<Result<Map<Seq<char>, ValueView>, Seq<char>>>,
    wss: Seq<Seq<WriteView>>,
    r: Result<Map<Seq<char>, ValueView>, Seq<char>>,
    ws: Seq<WriteView>,
)
    requires
        typed_run(ev, e, ids, res, wss),
        res.len() < ids.len(),
        is_proc(e.comps(), ids[res.len() as int]) ==> ev.evaluates_to(
            ids[res.len() as int],
            e.comps()[ids[res.len() as int]].module->Processing_0.name@,
            typed_inputs(e, ids[res.len() as int]),
            r,
            ws,
        ) && central_writes_allowed(e.mem_conns(), ids[res.len() as int], ws),
        !is_proc(e.comps(), ids[res.len() as int]) ==> ws.len() == 0,
    ensures
        typed_run(ev, e, ids, res.push(r), wss.push(ws)),
{
    let res2 = res.push(r);
    let wss2 = wss.push(ws);
    assert forall|k: int| 0 <= k < res2.len() && is_proc(e.comps(), #[trigger] ids[k]) implies ev.evaluates_to(
        ids[k],
        e.comps()[ids[k]].module->Processing_0.name@,
        typed_inputs(e, ids[k]),
        res2[k],
        wss2[k],
    ) && central_writes_allowed(e.mem_conns(), ids[k], wss2[k]) by {
        if k < res.len() {
            assert(res2[k] == res[k] && wss2[k] == wss[k]);
        }
    }
    assert forall|k: int| 0 <= k < res2.len() && !is_proc(e.comps(), #[trigger] ids[k]) implies wss2[k].len() == 0 by {
        if k < res.len() {
            assert(wss2[k] == wss[k]);
        }
    }
}

impl CycleEngine {
    /// Get all component IDs, in registration order
    pub fn component_ids(&self) -> (r: Vec<&ComponentId>)
        ensures
            r@.map_values(|c: &ComponentId| c@) == self.ids(),
    {
        self.component_registry.component_ids()
    }
}

impl Default for CycleEngine {
    fn default() -> (r: Self)
        ensures
            r.comps() == Map::<IdView, ComponentInstance>::empty(),
            r.conns() == Map::<PortView, Seq<PortView>>::empty(),
            r.order() == Seq::<IdView>::empty(),
            r.cycle_count() == 0,
    {
        Self::new()
    }
}

} // verus!
