use vstd::prelude::*;
use petgraph::graph::{DiGraph, EdgeIndex, NodeIndex};
use crate::assoc::{AssocMap, lemma_filter_push};
use crate::strings::str_eq;
use crate::types::{ComponentId, IdView};

verus! {

/// petgraph's `Graph`, an opaque value here: what it holds is known through
/// `graph_nodes` and `graph_edges` below.
#[verifier::external_type_specification]
#[verifier::external_body]
#[verifier::reject_recursive_types(N)]
#[verifier::reject_recursive_types(E)]
#[verifier::reject_recursive_types(Ty)]
#[verifier::reject_recursive_types(Ix)]
pub struct ExGraph<N, E, Ty, Ix>(petgraph::graph::Graph<N, E, Ty, Ix>);

/// petgraph's `Directed`, the edge kind of a directed graph.
#[verifier::external_type_specification]
#[verifier::external_body]
pub struct ExDirected(petgraph::Directed);

/// The component identifiers a graph's nodes carry, by node index.
pub uninterp spec fn graph_nodes(g: DiGraph<ComponentId, u64>) -> Seq<IdView>;

/// A graph's edges, by edge index: source node, target node and weight.
pub uninterp spec fn graph_edges(g: DiGraph<ComponentId, u64>) -> Seq<(usize, usize, u64)>;

/// `Graph::new`: a directed graph with no nodes and no edges.
#[verifier::external_body]
fn empty_graph() -> (g: DiGraph<ComponentId, u64>)
    ensures
        graph_nodes(g) == Seq::<IdView>::empty(),
        graph_edges(g) == Seq::<(usize, usize, u64)>::empty(),
{
    DiGraph::new()
}

/// `Graph::add_node`: appends a node carrying the identifier; the new node's
/// index is the number of nodes before.  It panics when the node count has
/// reached the largest `u32`, which `requires` leaves out.
#[verifier::external_body]
fn graph_add_node(g: &mut DiGraph<ComponentId, u64>, id: ComponentId) -> (r: usize)
    requires
        graph_nodes(*old(g)).len() < u32::MAX,
    ensures
        r == graph_nodes(*old(g)).len(),
        graph_nodes(*final(g)) == graph_nodes(*old(g)).push(id@),
        graph_edges(*final(g)) == graph_edges(*old(g)),
{
    g.add_node(id).index()
}

/// `Graph::add_edge`: appends an edge from node `a` to node `b`.  It panics
/// when a node does not exist or the edge count has reached the largest
/// `u32`, which `requires` leaves out.
#[verifier::external_body]
fn graph_add_edge(g: &mut DiGraph<ComponentId, u64>, a: usize, b: usize, weight: u64)
    requires
        a < graph_nodes(*old(g)).len(),
        b < graph_nodes(*old(g)).len(),
        graph_nodes(*old(g)).len() <= u32::MAX,
        graph_edges(*old(g)).len() < u32::MAX,
    ensures
        graph_nodes(*final(g)) == graph_nodes(*old(g)),
        graph_edges(*final(g)) == graph_edges(*old(g)).push((a, b, weight)),
{
    g.add_edge(NodeIndex::new(a), NodeIndex::new(b), weight);
}

/// Some edge goes from node `a` to node `b`.
pub open spec fn has_edge(edges: Seq<(usize, usize, u64)>, a: usize, b: usize) -> bool {
    exists|e: int| 0 <= e < edges.len() && #[trigger] edges[e].0 == a && edges[e].1 == b
}

/// `Graph::find_edge` on a directed graph: it walks the outgoing edges of `a`
/// and gives one that ends at `b`, or none where there is no such edge.  Which
/// of several such edges it gives is left unsaid here: it follows the order of
/// the graph's edge lists, which the edge indices alone do not fix.
#[verifier::external_body]
fn graph_find_edge(g: &DiGraph<ComponentId, u64>, a: usize, b: usize) -> (r: Option<usize>)
    requires
        a <= u32::MAX,
        b <= u32::MAX,
    ensures
        match r {
            Some(e) => e < graph_edges(*g).len() && graph_edges(*g)[e as int].0 == a && graph_edges(*g)[e as int].1 == b,
            None => forall|e: int|
                0 <= e < graph_edges(*g).len() ==> !(#[trigger] graph_edges(*g)[e].0 == a && graph_edges(*g)[e].1 == b),
        },
{
    match g.find_edge(NodeIndex::new(a), NodeIndex::new(b)) {
        Some(e) => Some(e.index()),
        None => None,
    }
}

/// `Graph`'s `IndexMut` by edge index: sets the weight of edge `e`.  It panics
/// when the edge does not exist, which `requires` leaves out.
#[verifier::external_body]
fn graph_set_edge_weight(g: &mut DiGraph<ComponentId, u64>, e: usize, weight: u64)
    requires
        e < graph_edges(*old(g)).len(),
        e < u32::MAX,
    ensures
        graph_nodes(*final(g)) == graph_nodes(*old(g)),
        graph_edges(*final(g)) == graph_edges(*old(g)).update(
            e as int,
            (graph_edges(*old(g))[e as int].0, graph_edges(*old(g))[e as int].1, weight),
        ),
{
    g[EdgeIndex::new(e)] = weight;
}

/// What a component declares about events: its identifier, the event types
/// it subscribes to and the event types it can emit.
pub struct ComponentEvents {
    pub id: ComponentId,
    pub subscriptions: Vec<String>,
    pub emitted_events: Vec<String>,
}

/// A component's identifier, subscriptions and emitted event types.
pub type EventsView = (IdView, Seq<Seq<char>>, Seq<Seq<char>>);

impl View for ComponentEvents {
    type V = EventsView;

    open spec fn view(&self) -> EventsView {
        (
            self.id@,
            self.subscriptions@.map_values(|s: String| s@),
            self.emitted_events@.map_values(|s: String| s@),
        )
    }
}

/// The views of a list of components.
pub open spec fn events_views(comps: Seq<ComponentEvents>) -> Seq<EventsView> {
    comps.map_values(|c: ComponentEvents| c@)
}

/// The identifiers of the components, in order: the graph's nodes.
pub open spec fn component_ids(comps: Seq<EventsView>) -> Seq<IdView> {
    comps.map_values(|c: EventsView| c.0)
}

/// The last position at which `id` occurs, or -1: the node an identifier is
/// looked up by.
pub open spec fn last_position(ids: Seq<IdView>, id: IdView) -> int
    decreases ids.len(),
{
    if ids.len() == 0 {
        -1
    } else if ids.last() == id {
        ids.len() - 1
    } else {
        last_position(ids.drop_last(), id)
    }
}

/// Whether an event type is the given one.
pub open spec fn is_event(event: Seq<char>) -> spec_fn(Seq<char>) -> bool {
    |s: Seq<char>| s == event
}

/// Each subscription stands for its component.
pub open spec fn subscriber(id: IdView) -> spec_fn(Seq<char>) -> IdView {
    |s: Seq<char>| id
}

/// A component's subscriptions to an event type, once each.
pub open spec fn subscriptions_to(c: EventsView, event: Seq<char>) -> Seq<IdView> {
    c.1.filter(is_event(event)).map_values(subscriber(c.0))
}

/// The subscribers of an event type, component by component and once per
/// subscription.
pub open spec fn subscribers(comps: Seq<EventsView>, event: Seq<char>) -> Seq<IdView>
    decreases comps.len(),
{
    if comps.len() == 0 {
        Seq::empty()
    } else {
        subscribers(comps.drop_last(), event) + subscriptions_to(comps.last(), event)
    }
}

/// Whether a subscriber is not the source itself.
pub open spec fn other_than(source: IdView) -> spec_fn(IdView) -> bool {
    |t: IdView| t != source
}

/// The edge from the source's node to a subscriber's node, weighing 0.
pub open spec fn edge_to(ids: Seq<IdView>, source: IdView) -> spec_fn(IdView) -> (usize, usize, u64) {
    |t: IdView| (last_position(ids, source) as usize, last_position(ids, t) as usize, 0u64)
}

/// The edges one emitted event type gives: one to each subscriber other than
/// the source.
pub open spec fn event_edges(ids: Seq<IdView>, source: IdView, subs: Seq<IdView>) -> Seq<(usize, usize, u64)> {
    subs.filter(other_than(source)).map_values(edge_to(ids, source))
}

/// The edges a component's emitted event types give, in order.
pub open spec fn emitted_edges(comps: Seq<EventsView>, source: IdView, emitted: Seq<Seq<char>>) -> Seq<
    (usize, usize, u64),
>
    decreases emitted.len(),
{
    if emitted.len() == 0 {
        Seq::empty()
    } else {
        emitted_edges(comps, source, emitted.drop_last()) + event_edges(
            component_ids(comps),
            source,
            subscribers(comps, emitted.last()),
        )
    }
}

/// The edges of the first `k` components, component by component.
pub open spec fn edges_from(comps: Seq<EventsView>, k: nat) -> Seq<(usize, usize, u64)>
    decreases k,
{
    if k == 0 || k > comps.len() {
        Seq::empty()
    } else {
        edges_from(comps, (k - 1) as nat) + emitted_edges(comps, comps[k - 1].0, comps[k - 1].2)
    }
}

/// The dependency edges of a list of components: an edge A -> B for each
/// event type A emits and each subscription of B to it, unless B is A.
pub open spec fn dependency_edges(comps: Seq<EventsView>) -> Seq<(usize, usize, u64)> {
    edges_from(comps, comps.len())
}

/// What a filter keeps is in the sequence and passes the test.
proof fn lemma_filter_members<T>(s: Seq<T>, p: spec_fn(T) -> bool)
    ensures
        forall|i: int| 0 <= i < s.filter(p).len() ==> s.contains(#[trigger] s.filter(p)[i]) && p(s.filter(p)[i]),
    decreases s.len(),
{
    if s.len() > 0 {
        let d = s.drop_last();
        lemma_filter_members(d, p);
        assert(d.push(s.last()) =~= s);
        lemma_filter_push(d, s.last(), p);
        assert forall|i: int| 0 <= i < s.filter(p).len() implies s.contains(#[trigger] s.filter(p)[i]) && p(
            s.filter(p)[i],
        ) by {
            if i < d.filter(p).len() {
                assert(s.filter(p)[i] == d.filter(p)[i]);
                let j = d.index_of(d.filter(p)[i]);
                assert(s[j] == d[j]);
            } else {
                assert(s.filter(p)[i] == s.last());
                assert(s[s.len() - 1] == s.last());
            }
        }
    }
}

/// Every subscriber of an event type is one of the components.
proof fn lemma_subscribers_are_components(comps: Seq<EventsView>, event: Seq<char>)
    ensures
        forall|y: IdView| #[trigger] subscribers(comps, event).contains(y) ==> component_ids(comps).contains(y),
    decreases comps.len(),
{
    if comps.len() > 0 {
        let d = comps.drop_last();
        lemma_subscribers_are_components(d, event);
        let c = comps.last();
        assert forall|y: IdView| #[trigger] subscribers(comps, event).contains(y) implies component_ids(comps).contains(y) by {
            let sub = subscribers(comps, event);
            let i = sub.index_of(y);
            let a = subscribers(d, event);
            if i < a.len() {
                assert(a[i] == y);
                assert(a.contains(y));
                let j = component_ids(d).index_of(y);
                assert(component_ids(comps)[j] == component_ids(d)[j]);
            } else {
                assert(subscriptions_to(c, event)[i - a.len()] == y);
                assert(y == c.0);
                assert(component_ids(comps)[comps.len() - 1] == c.0);
            }
        }
    }
}

/// The edges of one emitted event type never join a node to itself.
proof fn lemma_event_edges_no_loop(ids: Seq<IdView>, source: IdView, subs: Seq<IdView>)
    requires
        ids.len() <= usize::MAX,
        ids.contains(source),
        forall|y: IdView| #[trigger] subs.contains(y) ==> ids.contains(y),
    ensures
        forall|i: int|
            0 <= i < event_edges(ids, source, subs).len() ==> (#[trigger] event_edges(ids, source, subs)[i]).0
                != event_edges(ids, source, subs)[i].1,
{
    lemma_filter_members(subs, other_than(source));
    lemma_last_position_bounds(ids, source);
    assert forall|i: int| 0 <= i < event_edges(ids, source, subs).len() implies (#[trigger] event_edges(
        ids,
        source,
        subs,
    )[i]).0 != event_edges(ids, source, subs)[i].1 by {
        let t = subs.filter(other_than(source))[i];
        assert(subs.contains(t) && t != source);
        lemma_last_position_bounds(ids, t);
        assert(event_edges(ids, source, subs)[i] == edge_to(ids, source)(t));
    }
}

/// The edges of a component's emitted event types never join a node to
/// itself.
proof fn lemma_emitted_edges_no_loop(comps: Seq<EventsView>, source: IdView, emitted: Seq<Seq<char>>)
    requires
        comps.len() <= usize::MAX,
        component_ids(comps).contains(source),
    ensures
        forall|i: int|
            0 <= i < emitted_edges(comps, source, emitted).len() ==> (#[trigger] emitted_edges(comps, source, emitted)[i]).0
                != emitted_edges(comps, source, emitted)[i].1,
    decreases emitted.len(),
{
    if emitted.len() > 0 {
        let d = emitted.drop_last();
        lemma_emitted_edges_no_loop(comps, source, d);
        let subs = subscribers(comps, emitted.last());
        lemma_subscribers_are_components(comps, emitted.last());
        lemma_event_edges_no_loop(component_ids(comps), source, subs);
        let a = emitted_edges(comps, source, d);
        let b = event_edges(component_ids(comps), source, subs);
        assert forall|i: int| 0 <= i < emitted_edges(comps, source, emitted).len() implies (#[trigger] emitted_edges(
            comps,
            source,
            emitted,
        )[i]).0 != emitted_edges(comps, source, emitted)[i].1 by {
            if i < a.len() {
                assert(emitted_edges(comps, source, emitted)[i] == a[i]);
            } else {
                assert(emitted_edges(comps, source, emitted)[i] == b[i - a.len()]);
            }
        }
    }
}

/// The edges of the first `k` components never join a node to itself.
proof fn lemma_edges_from_no_loop(comps: Seq<EventsView>, k: nat)
    requires
        comps.len() <= usize::MAX,
    ensures
        forall|i: int|
            0 <= i < edges_from(comps, k).len() ==> (#[trigger] edges_from(comps, k)[i]).0 != edges_from(comps, k)[i].1,
    decreases k,
{
    if k > 0 && k <= comps.len() {
        lemma_edges_from_no_loop(comps, (k - 1) as nat);
        let src = comps[k - 1].0;
        assert(component_ids(comps)[k - 1] == src);
        lemma_emitted_edges_no_loop(comps, src, comps[k - 1].2);
        let a = edges_from(comps, (k - 1) as nat);
        let b = emitted_edges(comps, src, comps[k - 1].2);
        assert forall|i: int| 0 <= i < edges_from(comps, k).len() implies (#[trigger] edges_from(comps, k)[i]).0
            != edges_from(comps, k)[i].1 by {
            if i < a.len() {
                assert(edges_from(comps, k)[i] == a[i]);
            } else {
                assert(edges_from(comps, k)[i] == b[i - a.len()]);
            }
        }
    }
}

/// No dependency edge joins a node to itself: a component that subscribes
/// to an event type it emits gets no edge from that.
pub proof fn lemma_no_self_loops(comps: Seq<EventsView>)
    requires
        comps.len() <= usize::MAX,
    ensures
        forall|i: int|
            0 <= i < dependency_edges(comps).len() ==> (#[trigger] dependency_edges(comps)[i]).0 != dependency_edges(
                comps,
            )[i].1,
{
    lemma_edges_from_no_loop(comps, comps.len());
}

/// The positions map records the last node of each identifier.
pub open spec fn positions_of(positions: Map<IdView, usize>, ids: Seq<IdView>) -> bool {
    &&& forall|k: IdView| #[trigger] positions.contains_key(k) <==> ids.contains(k)
    &&& forall|k: IdView| #[trigger] positions.contains_key(k) ==> positions[k] == last_position(ids, k)
}

/// An identifier that occurs has its last position among the nodes.
pub proof fn lemma_last_position_bounds(ids: Seq<IdView>, id: IdView)
    ensures
        -1 <= last_position(ids, id) < ids.len(),
        ids.contains(id) <==> last_position(ids, id) >= 0,
        last_position(ids, id) >= 0 ==> ids[last_position(ids, id)] == id,
    decreases ids.len(),
{
    if ids.len() > 0 {
        lemma_last_position_bounds(ids.drop_last(), id);
        if ids.last() != id {
            if ids.contains(id) {
                let i = choose|i: int| 0 <= i < ids.len() && ids[i] == id;
                assert(ids.drop_last()[i] == id);
            }
            if ids.drop_last().contains(id) {
                let i = choose|i: int| 0 <= i < ids.drop_last().len() && ids.drop_last()[i] == id;
                assert(ids[i] == id);
            }
        } else {
            assert(ids[ids.len() - 1] == id);
        }
    }
}

/// Adding a subscriber adds its edge unless it is the source.
proof fn lemma_event_edges_push(ids: Seq<IdView>, source: IdView, subs: Seq<IdView>, t: IdView)
    ensures
        event_edges(ids, source, subs.push(t)) == if t != source {
            event_edges(ids, source, subs).push(edge_to(ids, source)(t))
        } else {
            event_edges(ids, source, subs)
        },
{
    lemma_filter_push(subs, t, other_than(source));
    let f = subs.filter(other_than(source));
    if t != source {
        assert(f.push(t).map_values(edge_to(ids, source)) =~= f.map_values(edge_to(ids, source)).push(
            edge_to(ids, source)(t),
        ));
    }
}

/// A component's subscriptions to an event, one subscription more.
proof fn lemma_subscriptions_take(c: EventsView, event: Seq<char>, u: int)
    requires
        0 <= u < c.1.len(),
    ensures
        c.1.take(u + 1).filter(is_event(event)).map_values(subscriber(c.0)) == if c.1[u] == event {
            c.1.take(u).filter(is_event(event)).map_values(subscriber(c.0)).push(c.0)
        } else {
            c.1.take(u).filter(is_event(event)).map_values(subscriber(c.0))
        },
{
    assert(c.1.take(u + 1) =~= c.1.take(u).push(c.1[u]));
    lemma_filter_push(c.1.take(u), c.1[u], is_event(event));
    let f = c.1.take(u).filter(is_event(event));
    if c.1[u] == event {
        assert(f.push(c.1[u]).map_values(subscriber(c.0)) =~= f.map_values(subscriber(c.0)).push(c.0));
    }
}

/// The position recorded for an identifier that occurs.
fn position(positions: &AssocMap<ComponentId, usize>, id: &ComponentId, Ghost(ids): Ghost<Seq<IdView>>) -> (r: usize)
    requires
        positions_of(positions.as_map(), ids),
        ids.contains(id@),
    ensures
        r == last_position(ids, id@),
        r < ids.len(),
{
    proof {
        lemma_last_position_bounds(ids, id@);
        assert(positions.as_map().contains_key(id@));
    }
    match positions.get(id) {
        Some(p) => *p,
        None => 0,
    }
}

/// The dependency edges of the components, with the nodes looked up in the
/// recorded positions.
fn collect_edges(components: &[ComponentEvents], positions: &AssocMap<ComponentId, usize>) -> (r: Vec<
    (usize, usize, u64),
>)
    requires
        positions_of(positions.as_map(), component_ids(events_views(components@))),
    ensures
        r@ == dependency_edges(events_views(components@)),
        forall|i: int|
            0 <= i < r@.len() ==> (#[trigger] r@[i]).0 < components@.len() && r@[i].1 < components@.len(),
{
    let ghost cv = events_views(components@);
    let ghost ids = component_ids(cv);
    let n = components.len();
    let mut r: Vec<(usize, usize, u64)> = Vec::new();
    let mut k: usize = 0;
    while k < n
        invariant
            n == components@.len(),
            cv == events_views(components@),
            ids == component_ids(cv),
            positions_of(positions.as_map(), ids),
            k <= n,
            r@ == edges_from(cv, k as nat),
            forall|i: int| 0 <= i < r@.len() ==> (#[trigger] r@[i]).0 < n && r@[i].1 < n,
        decreases n - k,
    {
        let src = &components[k].id;
        let ghost sv = src@;
        assert(ids[k as int] == sv);
        let a = position(positions, src, Ghost(ids));
        let emitted = &components[k].emitted_events;
        let ghost em = cv[k as int].2;
        let ghost base = r@;
        let mut j: usize = 0;
        while j < emitted.len()
            invariant
                n == components@.len(),
                cv == events_views(components@),
                ids == component_ids(cv),
                positions_of(positions.as_map(), ids),
                k < n,
                sv == cv[k as int].0,
                src@ == sv,
                a == last_position(ids, sv),
                a < n,
                em == cv[k as int].2,
                em == emitted@.map_values(|s: String| s@),
                j <= emitted@.len(),
                base == edges_from(cv, k as nat),
                r@ == base + emitted_edges(cv, sv, em.take(j as int)),
                forall|i: int| 0 <= i < r@.len() ==> (#[trigger] r@[i]).0 < n && r@[i].1 < n,
            decreases emitted@.len() - j,
        {
            let event = emitted[j].as_str();
            let ghost ev = event@;
            let ghost mid = r@;
            let mut t: usize = 0;
            while t < n
                invariant
                    n == components@.len(),
                    cv == events_views(components@),
                    ids == component_ids(cv),
                    positions_of(positions.as_map(), ids),
                    a == last_position(ids, sv),
                    a < n,
                    src@ == sv,
                    event@ == ev,
                    t <= n,
                    r@ == mid + event_edges(ids, sv, subscribers(cv.take(t as int), ev)),
                    forall|i: int| 0 <= i < r@.len() ==> (#[trigger] r@[i]).0 < n && r@[i].1 < n,
                decreases n - t,
            {
                let target = &components[t].id;
                let subs = &components[t].subscriptions;
                let ghost c = cv[t as int];
                let ghost before = subscribers(cv.take(t as int), ev);
                let mut u: usize = 0;
                while u < subs.len()
                    invariant
                        n == components@.len(),
                        cv == events_views(components@),
                        ids == component_ids(cv),
                        positions_of(positions.as_map(), ids),
                        a == last_position(ids, sv),
                        a < n,
                        src@ == sv,
                        event@ == ev,
                        t < n,
                        c == cv[t as int],
                        c.0 == target@,
                        c.1 == subs@.map_values(|s: String| s@),
                        u <= subs@.len(),
                        r@ == mid + event_edges(
                            ids,
                            sv,
                            before + c.1.take(u as int).filter(is_event(ev)).map_values(subscriber(c.0)),
                        ),
                        forall|i: int| 0 <= i < r@.len() ==> (#[trigger] r@[i]).0 < n && r@[i].1 < n,
                    decreases subs@.len() - u,
                {
                    let ghost prev = before + c.1.take(u as int).filter(is_event(ev)).map_values(subscriber(c.0));
                    proof {
                        lemma_subscriptions_take(c, ev, u as int);
                        assert(c.1[u as int] == subs@[u as int]@);
                        lemma_event_edges_push(ids, sv, prev, c.0);
                        assert(prev.push(c.0) =~= before + c.1.take(u as int).filter(is_event(ev)).map_values(
                            subscriber(c.0),
                        ).push(c.0));
                    }
                    if str_eq(subs[u].as_str(), event) {
                        if !target.same_as(src) {
                            assert(ids[t as int] == target@);
                            let b = position(positions, target, Ghost(ids));
                            r.push((a, b, 0));
                            proof {
                                assert(r@ =~= mid + event_edges(ids, sv, prev).push(edge_to(ids, sv)(c.0)));
                            }
                        }
                    }
                    u = u + 1;
                }
                proof {
                    assert(c.1.take(c.1.len() as int) =~= c.1);
                    assert(cv.take(t as int + 1).drop_last() =~= cv.take(t as int));
                    assert(cv.take(t as int + 1).last() == c);
                }
                t = t + 1;
            }
            proof {
                assert(cv.take(n as int) =~= cv);
                assert(em.take(j as int + 1).drop_last() =~= em.take(j as int));
                assert(em.take(j as int + 1).last() == ev);
                assert(r@ =~= base + emitted_edges(cv, sv, em.take(j as int + 1)));
            }
            j = j + 1;
        }
        proof {
            assert(em.take(em.len() as int) =~= em);
        }
        k = k + 1;
    }
    r
}

/// A directed graph of the dependencies between components: an edge A -> B
/// exists if component A can emit an event that component B subscribes to.
pub struct DependencyGraph {
    /// The underlying directed graph: nodes are components, edges potential
    /// event flow, weighted.
    graph: DiGraph<ComponentId, u64>,
    /// The node of each component: the last node carrying its identifier.
    component_to_node: AssocMap<ComponentId, usize>,
    /// The component of each node, by node index.
    node_to_component: Vec<ComponentId>,
}

impl DependencyGraph {
    /// The components of the nodes, by node index.
    pub closed spec fn nodes(&self) -> Seq<IdView> {
        graph_nodes(self.graph)
    }

    /// The edges, by edge index: source node, target node and weight.
    pub closed spec fn edges(&self) -> Seq<(usize, usize, u64)> {
        graph_edges(self.graph)
    }

    /// The graph's bookkeeping agrees with its nodes, and its indices fit.
    pub closed spec fn wf(&self) -> bool {
        &&& crate::types::id_views(self.node_to_component@) == graph_nodes(self.graph)
        &&& positions_of(self.component_to_node.as_map(), graph_nodes(self.graph))
        &&& graph_nodes(self.graph).len() <= u32::MAX
        &&& graph_edges(self.graph).len() <= u32::MAX
        &&& forall|e: int|
            0 <= e < graph_edges(self.graph).len() ==> (#[trigger] graph_edges(self.graph)[e]).0 < graph_nodes(
                self.graph,
            ).len() && graph_edges(self.graph)[e].1 < graph_nodes(self.graph).len()
    }

    /// Creates a new empty dependency graph
    pub fn new() -> (r: Self)
        ensures
            r.wf(),
            r.nodes() == Seq::<IdView>::empty(),
            r.edges() == Seq::<(usize, usize, u64)>::empty(),
    {
        let r = DependencyGraph {
            graph: empty_graph(),
            component_to_node: AssocMap::new(),
            node_to_component: Vec::new(),
        };
        proof {
            assert(crate::types::id_views(r.node_to_component@) =~= Seq::<IdView>::empty());
        }
        r
    }

    /// Builds the dependency graph of the components: a node for each
    /// component, in order, and the dependency edges, weighing 0
    pub fn build(components: &[ComponentEvents]) -> (r: Self)
        requires
            components@.len() < u32::MAX,
            dependency_edges(events_views(components@)).len() < u32::MAX,
        ensures
            r.wf(),
            r.nodes() == component_ids(events_views(components@)),
            r.edges() == dependency_edges(events_views(components@)),
    {
        let ghost cv = events_views(components@);
        let ghost ids = component_ids(cv);
        let mut graph = DependencyGraph::new();
        let n = components.len();
        let mut i: usize = 0;
        while i < n
            invariant
                n == components@.len(),
                n < u32::MAX,
                cv == events_views(components@),
                ids == component_ids(cv),
                i <= n,
                graph.wf(),
                graph.nodes() == ids.take(i as int),
                graph.edges() == Seq::<(usize, usize, u64)>::empty(),
            decreases n - i,
        {
            let id = &components[i].id;
            let ghost before = graph.nodes();
            let ghost positions = graph.component_to_node.as_map();
            let ghost names = graph.node_to_component@;
            let node = graph_add_node(&mut graph.graph, id.duplicate());
            graph.component_to_node.insert(id.duplicate(), node);
            graph.node_to_component.push(id.duplicate());
            proof {
                let now = before.push(id@);
                assert(ids.take(i as int + 1) =~= now);
                assert(crate::types::id_views(graph.node_to_component@) =~= crate::types::id_views(names).push(id@));
                assert forall|k: IdView| #[trigger] graph.component_to_node.as_map().contains_key(k) <==> now.contains(k) by {
                    if k != id@ && now.contains(k) {
                        let x = choose|x: int| 0 <= x < now.len() && now[x] == k;
                        assert(before[x] == k);
                    }
                    if before.contains(k) {
                        let x = choose|x: int| 0 <= x < before.len() && before[x] == k;
                        assert(now[x] == k);
                    }
                    assert(now[now.len() - 1] == id@);
                }
                assert forall|k: IdView| #[trigger] graph.component_to_node.as_map().contains_key(k) implies
                    graph.component_to_node.as_map()[k] == last_position(now, k) by {
                    assert(now.drop_last() =~= before);
                }
            }
            i = i + 1;
        }
        proof {
            assert(ids.take(n as int) =~= ids);
        }
        let edges = collect_edges(components, &graph.component_to_node);
        let m = edges.len();
        let mut j: usize = 0;
        while j < m
            invariant
                m == edges@.len(),
                m < u32::MAX,
                n == components@.len(),
                n < u32::MAX,
                edges@ == dependency_edges(cv),
                forall|x: int| 0 <= x < edges@.len() ==> (#[trigger] edges@[x]).0 < n && edges@[x].1 < n,
                j <= m,
                graph.wf(),
                graph.nodes() == ids,
                ids.len() == n,
                graph.edges() == edges@.take(j as int),
            decreases m - j,
        {
            let (a, b, w) = edges[j];
            graph_add_edge(&mut graph.graph, a, b, w);
            proof {
                assert(edges@.take(j as int + 1) =~= edges@.take(j as int).push(edges@[j as int]));
            }
            j = j + 1;
        }
        proof {
            assert(edges@.take(m as int) =~= edges@);
        }
        graph
    }

    /// Updates the weight of an edge from the source's node to the target's;
    /// false, and nothing changed, where either has no node or there is no
    /// such edge
    pub fn update_edge_weight(&mut self, source: &ComponentId, target: &ComponentId, new_weight: u64) -> (r: bool)
        requires
            old(self).wf(),
        ensures
            final(self).wf(),
            final(self).nodes() == old(self).nodes(),
            r == (old(self).nodes().contains(source@) && old(self).nodes().contains(target@) && has_edge(
                old(self).edges(),
                last_position(old(self).nodes(), source@) as usize,
                last_position(old(self).nodes(), target@) as usize,
            )),
            r ==> exists|e: int|
                0 <= e < old(self).edges().len() && #[trigger] old(self).edges()[e].0 == last_position(
                    old(self).nodes(),
                    source@,
                ) && old(self).edges()[e].1 == last_position(old(self).nodes(), target@) && final(self).edges()
                    == old(self).edges().update(e, (old(self).edges()[e].0, old(self).edges()[e].1, new_weight)),
            !r ==> final(self).edges() == old(self).edges(),
    {
        let ghost nodes = self.nodes();
        proof {
            lemma_last_position_bounds(nodes, source@);
            lemma_last_position_bounds(nodes, target@);
        }
        let a = match self.component_to_node.get(source) {
            Some(a) => *a,
            None => return false,
        };
        let b = match self.component_to_node.get(target) {
            Some(b) => *b,
            None => return false,
        };
        match graph_find_edge(&self.graph, a, b) {
            Some(e) => {
                let ghost old_edges = self.edges();
                graph_set_edge_weight(&mut self.graph, e, new_weight);
                assert(self.edges() == old_edges.update(e as int, (old_edges[e as int].0, old_edges[e as int].1, new_weight)));
                true
            },
            None => false,
        }
    }

    /// Returns a reference to the internal graph.
    pub fn graph(&self) -> (r: &DiGraph<ComponentId, u64>)
        ensures
            graph_nodes(*r) == self.nodes(),
            graph_edges(*r) == self.edges(),
    {
        &self.graph
    }

    /// Returns the component of a node, if the node exists
    pub fn get_component(&self, node: usize) -> (r: Option<&ComponentId>)
        requires
            self.wf(),
        ensures
            match r {
                Some(c) => node < self.nodes().len() && c@ == self.nodes()[node as int],
                None => node >= self.nodes().len(),
            },
    {
        if node < self.node_to_component.len() {
            Some(&self.node_to_component[node])
        } else {
            None
        }
    }

    /// Returns the node of a component: the last one carrying its identifier
    pub fn get_node(&self, component: &ComponentId) -> (r: Option<usize>)
        requires
            self.wf(),
        ensures
            r == if self.nodes().contains(component@) {
                Some(last_position(self.nodes(), component@) as usize)
            } else {
                None::<usize>
            },
    {
        match self.component_to_node.get(component) {
            Some(n) => Some(*n),
            None => None,
        }
    }
}

} // verus!
