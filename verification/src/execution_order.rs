use vstd::prelude::*;
use crate::assoc::{AssocMap, KeyLike, lemma_push_to_set};
use crate::strings::{Order, owned};
use crate::modules::ComponentInstance;
use crate::registry::ComponentRegistry;
use crate::types::{ComponentId, IdView, PortRef, id_less, id_views, lemma_id_less_total,
    lemma_id_less_transitive, lemma_id_less_irreflexive, lemma_id_less_asymmetric};

verus! {

/// Port connections: (source component, source port) -> [(target component, target port)].
pub type ConnectionMap = AssocMap<PortRef, Vec<PortRef>>;

/// Component `a` feeds component `b`: some output port of `a` is connected to an
/// input port of `b`.
pub open spec fn depends(conns: &ConnectionMap, a: IdView, b: IdView) -> bool {
    exists|i: int, j: int|
        0 <= i < conns.entries().len() && 0 <= j < conns.entries()[i].1@.len()
            && src_id(conns, i) == a && #[trigger] tgt_id(conns, i, j) == b
}

/// The component of the source port of connection entry `i`.
pub open spec fn src_id(conns: &ConnectionMap, i: int) -> IdView {
    conns.entries()[i].0.0@
}

/// The component of target `j` of connection entry `i`.
pub open spec fn tgt_id(conns: &ConnectionMap, i: int, j: int) -> IdView {
    conns.entries()[i].1@[j].0@
}

/// Some member of `r` feeds `n`.
pub open spec fn fed_by(conns: &ConnectionMap, r: Set<IdView>, n: IdView) -> bool {
    exists|u: IdView| r.contains(u) && #[trigger] depends(conns, u, n)
}

/// The members of `r` that no member of `r` feeds.
pub open spec fn ready_set(conns: &ConnectionMap, r: Set<IdView>) -> Set<IdView> {
    r.filter(|n: IdView| !fed_by(conns, r, n))
}

/// What is left of `r` after `k` rounds, each round removing the ready members.
pub open spec fn remaining_after(conns: &ConnectionMap, r: Set<IdView>, k: nat) -> Set<IdView>
    decreases k,
{
    if k == 0 {
        r
    } else {
        let p = remaining_after(conns, r, (k - 1) as nat);
        p.difference(ready_set(conns, p))
    }
}

/// The members removed in round `k`.
pub open spec fn stage_at(conns: &ConnectionMap, r: Set<IdView>, k: nat) -> Set<IdView> {
    ready_set(conns, remaining_after(conns, r, k))
}

/// Some round leaves members behind none of which is ready.
pub open spec fn gets_stuck(conns: &ConnectionMap, r: Set<IdView>) -> bool {
    exists|k: nat|
        #[trigger] remaining_after(conns, r, k) != Set::<IdView>::empty()
            && stage_at(conns, r, k) == Set::<IdView>::empty()
}

/// A non-empty set of components each of which is fed by a member of the set:
/// the components of a dependency cycle, and everything downstream of one.
pub open spec fn is_cycle_witness(conns: &ConnectionMap, r: Set<IdView>, s: Set<IdView>) -> bool {
    &&& s.finite()
    &&& s.len() > 0
    &&& s.subset_of(r)
    &&& forall|n: IdView| #[trigger] s.contains(n) ==> exists|u: IdView| s.contains(u) && depends(conns, u, n)
}

/// Strictly increasing in identifier order.
pub open spec fn sorted_ids(s: Seq<IdView>) -> bool {
    forall|i: int, j: int| 0 <= i < j < s.len() ==> id_less(#[trigger] s[i], #[trigger] s[j])
}

/// The contract of the staged order: stage `k` holds the members of round `k`,
/// sorted, and the rounds use up all components.
pub open spec fn valid_stages(conns: &ConnectionMap, ids: Seq<IdView>, stages: Seq<Seq<IdView>>) -> bool {
    let r = ids.to_set();
    &&& ids.no_duplicates()
    &&& remaining_after(conns, r, stages.len()) == Set::<IdView>::empty()
    &&& forall|k: int| 0 <= k < stages.len() ==> {
        &&& (#[trigger] stages[k]).to_set() == stage_at(conns, r, k as nat)
        &&& stages[k].len() > 0
        &&& sorted_ids(stages[k])
    }
}

/// The first component of `nv`, from position `i` on, that is still in `live`.
pub open spec fn first_live_from(nv: Seq<IdView>, live: Set<IdView>, i: int) -> IdView
    decreases nv.len() - i,
{
    if i < 0 || i >= nv.len() {
        nv[0]
    } else if live.contains(nv[i]) {
        nv[i]
    } else {
        first_live_from(nv, live, i + 1)
    }
}

/// The sub-level taken from the components `live` of a stage `nv`: those that no
/// live component feeds; when there are none (a dependency cycle inside the
/// stage), the first live component of the stage alone.
pub open spec fn next_sub_level(conns: &ConnectionMap, nv: Seq<IdView>, live: Set<IdView>) -> Set<IdView> {
    let rs = ready_set(conns, live);
    if live == Set::<IdView>::empty() {
        Set::<IdView>::empty()
    } else if rs == Set::<IdView>::empty() {
        set![first_live_from(nv, live, 0)]
    } else {
        rs
    }
}

/// What is left of the stage `nv` after `k` sub-levels.
pub open spec fn sub_live_after(conns: &ConnectionMap, nv: Seq<IdView>, k: nat) -> Set<IdView>
    decreases k,
{
    if k == 0 {
        nv.to_set()
    } else {
        let p = sub_live_after(conns, nv, (k - 1) as nat);
        p.difference(next_sub_level(conns, nv, p))
    }
}

/// Sub-level `k` of the stage `nv`.
pub open spec fn sub_level_at(conns: &ConnectionMap, nv: Seq<IdView>, k: nat) -> Set<IdView> {
    next_sub_level(conns, nv, sub_live_after(conns, nv, k))
}

/// The contract of the sub-levels of a stage: sub-level `k` holds the members of
/// round `k`, sorted, and the rounds use up the stage.  A component thus sits at
/// the depth of its longest chain of feeders inside the stage; edges from
/// outside the stage play no part.
pub open spec fn valid_sub_levels(conns: &ConnectionMap, nv: Seq<IdView>, levels: Seq<Seq<IdView>>) -> bool {
    &&& sub_live_after(conns, nv, levels.len()) == Set::<IdView>::empty()
    &&& forall|k: int| 0 <= k < levels.len() ==> {
        &&& (#[trigger] levels[k]).to_set() == sub_level_at(conns, nv, k as nat)
        &&& levels[k].len() > 0
        &&& sorted_ids(levels[k])
    }
}

pub open spec fn level_views(levels: Seq<SubLevel>) -> Seq<Seq<IdView>> {
    levels.map_values(|l: SubLevel| id_views(l.components@))
}

pub open spec fn stage_views(stages: Seq<Vec<ComponentId>>) -> Seq<Seq<IdView>> {
    stages.map_values(|st: Vec<ComponentId>| id_views(st@))
}

pub open spec fn cycle_message() -> Seq<char> {
    "Cycle detected in component dependencies"@
}

/// A sub-level of a stage: components that can run side by side.
#[derive(Debug, Clone)]
pub struct SubLevel {
    pub components: Vec<ComponentId>,
}

/// A stage split into sub-levels that run one after another.
#[derive(Debug, Clone)]
pub struct Stage {
    pub sub_levels: Vec<SubLevel>,
}

/// Builds the order in which processing components are evaluated.
pub struct ExecutionOrderBuilder;

/// Set of views of the nodes not yet removed.
pub open spec fn live_set(nodes: Seq<IdView>, removed: Seq<bool>) -> Set<IdView> {
    Set::new(|v: IdView| exists|i: int| 0 <= i < nodes.len() && !removed[i] && nodes[i] == v)
}

/// `edges` lists exactly the dependencies among `nodes`, by index.
pub open spec fn edges_exact(conns: &ConnectionMap, nodes: Seq<IdView>, edges: Seq<(usize, usize)>) -> bool {
    &&& forall|e: int| 0 <= e < edges.len() ==> (#[trigger] edges[e]).0 < nodes.len() && edges[e].1 < nodes.len()
        && depends(conns, nodes[edges[e].0 as int], nodes[edges[e].1 as int])
    &&& forall|a: int, b: int| 0 <= a < nodes.len() && 0 <= b < nodes.len()
        && #[trigger] depends(conns, nodes[a], nodes[b]) ==> exists|e: int| 0 <= e < edges.len()
        && (#[trigger] edges[e]) == (a as usize, b as usize)
}

/// Number of entries not yet marked removed.
pub open spec fn live_count(s: Seq<bool>) -> nat
    decreases s.len(),
{
    if s.len() == 0 {
        0
    } else {
        live_count(s.drop_last()) + if s.last() { 0nat } else { 1nat }
    }
}

proof fn lemma_live_count_update(s: Seq<bool>, i: int)
    requires
        0 <= i < s.len(),
        !s[i],
    ensures
        live_count(s.update(i, true)) + 1 == live_count(s),
    decreases s.len(),
{
    let t = s.update(i, true);
    if i == s.len() - 1 {
        assert(t.drop_last() =~= s.drop_last());
    } else {
        assert(t.drop_last() =~= s.drop_last().update(i, true));
        lemma_live_count_update(s.drop_last(), i);
    }
}

proof fn lemma_live_count_positive(s: Seq<bool>, i: int)
    requires
        0 <= i < s.len(),
        !s[i],
    ensures
        live_count(s) > 0,
    decreases s.len(),
{
    if i < s.len() - 1 {
        lemma_live_count_positive(s.drop_last(), i);
    }
}

proof fn lemma_live_count_witness(s: Seq<bool>)
    requires
        live_count(s) > 0,
    ensures
        exists|i: int| 0 <= i < s.len() && !s[i],
    decreases s.len(),
{
    if s.len() > 0 {
        if !s.last() {
            assert(!s[s.len() - 1]);
        } else {
            lemma_live_count_witness(s.drop_last());
            let i = choose|i: int| 0 <= i < s.drop_last().len() && !s.drop_last()[i];
            assert(!s[i]);
        }
    }
}

proof fn lemma_live_count_bound(s: Seq<bool>)
    ensures
        live_count(s) <= s.len(),
    decreases s.len(),
{
    if s.len() > 0 {
        lemma_live_count_bound(s.drop_last());
    }
}

/// With exact edges, a live node has a live predecessor edge exactly when some
/// live component feeds it.
proof fn lemma_live_pred(conns: &ConnectionMap, nv: Seq<IdView>, edges: Seq<(usize, usize)>, removed: Seq<bool>, i: int)
    requires
        edges_exact(conns, nv, edges),
        nv.no_duplicates(),
        removed.len() == nv.len(),
        0 <= i < nv.len(),
        nv.len() <= usize::MAX,
    ensures
        (exists|e: int| 0 <= e < edges.len() && (#[trigger] edges[e]).1 == i && !removed[edges[e].0 as int])
            <==> fed_by(conns, live_set(nv, removed), nv[i]),
{
    if exists|e: int| 0 <= e < edges.len() && (#[trigger] edges[e]).1 == i && !removed[edges[e].0 as int] {
        let e = choose|e: int| 0 <= e < edges.len() && (#[trigger] edges[e]).1 == i && !removed[edges[e].0 as int];
        let a = edges[e].0 as int;
        assert(live_set(nv, removed).contains(nv[a]));
        assert(depends(conns, nv[a], nv[i]));
    }
    if fed_by(conns, live_set(nv, removed), nv[i]) {
        let u = choose|u: IdView| live_set(nv, removed).contains(u) && #[trigger] depends(conns, u, nv[i]);
        let a = choose|a: int| 0 <= a < nv.len() && !removed[a] && nv[a] == u;
        assert(depends(conns, nv[a], nv[i]));
        let e = choose|e: int| 0 <= e < edges.len() && (#[trigger] edges[e]) == (a as usize, i as usize);
        assert((a as usize) as int == a);
        assert((i as usize) as int == i);
        assert(edges[e].1 == i && !removed[edges[e].0 as int]);
    }
}

/// Later rounds leave fewer components: what remains after `j` rounds remained
/// after every earlier round, and a round removes only remaining components.
pub proof fn lemma_remaining_shrinks(conns: &ConnectionMap, r: Set<IdView>, i: nat, j: nat)
    requires
        i <= j,
    ensures
        remaining_after(conns, r, j).subset_of(remaining_after(conns, r, i)),
        stage_at(conns, r, j).subset_of(remaining_after(conns, r, j)),
    decreases j - i,
{
    if i < j {
        lemma_remaining_shrinks(conns, r, i, (j - 1) as nat);
    }
}

proof fn lemma_leaves_in_some_round(conns: &ConnectionMap, r: Set<IdView>, v: IdView, k: nat, bound: nat) -> (j: nat)
    requires
        k <= bound,
        remaining_after(conns, r, k).contains(v),
        !remaining_after(conns, r, bound).contains(v),
    ensures
        k <= j < bound,
        stage_at(conns, r, j).contains(v),
    decreases bound - k,
{
    if remaining_after(conns, r, (k + 1) as nat).contains(v) {
        lemma_leaves_in_some_round(conns, r, v, (k + 1) as nat, bound)
    } else {
        k
    }
}

/// Every component lands in exactly one stage, and stages hold only components.
pub proof fn lemma_stages_partition(conns: &ConnectionMap, ids: Seq<IdView>, st: Seq<Seq<IdView>>)
    requires
        valid_stages(conns, ids, st),
    ensures
        forall|v: IdView| ids.contains(v) ==> exists|k: int| 0 <= k < st.len() && #[trigger] st[k].contains(v),
        forall|v: IdView, k1: int, k2: int| 0 <= k1 < st.len() && 0 <= k2 < st.len()
            && #[trigger] st[k1].contains(v) && #[trigger] st[k2].contains(v) ==> k1 == k2,
        forall|v: IdView, k: int| 0 <= k < st.len() && #[trigger] st[k].contains(v) ==> ids.contains(v),
{
    let r = ids.to_set();
    assert forall|v: IdView| ids.contains(v) implies exists|k: int| 0 <= k < st.len() && #[trigger] st[k].contains(v) by {
        assert(r.contains(v));
        // v remains at round 0 but not at round st.len(): it leaves in some round
        assert(!remaining_after(conns, r, st.len()).contains(v));
        let k = lemma_leaves_in_some_round(conns, r, v, 0, st.len());
        assert(st[k as int].to_set().contains(v));
    }
    assert forall|v: IdView, k1: int, k2: int| 0 <= k1 < st.len() && 0 <= k2 < st.len()
        && #[trigger] st[k1].contains(v) && #[trigger] st[k2].contains(v) implies k1 == k2 by {
        assert(st[k1].to_set().contains(v));
        assert(st[k2].to_set().contains(v));
        if k1 < k2 {
            lemma_remaining_shrinks(conns, r, (k1 + 1) as nat, k2 as nat);
            assert(remaining_after(conns, r, k2 as nat).contains(v));
        } else if k2 < k1 {
            lemma_remaining_shrinks(conns, r, (k2 + 1) as nat, k1 as nat);
            assert(remaining_after(conns, r, k1 as nat).contains(v));
        }
    }
    assert forall|v: IdView, k: int| 0 <= k < st.len() && #[trigger] st[k].contains(v) implies ids.contains(v) by {
        assert(st[k].to_set().contains(v));
        lemma_remaining_shrinks(conns, r, 0, k as nat);
        assert(r.contains(v));
    }
}

/// A component runs in a later stage than every component that feeds it.
pub proof fn lemma_stages_respect_dependencies(
    conns: &ConnectionMap,
    ids: Seq<IdView>,
    st: Seq<Seq<IdView>>,
    a: IdView,
    b: IdView,
    i: int,
    j: int,
)
    requires
        valid_stages(conns, ids, st),
        0 <= i < st.len(),
        0 <= j < st.len(),
        st[i].contains(a),
        st[j].contains(b),
        depends(conns, a, b),
    ensures
        i < j,
{
    let r = ids.to_set();
    assert(st[i].to_set().contains(a));
    assert(st[j].to_set().contains(b));
    if j <= i {
        lemma_remaining_shrinks(conns, r, j as nat, i as nat);
        assert(remaining_after(conns, r, j as nat).contains(a));
        assert(fed_by(conns, remaining_after(conns, r, j as nat), b));
    }
}

/// The staged order is unique: two stage sequences that both meet the contract
/// are equal.
pub proof fn lemma_valid_stages_unique(conns: &ConnectionMap, ids: Seq<IdView>, st1: Seq<Seq<IdView>>, st2: Seq<Seq<IdView>>)
    requires
        valid_stages(conns, ids, st1),
        valid_stages(conns, ids, st2),
    ensures
        st1 == st2,
{
    let r = ids.to_set();
    if st1.len() < st2.len() {
        let k = st1.len() as int;
        assert(st2[k].to_set().contains(st2[k][0]));
        lemma_remaining_shrinks(conns, r, k as nat, k as nat);
        assert(remaining_after(conns, r, k as nat).contains(st2[k][0]));
    } else if st2.len() < st1.len() {
        let k = st2.len() as int;
        assert(st1[k].to_set().contains(st1[k][0]));
        lemma_remaining_shrinks(conns, r, k as nat, k as nat);
        assert(remaining_after(conns, r, k as nat).contains(st1[k][0]));
    }
    assert forall|k: int| 0 <= k < st1.len() implies st1[k] == st2[k] by {
        lemma_sorted_same_set(st1[k], st2[k]);
    }
    assert(st1 =~= st2);
}

/// What building the staged order of `ids` gives: the staged order when the
/// identifiers are distinct and no round gets stuck, else the cycle error.
pub open spec fn stages_built(conns: &ConnectionMap, ids: Seq<IdView>, r: Result<Vec<Vec<ComponentId>>, String>) -> bool {
    match r {
        Ok(stages) => ids.no_duplicates() && valid_stages(conns, ids, stage_views(stages@)),
        Err(e) => e@ == cycle_message() && (!ids.no_duplicates() || gets_stuck(conns, ids.to_set())),
    }
}

/// What building the sub-level order of `ids` gives: one sub-level per stage
/// of the staged order, holding that stage's components, or the cycle error.
pub open spec fn sub_levels_built(conns: &ConnectionMap, ids: Seq<IdView>, r: Result<Vec<Stage>, String>) -> bool {
    match r {
        Ok(stages) => ids.no_duplicates() && exists|st: Seq<Seq<IdView>>| #[trigger] valid_stages(conns, ids, st)
            && stages@.len() == st.len() && forall|k: int| 0 <= k < st.len() ==> (#[trigger] stages@[k]).sub_levels@.len()
            == 1 && id_views(stages@[k].sub_levels@[0].components@) == st[k],
        Err(e) => e@ == cycle_message() && (!ids.no_duplicates() || gets_stuck(conns, ids.to_set())),
    }
}

/// Splitting stages into sub-levels never splits a stage: on the same
/// identifiers and connections the sub-level order is built exactly when the
/// staged order is, fails with the same error otherwise, and then holds one
/// sub-level per stage made of that stage's components.
pub proof fn lemma_sub_levels_follow_stages(
    conns: &ConnectionMap,
    ids: Seq<IdView>,
    staged: Result<Vec<Vec<ComponentId>>, String>,
    split: Result<Vec<Stage>, String>,
)
    requires
        stages_built(conns, ids, staged),
        sub_levels_built(conns, ids, split),
    ensures
        staged is Ok <==> split is Ok,
        staged is Err ==> staged->Err_0@ == split->Err_0@,
        split is Ok ==> split->Ok_0@.len() == staged->Ok_0@.len() && forall|k: int|
            0 <= k < split->Ok_0@.len() ==> (#[trigger] split->Ok_0@[k]).sub_levels@.len() == 1 && id_views(
                split->Ok_0@[k].sub_levels@[0].components@,
            ) == id_views(staged->Ok_0@[k]@),
{
    match staged {
        Ok(stages) => {
            lemma_valid_stages_not_stuck(conns, ids, stage_views(stages@));
            match split {
                Ok(subs) => {
                    let st = choose|st: Seq<Seq<IdView>>| #[trigger] valid_stages(conns, ids, st) && subs@.len()
                        == st.len() && forall|k: int| 0 <= k < st.len() ==> (#[trigger] subs@[k]).sub_levels@.len()
                        == 1 && id_views(subs@[k].sub_levels@[0].components@) == st[k];
                    lemma_valid_stages_unique(conns, ids, st, stage_views(stages@));
                },
                Err(_) => {},
            }
        },
        Err(_) => {
            match split {
                Ok(subs) => {
                    let st = choose|st: Seq<Seq<IdView>>| #[trigger] valid_stages(conns, ids, st) && subs@.len()
                        == st.len() && forall|k: int| 0 <= k < st.len() ==> (#[trigger] subs@[k]).sub_levels@.len()
                        == 1 && id_views(subs@[k].sub_levels@[0].components@) == st[k];
                    lemma_valid_stages_not_stuck(conns, ids, st);
                },
                Err(_) => {},
            }
        },
    }
}

/// When the staged order exists, no round gets stuck.
pub proof fn lemma_valid_stages_not_stuck(conns: &ConnectionMap, ids: Seq<IdView>, st: Seq<Seq<IdView>>)
    requires
        valid_stages(conns, ids, st),
    ensures
        !gets_stuck(conns, ids.to_set()),
{
    let r = ids.to_set();
    assert forall|k: nat| #[trigger] remaining_after(conns, r, k) != Set::<IdView>::empty()
        implies stage_at(conns, r, k) != Set::<IdView>::empty() by {
        if k < st.len() {
            assert(st[k as int].to_set().contains(st[k as int][0]));
        } else {
            lemma_remaining_shrinks(conns, r, st.len(), k);
            assert(remaining_after(conns, r, k) =~= Set::<IdView>::empty());
        }
    }
}

/// The staged order gets stuck exactly when some non-empty set of components is
/// fed from within itself, i.e. when the dependencies contain a cycle.
pub proof fn lemma_stuck_iff_cycle(conns: &ConnectionMap, r: Set<IdView>)
    requires
        r.finite(),
    ensures
        gets_stuck(conns, r) <==> exists|s: Set<IdView>| #[trigger] is_cycle_witness(conns, r, s),
{
    if gets_stuck(conns, r) {
        let s = lemma_stuck_gives_witness(conns, r);
    }
    if exists|s: Set<IdView>| #[trigger] is_cycle_witness(conns, r, s) {
        let s = choose|s: Set<IdView>| #[trigger] is_cycle_witness(conns, r, s);
        lemma_witness_gives_stuck(conns, r, s);
    }
}

proof fn lemma_stuck_gives_witness(conns: &ConnectionMap, r: Set<IdView>) -> (s: Set<IdView>)
    requires
        r.finite(),
        gets_stuck(conns, r),
    ensures
        is_cycle_witness(conns, r, s),
{
    let k = choose|k: nat| #[trigger] remaining_after(conns, r, k) != Set::<IdView>::empty()
        && stage_at(conns, r, k) == Set::<IdView>::empty();
    let s = remaining_after(conns, r, k);
    lemma_remaining_shrinks(conns, r, 0, k);
    vstd::set_lib::lemma_len_subset(s, r);
    assert forall|n: IdView| #[trigger] s.contains(n) implies exists|u: IdView| s.contains(u) && depends(conns, u, n) by {
        if !fed_by(conns, s, n) {
            assert(stage_at(conns, r, k).contains(n));
        }
    }
    assert(s.len() > 0) by {
        if s.len() == 0 {
            s.lemma_len0_is_empty();
        }
    }
    s
}

proof fn lemma_witness_gives_stuck(conns: &ConnectionMap, r: Set<IdView>, s: Set<IdView>)
    requires
        r.finite(),
        is_cycle_witness(conns, r, s),
    ensures
        gets_stuck(conns, r),
{
    let k = (r.len() + 1) as nat;
    lemma_witness_stays(conns, r, s, k);
    if !gets_stuck(conns, r) {
        lemma_rounds_shrink(conns, r, s, k);
        assert(s.subset_of(remaining_after(conns, r, k)));
        vstd::set_lib::lemma_len_subset(s, remaining_after(conns, r, k));
        assert(false);
    }
}

/// The members of a cycle witness are never removed.
proof fn lemma_witness_stays(conns: &ConnectionMap, r: Set<IdView>, s: Set<IdView>, k: nat)
    requires
        is_cycle_witness(conns, r, s),
    ensures
        forall|k2: nat| k2 <= k ==> s.subset_of(#[trigger] remaining_after(conns, r, k2)),
    decreases k,
{
    if k > 0 {
        lemma_witness_stays(conns, r, s, (k - 1) as nat);
        let p = remaining_after(conns, r, (k - 1) as nat);
        assert forall|n: IdView| s.contains(n) implies remaining_after(conns, r, k).contains(n) by {
            let u = choose|u: IdView| s.contains(u) && depends(conns, u, n);
            assert(p.contains(u));
            assert(fed_by(conns, p, n));
        }
    }
}

/// While no round is stuck and a witness keeps the remainder non-empty, every
/// round removes something, so the remainder shrinks by at least one a round.
proof fn lemma_rounds_shrink(conns: &ConnectionMap, r: Set<IdView>, s: Set<IdView>, k: nat)
    requires
        r.finite(),
        is_cycle_witness(conns, r, s),
        !gets_stuck(conns, r),
    ensures
        remaining_after(conns, r, k).finite(),
        remaining_after(conns, r, k).len() + k <= r.len(),
    decreases k,
{
    if k > 0 {
        let j = (k - 1) as nat;
        lemma_rounds_shrink(conns, r, s, j);
        lemma_witness_stays(conns, r, s, j);
        let p = remaining_after(conns, r, j);
        let x = s.choose();
        assert(s.contains(x)) by {
            if !s.contains(x) {
                assert(s =~= Set::<IdView>::empty());
            }
        }
        assert(p.contains(x));
        assert(p != Set::<IdView>::empty());
        assert(stage_at(conns, r, j) != Set::<IdView>::empty());
        let y = stage_at(conns, r, j).choose();
        assert(stage_at(conns, r, j).contains(y)) by {
            if !stage_at(conns, r, j).contains(y) {
                assert(stage_at(conns, r, j) =~= Set::<IdView>::empty());
            }
        }
        let q = remaining_after(conns, r, k);
        assert(q.subset_of(p.remove(y)));
        vstd::set_lib::lemma_len_subset(q, p.remove(y));
    }
}

proof fn lemma_first_live_found(nv: Seq<IdView>, live: Set<IdView>, i: int, j: int)
    requires
        0 <= i <= j < nv.len(),
        live.contains(nv[j]),
        forall|k: int| i <= k < j ==> !live.contains(#[trigger] nv[k]),
    ensures
        first_live_from(nv, live, i) == nv[j],
    decreases j - i,
{
    if i < j {
        lemma_first_live_found(nv, live, i + 1, j);
    }
}

proof fn lemma_first_live_in(nv: Seq<IdView>, live: Set<IdView>, i: int, j: int)
    requires
        0 <= i <= j < nv.len(),
        live.contains(nv[j]),
    ensures
        live.contains(first_live_from(nv, live, i)),
    decreases j - i,
{
    if i < j && !live.contains(nv[i]) {
        lemma_first_live_in(nv, live, i + 1, j);
    }
}

/// A sub-level holds only components still left, and what is left shrinks.
pub proof fn lemma_sub_live_shrinks(conns: &ConnectionMap, nv: Seq<IdView>, i: nat, j: nat)
    requires
        i <= j,
    ensures
        sub_live_after(conns, nv, j).subset_of(sub_live_after(conns, nv, i)),
        sub_live_after(conns, nv, j).subset_of(nv.to_set()),
        sub_level_at(conns, nv, j).subset_of(sub_live_after(conns, nv, j)),
    decreases j,
{
    if j > 0 {
        if i < j {
            lemma_sub_live_shrinks(conns, nv, i, (j - 1) as nat);
        } else {
            lemma_sub_live_shrinks(conns, nv, 0, (j - 1) as nat);
        }
    }
    let live = sub_live_after(conns, nv, j);
    if live != Set::<IdView>::empty() && ready_set(conns, live) == Set::<IdView>::empty() {
        let v = live.choose();
        assert(live.contains(v)) by {
            if !live.contains(v) {
                assert(live =~= Set::<IdView>::empty());
            }
        }
        if j > 0 {
            lemma_sub_live_shrinks(conns, nv, 0, (j - 1) as nat);
        }
        assert(nv.to_set().contains(v));
        let k = choose|k: int| 0 <= k < nv.len() && nv[k] == v;
        lemma_first_live_in(nv, live, 0, k);
    }
}

/// Inside a stage, a component sits in a later sub-level than every component
/// of the stage that feeds it, whenever its own sub-level was made of the
/// ready components (the fallback for a cycle inside the stage excepted).
pub proof fn lemma_sub_levels_respect_dependencies(
    conns: &ConnectionMap,
    nv: Seq<IdView>,
    levels: Seq<Seq<IdView>>,
    a: IdView,
    b: IdView,
    i: int,
    j: int,
)
    requires
        valid_sub_levels(conns, nv, levels),
        0 <= i < levels.len(),
        0 <= j < levels.len(),
        levels[i].contains(a),
        levels[j].contains(b),
        depends(conns, a, b),
        ready_set(conns, sub_live_after(conns, nv, j as nat)) != Set::<IdView>::empty(),
    ensures
        i < j,
{
    assert(levels[i].to_set().contains(a));
    assert(levels[j].to_set().contains(b));
    if j <= i {
        let lj = sub_live_after(conns, nv, j as nat);
        lemma_sub_live_shrinks(conns, nv, j as nat, i as nat);
        assert(lj.contains(a));
        assert(lj != Set::<IdView>::empty());
        assert(ready_set(conns, lj).contains(b));
        assert(fed_by(conns, lj, b));
    }
}

/// A stage whose members never feed one another is a single sub-level.
pub proof fn lemma_independent_stage_one_level(conns: &ConnectionMap, nv: Seq<IdView>, levels: Seq<Seq<IdView>>)
    requires
        valid_sub_levels(conns, nv, levels),
        nv.len() > 0,
        forall|a: IdView, b: IdView| nv.contains(a) && nv.contains(b) ==> !#[trigger] depends(conns, a, b),
    ensures
        levels.len() == 1,
        levels[0].to_set() == nv.to_set(),
{
    let r = nv.to_set();
    assert(r.contains(nv[0]));
    assert forall|v: IdView| r.contains(v) implies ready_set(conns, r).contains(v) by {
        if fed_by(conns, r, v) {
            let u = choose|u: IdView| r.contains(u) && #[trigger] depends(conns, u, v);
        }
    }
    assert(ready_set(conns, r) =~= r);
    assert(sub_level_at(conns, nv, 0) == r);
    assert(sub_live_after(conns, nv, 1) =~= Set::<IdView>::empty());
    if levels.len() == 0 {
        assert(sub_live_after(conns, nv, 0) == r);
    }
    if levels.len() > 1 {
        assert(levels[1].to_set().contains(levels[1][0]));
        assert(sub_level_at(conns, nv, 1) =~= Set::<IdView>::empty());
    }
}

/// Components of one stage never feed one another.
pub proof fn lemma_stage_independent(conns: &ConnectionMap, r: Set<IdView>, k: nat)
    ensures
        forall|a: IdView, b: IdView| stage_at(conns, r, k).contains(a) && stage_at(conns, r, k).contains(b)
            ==> !#[trigger] depends(conns, a, b),
{
    let rem = remaining_after(conns, r, k);
    assert forall|a: IdView, b: IdView| stage_at(conns, r, k).contains(a) && stage_at(conns, r, k).contains(b)
        implies !#[trigger] depends(conns, a, b) by {
        if depends(conns, a, b) {
            assert(rem.contains(a));
            assert(fed_by(conns, rem, b));
        }
    }
}

/// Two strictly sorted sequences with the same elements are equal.
pub proof fn lemma_sorted_same_set(a: Seq<IdView>, b: Seq<IdView>)
    requires
        sorted_ids(a),
        sorted_ids(b),
        a.to_set() == b.to_set(),
    ensures
        a == b,
    decreases a.len(),
{
    if a.len() == 0 {
        if b.len() > 0 {
            assert(b.to_set().contains(b[0]));
        }
        assert(a =~= b);
    } else if b.len() == 0 {
        assert(a.to_set().contains(a[0]));
    } else {
        // the first elements are both the least element
        assert(b.to_set().contains(a[0]));
        assert(a.to_set().contains(b[0]));
        let i = choose|i: int| 0 <= i < b.len() && b[i] == a[0];
        let j = choose|j: int| 0 <= j < a.len() && a[j] == b[0];
        if i > 0 {
            assert(id_less(b[0], b[i]));
            if j > 0 {
                assert(id_less(a[0], a[j]));
                lemma_id_less_asymmetric(a[0], b[0]);
            } else {
                lemma_id_less_irreflexive(a[0]);
            }
        }
        assert(a[0] == b[0]);
        lemma_sorted_distinct(a);
        lemma_sorted_distinct(b);
        let a1 = a.drop_first();
        let b1 = b.drop_first();
        assert forall|x: IdView| a1.to_set().contains(x) implies b1.to_set().contains(x) by {
            let p = choose|p: int| 0 <= p < a1.len() && a1[p] == x;
            assert(b.to_set().contains(x));
            let q = choose|q: int| 0 <= q < b.len() && b[q] == x;
            if q == 0 {
                assert(a[p + 1] == a[0]);
            } else {
                assert(b1[q - 1] == x);
            }
        }
        assert forall|x: IdView| b1.to_set().contains(x) implies a1.to_set().contains(x) by {
            let p = choose|p: int| 0 <= p < b1.len() && b1[p] == x;
            assert(a.to_set().contains(x));
            let q = choose|q: int| 0 <= q < a.len() && a[q] == x;
            if q == 0 {
                assert(b[p + 1] == b[0]);
            } else {
                assert(a1[q - 1] == x);
            }
        }
        assert(a1.to_set() =~= b1.to_set());
        assert(sorted_ids(a1)) by {
            assert forall|x: int, y: int| 0 <= x < y < a1.len() implies id_less(#[trigger] a1[x], #[trigger] a1[y]) by {
                assert(a1[x] == a[x + 1] && a1[y] == a[y + 1]);
            }
        }
        assert(sorted_ids(b1)) by {
            assert forall|x: int, y: int| 0 <= x < y < b1.len() implies id_less(#[trigger] b1[x], #[trigger] b1[y]) by {
                assert(b1[x] == b[x + 1] && b1[y] == b[y + 1]);
            }
        }
        lemma_sorted_same_set(a1, b1);
        assert(a =~= seq![a[0]] + a1);
        assert(b =~= seq![b[0]] + b1);
    }
}

/// A strictly sorted sequence has no repeated element.
pub proof fn lemma_sorted_distinct(s: Seq<IdView>)
    requires
        sorted_ids(s),
    ensures
        s.no_duplicates(),
{
    assert forall|a: int, b: int| 0 <= a < s.len() && 0 <= b < s.len() && a != b implies s[a] != s[b] by {
        if a < b {
            lemma_id_less_irreflexive(s[a]);
        } else {
            lemma_id_less_irreflexive(s[b]);
        }
    }
}

impl ExecutionOrderBuilder {
    /// Whether some identifier occurs twice.
    fn has_duplicate_ids(ids: &[ComponentId]) -> (b: bool)
        ensures
            b == !id_views(ids@).no_duplicates(),
    {
        let n = ids.len();
        let mut i: usize = 0;
        while i < n
            invariant
                n == ids@.len(),
                i <= n,
                forall|a: int, b: int| 0 <= a < i && 0 <= b < n && a != b ==> ids@[a]@ != ids@[b]@,
            decreases n - i,
        {
            let mut j: usize = 0;
            while j < n
                invariant
                    n == ids@.len(),
                    i < n,
                    j <= n,
                    forall|a: int, b: int| 0 <= a < i && 0 <= b < n && a != b ==> ids@[a]@ != ids@[b]@,
                    forall|b: int| 0 <= b < j && b != i ==> ids@[i as int]@ != ids@[b]@,
                decreases n - j,
            {
                if j != i && ids[i].same_as(&ids[j]) {
                    proof {
                        assert(id_views(ids@)[i as int] == id_views(ids@)[j as int]);
                    }
                    return true;
                }
                j = j + 1;
            }
            i = i + 1;
        }
        proof {
            assert forall|a: int, b: int|
                0 <= a < id_views(ids@).len() && 0 <= b < id_views(ids@).len() && a != b implies
                id_views(ids@)[a] != id_views(ids@)[b] by {
                assert(ids@[a]@ != ids@[b]@);
            }
        }
        false
    }

    /// Position of an identifier among distinct nodes.
    fn position_of(nodes: &[ComponentId], id: &ComponentId) -> (r: Option<usize>)
        ensures
            match r {
                Some(i) => i < nodes@.len() && nodes@[i as int]@ == id@,
                None => forall|i: int| 0 <= i < nodes@.len() ==> nodes@[i]@ != id@,
            },
    {
        let mut i: usize = 0;
        while i < nodes.len()
            invariant
                i <= nodes@.len(),
                forall|j: int| 0 <= j < i ==> nodes@[j]@ != id@,
            decreases nodes@.len() - i,
        {
            if nodes[i].same_as(id) {
                return Some(i);
            }
            i = i + 1;
        }
        None
    }

    /// The dependencies among the nodes, as pairs of positions.
    fn collect_edges(nodes: &[ComponentId], conns: &ConnectionMap) -> (edges: Vec<(usize, usize)>)
        requires
            id_views(nodes@).no_duplicates(),
        ensures
            edges_exact(conns, id_views(nodes@), edges@),
    {
        let ghost nv = id_views(nodes@);
        let mut edges: Vec<(usize, usize)> = Vec::new();
        let m = conns.len();
        let mut i: usize = 0;
        while i < m
            invariant
                m == conns.entries().len(),
                i <= m,
                nv == id_views(nodes@),
                nv.no_duplicates(),
                forall|e: int| 0 <= e < edges@.len() ==> (#[trigger] edges@[e]).0 < nv.len() && edges@[e].1 < nv.len()
                    && depends(conns, nv[edges@[e].0 as int], nv[edges@[e].1 as int]),
                forall|a: int, b: int, ii: int, jj: int| #![trigger tgt_id(conns, ii, jj), nv[a], nv[b]]
                    0 <= a < nv.len() && 0 <= b < nv.len() && 0 <= ii < i && 0 <= jj < conns.entries()[ii].1@.len()
                    && src_id(conns, ii) == nv[a] && tgt_id(conns, ii, jj) == nv[b]
                    ==> exists|e: int| 0 <= e < edges@.len() && (#[trigger] edges@[e]) == (a as usize, b as usize),
            decreases m - i,
        {
            let src = conns.key_at(i);
            let targets = conns.value_at(i);
            match Self::position_of(nodes, &src.0) {
                None => {
                    proof {
                        assert forall|a: int, b: int, ii: int, jj: int| #![trigger tgt_id(conns, ii, jj), nv[a], nv[b]]
                            0 <= a < nv.len() && 0 <= b < nv.len() && 0 <= ii < i + 1 && 0 <= jj < conns.entries()[ii].1@.len()
                            && src_id(conns, ii) == nv[a] && tgt_id(conns, ii, jj) == nv[b]
                            implies exists|e: int| 0 <= e < edges@.len() && (#[trigger] edges@[e]) == (a as usize, b as usize) by {
                            if ii == i {
                                assert(nodes@[a]@ == nv[a]);
                            }
                        }
                    }
                },
                Some(si) => {
                    let mut j: usize = 0;
                    while j < targets.len()
                        invariant
                            m == conns.entries().len(),
                            i < m,
                            *src == conns.entries()[i as int].0,
                            *targets == conns.entries()[i as int].1,
                            si < nv.len(),
                            nv[si as int] == src.0@,
                            j <= targets@.len(),
                            nv == id_views(nodes@),
                            nv.no_duplicates(),
                            forall|e: int| 0 <= e < edges@.len() ==> (#[trigger] edges@[e]).0 < nv.len() && edges@[e].1 < nv.len()
                                && depends(conns, nv[edges@[e].0 as int], nv[edges@[e].1 as int]),
                            forall|a: int, b: int, ii: int, jj: int| #![trigger tgt_id(conns, ii, jj), nv[a], nv[b]]
                                0 <= a < nv.len() && 0 <= b < nv.len() && 0 <= ii < i && 0 <= jj < conns.entries()[ii].1@.len()
                                && src_id(conns, ii) == nv[a] && tgt_id(conns, ii, jj) == nv[b]
                                ==> exists|e: int| 0 <= e < edges@.len() && (#[trigger] edges@[e]) == (a as usize, b as usize),
                            forall|b: int, jj: int| #![trigger targets@[jj], nv[b]] 0 <= b < nv.len() && 0 <= jj < j && targets@[jj].0@ == nv[b]
                                ==> exists|e: int| 0 <= e < edges@.len() && (#[trigger] edges@[e]) == (si, b as usize),
                        decreases targets@.len() - j,
                    {
                        let tgt = &targets[j];
                        match Self::position_of(nodes, &tgt.0) {
                            Some(ti) => {
                                let ghost old_edges = edges@;
                                edges.push((si, ti));
                                proof {
                                    assert(depends(conns, nv[si as int], nv[ti as int])) by {
                                        assert(src_id(conns, i as int) == nv[si as int]);
                                        assert(tgt_id(conns, i as int, j as int) == nv[ti as int]);
                                    }
                                    assert(edges@[old_edges.len() as int] == (si, ti));
                                    assert forall|a: int, b: int, ii: int, jj: int| #![trigger tgt_id(conns, ii, jj), nv[a], nv[b]]
                                        0 <= a < nv.len() && 0 <= b < nv.len() && 0 <= ii < i && 0 <= jj < conns.entries()[ii].1@.len()
                                        && src_id(conns, ii) == nv[a] && tgt_id(conns, ii, jj) == nv[b]
                                        implies exists|e: int| 0 <= e < edges@.len() && (#[trigger] edges@[e]) == (a as usize, b as usize) by {
                                        let e = choose|e: int| 0 <= e < old_edges.len() && (#[trigger] old_edges[e]) == (a as usize, b as usize);
                                        assert(edges@[e] == old_edges[e]);
                                    }
                                    assert forall|b: int, jj: int| #![trigger targets@[jj], nv[b]] 0 <= b < nv.len() && 0 <= jj < j + 1 && targets@[jj].0@ == nv[b]
                                        implies exists|e: int| 0 <= e < edges@.len() && (#[trigger] edges@[e]) == (si, b as usize) by {
                                        if jj < j {
                                            let e = choose|e: int| 0 <= e < old_edges.len() && (#[trigger] old_edges[e]) == (si, b as usize);
                                            assert(edges@[e] == old_edges[e]);
                                        } else {
                                            assert(nodes@[b]@ == nv[b]);
                                            assert(nodes@[ti as int]@ == nv[ti as int]);
                                            assert(b == ti as int);
                                            assert(edges@[old_edges.len() as int] == (si, b as usize));
                                        }
                                    }
                                }
                            },
                            None => {
                                proof {
                                    assert forall|b: int, jj: int| #![trigger targets@[jj], nv[b]] 0 <= b < nv.len() && 0 <= jj < j + 1 && targets@[jj].0@ == nv[b]
                                        implies exists|e: int| 0 <= e < edges@.len() && (#[trigger] edges@[e]) == (si, b as usize) by {
                                        if jj == j {
                                            assert(nodes@[b]@ == nv[b]);
                                        }
                                    }
                                }
                            },
                        }
                        j = j + 1;
                    }
                    proof {
                        assert forall|a: int, b: int, ii: int, jj: int| #![trigger tgt_id(conns, ii, jj), nv[a], nv[b]]
                            0 <= a < nv.len() && 0 <= b < nv.len() && 0 <= ii < i + 1 && 0 <= jj < conns.entries()[ii].1@.len()
                            && src_id(conns, ii) == nv[a] && tgt_id(conns, ii, jj) == nv[b]
                            implies exists|e: int| 0 <= e < edges@.len() && (#[trigger] edges@[e]) == (a as usize, b as usize) by {
                            if ii == i {
                                assert(nodes@[a]@ == nv[a]);
                                assert(nodes@[si as int]@ == nv[si as int]);
                                assert(a == si as int);
                                assert(targets@[jj].0@ == nv[b]);
                            }
                        }
                    }
                },
            }
            i = i + 1;
        }
        proof {
            assert forall|a: int, b: int| 0 <= a < nv.len() && 0 <= b < nv.len()
                && #[trigger] depends(conns, nv[a], nv[b]) implies exists|e: int| 0 <= e < edges@.len()
                && (#[trigger] edges@[e]) == (a as usize, b as usize) by {
                let (ii, jj) = choose|ii: int, jj: int|
                    0 <= ii < conns.entries().len() && 0 <= jj < conns.entries()[ii].1@.len()
                        && src_id(conns, ii) == nv[a] && tgt_id(conns, ii, jj) == nv[b];
            }
        }
        edges
    }

    /// Inserts an identifier into a sorted vector at its place.
    fn insert_sorted(r: &mut Vec<ComponentId>, x: ComponentId)
        requires
            sorted_ids(id_views(old(r)@)),
            !id_views(old(r)@).contains(x@),
        ensures
            sorted_ids(id_views(final(r)@)),
            final(r)@.len() == old(r)@.len() + 1,
            id_views(final(r)@).to_set() == id_views(old(r)@).to_set().insert(x@),
    {
        let mut p: usize = 0;
        while p < r.len() && r[p].compare(&x) == Order::Less
            invariant
                p <= r@.len(),
                forall|q: int| 0 <= q < p ==> id_less(r@[q]@, x@),
            decreases r@.len() - p,
        {
            p = p + 1;
        }
        let ghost old_r = r@;
        let ghost ov = id_views(old_r);
        proof {
            if p < r@.len() {
                assert(ov[p as int] == r@[p as int]@);
                lemma_id_less_total(r@[p as int]@, x@);
            }
        }
        r.insert(p, x);
        let ghost nv = id_views(r@);
        proof {
            assert(nv =~= ov.insert(p as int, x@));
            assert forall|a: int, b: int| 0 <= a < b < nv.len() implies
                id_less(#[trigger] nv[a], #[trigger] nv[b]) by {
                if b < p {
                } else if b == p {
                    assert(ov[a] == old_r[a]@);
                } else if a == p {
                    if b - 1 > p {
                        lemma_id_less_transitive(x@, ov[p as int], ov[b - 1]);
                    }
                } else if a < p {
                } else {
                }
            }
            assert(nv.to_set() =~= ov.to_set().insert(x@)) by {
                assert forall|y: IdView| nv.to_set().contains(y) implies ov.to_set().insert(x@).contains(y) by {
                    let a = choose|a: int| 0 <= a < nv.len() && nv[a] == y;
                    if a < p {
                        assert(ov[a] == y);
                    } else if a > p {
                        assert(ov[a - 1] == y);
                    }
                }
                assert forall|y: IdView| ov.to_set().insert(x@).contains(y) implies nv.to_set().contains(y) by {
                    if y == x@ {
                        assert(nv[p as int] == y);
                    } else {
                        let a = choose|a: int| 0 <= a < ov.len() && ov[a] == y;
                        if a < p {
                            assert(nv[a] == y);
                        } else {
                            assert(nv[a + 1] == y);
                        }
                    }
                }
            }
        }
    }

    /// Sorts distinct identifiers into identifier order.
    pub fn sort_ids(v: Vec<ComponentId>) -> (r: Vec<ComponentId>)
        requires
            id_views(v@).no_duplicates(),
        ensures
            r@.len() == v@.len(),
            sorted_ids(id_views(r@)),
            id_views(r@).to_set() == id_views(v@).to_set(),
            id_views(r@).no_duplicates(),
    {
        let mut r: Vec<ComponentId> = Vec::new();
        let mut i: usize = 0;
        let n = v.len();
        let ghost vv = id_views(v@);
        assert(id_views(r@).to_set() =~= vv.take(0).to_set());
        while i < n
            invariant
                n == v@.len(),
                vv == id_views(v@),
                i <= n,
                vv.no_duplicates(),
                r@.len() == i,
                sorted_ids(id_views(r@)),
                id_views(r@).to_set() == vv.take(i as int).to_set(),
            decreases n - i,
        {
            let x = v[i].duplicate();
            proof {
                if id_views(r@).contains(x@) {
                    assert(vv.take(i as int).to_set().contains(x@));
                    let b = choose|b: int| 0 <= b < i && vv.take(i as int)[b] == x@;
                    assert(vv[b] == vv[i as int]);
                }
            }
            Self::insert_sorted(&mut r, x);
            proof {
                assert(vv.take(i as int + 1) =~= vv.take(i as int).push(vv[i as int]));
                lemma_push_to_set(vv.take(i as int), vv[i as int]);
            }
            i = i + 1;
        }
        proof {
            assert(vv.take(n as int) =~= vv);
            lemma_sorted_distinct(id_views(r@));
        }
        r
    }

    /// Whether node `i` has a predecessor that is not yet removed.
    fn has_live_pred(edges: &Vec<(usize, usize)>, removed: &Vec<bool>, i: usize) -> (b: bool)
        requires
            forall|e: int| 0 <= e < edges@.len() ==> (#[trigger] edges@[e]).0 < removed@.len(),
        ensures
            b == exists|e: int| 0 <= e < edges@.len() && (#[trigger] edges@[e]).1 == i && !removed@[edges@[e].0 as int],
    {
        let mut e: usize = 0;
        while e < edges.len()
            invariant
                e <= edges@.len(),
                forall|e: int| 0 <= e < edges@.len() ==> (#[trigger] edges@[e]).0 < removed@.len(),
                forall|f: int| 0 <= f < e ==> !((#[trigger] edges@[f]).1 == i && !removed@[edges@[f].0 as int]),
            decreases edges@.len() - e,
        {
            let (a, b) = edges[e];
            if b == i && !removed[a] {
                return true;
            }
            e = e + 1;
        }
        false
    }

    /// The positions of the live nodes with no live predecessor, in increasing order.
    fn ready_positions(conns: &ConnectionMap, nodes: &[ComponentId], edges: &Vec<(usize, usize)>, removed: &Vec<bool>) -> (r: Vec<usize>)
        requires
            edges_exact(conns, id_views(nodes@), edges@),
            id_views(nodes@).no_duplicates(),
            removed@.len() == nodes@.len(),
        ensures
            forall|a: int, b: int| 0 <= a < b < r@.len() ==> r@[a] < r@[b],
            forall|a: int| 0 <= a < r@.len() ==> #[trigger] r@[a] < nodes@.len() && !removed@[r@[a] as int],
            r@.map_values(|p: usize| id_views(nodes@)[p as int]).to_set()
                == ready_set(conns, live_set(id_views(nodes@), removed@)),
    {
        let ghost nv = id_views(nodes@);
        let ghost live = live_set(nv, removed@);
        let mut r: Vec<usize> = Vec::new();
        let n = nodes.len();
        let mut i: usize = 0;
        while i < n
            invariant
                n == nodes@.len(),
                nv == id_views(nodes@),
                live == live_set(nv, removed@),
                edges_exact(conns, nv, edges@),
                nv.no_duplicates(),
                removed@.len() == n,
                i <= n,
                forall|a: int, b: int| 0 <= a < b < r@.len() ==> r@[a] < r@[b],
                forall|a: int| 0 <= a < r@.len() ==> #[trigger] r@[a] < i && !removed@[r@[a] as int],
                forall|a: int| 0 <= a < r@.len() ==> !fed_by(conns, live, nv[r@[a] as int]),
                forall|j: int| 0 <= j < i && !removed@[j] && !fed_by(conns, live, nv[j])
                    ==> exists|a: int| 0 <= a < r@.len() && #[trigger] r@[a] == j,
            decreases n - i,
        {
            if !removed[i] && !Self::has_live_pred(edges, removed, i) {
                proof {
                    lemma_live_pred(conns, nv, edges@, removed@, i as int);
                }
                let ghost old_r = r@;
                r.push(i);
                proof {
                    assert forall|j: int| 0 <= j < i + 1 && !removed@[j] && !fed_by(conns, live, nv[j])
                        implies exists|a: int| 0 <= a < r@.len() && #[trigger] r@[a] == j by {
                        if j < i {
                            let a = choose|a: int| 0 <= a < old_r.len() && #[trigger] old_r[a] == j;
                            assert(r@[a] == j);
                        } else {
                            assert(r@[old_r.len() as int] == j);
                        }
                    }
                }
            } else {
                proof {
                    lemma_live_pred(conns, nv, edges@, removed@, i as int);
                }
            }
            i = i + 1;
        }
        proof {
            let rv = r@.map_values(|p: usize| nv[p as int]);
            let rs = ready_set(conns, live);
            assert forall|v: IdView| rv.to_set().contains(v) implies rs.contains(v) by {
                let a = choose|a: int| 0 <= a < rv.len() && rv[a] == v;
                assert(r@[a] < n);
                assert(live.contains(nv[r@[a] as int]));
            }
            assert forall|v: IdView| rs.contains(v) implies rv.to_set().contains(v) by {
                let j = choose|j: int| 0 <= j < nv.len() && !removed@[j] && nv[j] == v;
                let a = choose|a: int| 0 <= a < r@.len() && #[trigger] r@[a] == j;
                assert(rv[a] == v);
            }
            assert(rv.to_set() =~= rs);
        }
        r
    }

    /// Marks the given positions removed.
    fn mark_removed(removed: &mut Vec<bool>, ready: &Vec<usize>, processed: &mut usize, Ghost(nv): Ghost<Seq<IdView>>)
        requires
            forall|a: int, b: int| 0 <= a < b < ready@.len() ==> ready@[a] < ready@[b],
            forall|a: int| 0 <= a < ready@.len() ==> #[trigger] ready@[a] < old(removed)@.len() && !old(removed)@[ready@[a] as int],
            *old(processed) + live_count(old(removed)@) == old(removed)@.len(),
            nv.len() == old(removed)@.len(),
            nv.no_duplicates(),
        ensures
            final(removed)@.len() == old(removed)@.len(),
            *final(processed) + live_count(final(removed)@) == old(removed)@.len(),
            *final(processed) == *old(processed) + ready@.len(),
            live_set(nv, final(removed)@) == live_set(nv, old(removed)@).difference(
                ready@.map_values(|p: usize| nv[p as int]).to_set()),
    {
        let ghost old_removed = removed@;
        let n = removed.len();
        let mut k: usize = 0;
        while k < ready.len()
            invariant
                removed@.len() == n,
                old_removed.len() == n,
                k <= ready@.len(),
                forall|a: int, b: int| 0 <= a < b < ready@.len() ==> ready@[a] < ready@[b],
                forall|a: int| 0 <= a < ready@.len() ==> #[trigger] ready@[a] < n && !old_removed[ready@[a] as int],
                *processed + live_count(removed@) == n,
                *processed == *old(processed) + k,
                forall|i: int| 0 <= i < n ==> #[trigger] removed@[i] == (old_removed[i] || exists|a: int| 0 <= a < k && ready@[a] == i),
            decreases ready@.len() - k,
        {
            let p = ready[k];
            proof {
                assert(!removed@[p as int]) by {
                    if exists|a: int| 0 <= a < k && ready@[a] == p {
                        let a = choose|a: int| 0 <= a < k && ready@[a] == p;
                        assert(ready@[a] < ready@[k as int]);
                    }
                }
                lemma_live_count_update(removed@, p as int);
                lemma_live_count_positive(removed@, p as int);
            }
            removed.set(p, true);
            *processed = *processed + 1;
            proof {
                assert forall|i: int| 0 <= i < n implies #[trigger] removed@[i] == (old_removed[i] || exists|a: int| 0 <= a < k + 1 && ready@[a] == i) by {
                    if i == p as int {
                        assert(ready@[k as int] == i);
                    }
                }
            }
            k = k + 1;
        }
        proof {
            let rq = ready@.map_values(|p: usize| nv[p as int]);
            let rs = rq.to_set();
            let old_live = live_set(nv, old_removed);
            assert forall|v: IdView| live_set(nv, removed@).contains(v) implies old_live.difference(rs).contains(v) by {
                let i = choose|i: int| 0 <= i < nv.len() && !removed@[i] && nv[i] == v;
                assert(old_live.contains(v));
                if rs.contains(v) {
                    let a = choose|a: int| 0 <= a < rq.len() && #[trigger] rq[a] == v;
                    assert(nv[ready@[a] as int] == nv[i]);
                    assert(ready@[a] as int == i);
                    assert(removed@[i]);
                }
            }
            assert forall|v: IdView| old_live.difference(rs).contains(v) implies live_set(nv, removed@).contains(v) by {
                let i = choose|i: int| 0 <= i < nv.len() && !old_removed[i] && nv[i] == v;
                if removed@[i] {
                    let a = choose|a: int| 0 <= a < ready@.len() && ready@[a] == i;
                    assert(rq[a] == v);
                    assert(rs.contains(v));
                }
            }
            assert(live_set(nv, removed@) =~= old_live.difference(rs));
        }
    }

    /// Analyzes the graph of processing components to build a topologically sorted
    /// execution order organized into stages for concurrent execution.  Stage `k`
    /// holds, in identifier order, the components that nothing left after the
    /// earlier stages feeds.  When some components are left and none of them is
    /// ready (a dependency cycle), or when an identifier is listed twice, the
    /// order cannot be built.
    pub fn build_execution_order_stages(
        component_ids: &[ComponentId],
        connections: &ConnectionMap,
    ) -> (r: Result<Vec<Vec<ComponentId>>, String>)
        ensures
            stages_built(connections, id_views(component_ids@), r),
    {
        if Self::has_duplicate_ids(component_ids) {
            return Err(crate::strings::owned("Cycle detected in component dependencies"));
        }
        let ghost nv = id_views(component_ids@);
        let ghost big_r = nv.to_set();
        let edges = Self::collect_edges(component_ids, connections);
        let n = component_ids.len();
        let mut removed: Vec<bool> = Vec::new();
        let mut i: usize = 0;
        while i < n
            invariant
                i <= n,
                removed@.len() == i,
                forall|j: int| 0 <= j < i ==> !removed@[j],
                live_count(removed@) == i,
            decreases n - i,
        {
            let ghost before = removed@;
            removed.push(false);
            proof {
                assert(removed@.drop_last() =~= before);
            }
            i = i + 1;
        }
        assert(live_set(nv, removed@) =~= big_r);
        let mut processed: usize = 0;
        let mut stages: Vec<Vec<ComponentId>> = Vec::new();
        while processed < n
            invariant
                n == component_ids@.len(),
                nv == id_views(component_ids@),
                big_r == nv.to_set(),
                nv.no_duplicates(),
                edges_exact(connections, nv, edges@),
                removed@.len() == n,
                processed + live_count(removed@) == n,
                live_set(nv, removed@) == remaining_after(connections, big_r, stages@.len() as nat),
                forall|k: int| 0 <= k < stages@.len() ==> {
                    &&& (#[trigger] stage_views(stages@)[k]).to_set() == stage_at(connections, big_r, k as nat)
                    &&& stage_views(stages@)[k].len() > 0
                    &&& sorted_ids(stage_views(stages@)[k])
                },
            decreases n - processed,
        {
            let ghost k = stages@.len() as nat;
            let ghost live = live_set(nv, removed@);
            let ready = Self::ready_positions(connections, component_ids, &edges, &removed);
            let ghost rs = ready@.map_values(|p: usize| nv[p as int]);
            if ready.len() == 0 {
                proof {
                    assert(rs.to_set() =~= Set::<IdView>::empty());
                    lemma_live_count_witness(removed@);
                    let j = choose|j: int| 0 <= j < n && !removed@[j];
                    assert(live.contains(nv[j]));
                    assert(remaining_after(connections, big_r, k) != Set::<IdView>::empty());
                }
                return Err(crate::strings::owned("Cycle detected in component dependencies"));
            }
            let mut stage_ids: Vec<ComponentId> = Vec::new();
            let mut a: usize = 0;
            while a < ready.len()
                invariant
                    a <= ready@.len(),
                    n == component_ids@.len(),
                    nv == id_views(component_ids@),
                    forall|x: int| 0 <= x < ready@.len() ==> #[trigger] ready@[x] < n,
                    stage_ids@.len() == a,
                    forall|x: int| 0 <= x < a ==> (#[trigger] stage_ids@[x])@ == nv[ready@[x] as int],
                decreases ready@.len() - a,
            {
                stage_ids.push(component_ids[ready[a]].duplicate());
                a = a + 1;
            }
            proof {
                assert(id_views(stage_ids@) =~= rs);
                assert forall|x: int, y: int| 0 <= x < rs.len() && 0 <= y < rs.len() && x != y implies rs[x] != rs[y] by {
                    if x < y {
                        assert(ready@[x] < ready@[y]);
                    } else {
                        assert(ready@[y] < ready@[x]);
                    }
                }
            }
            let stage = Self::sort_ids(stage_ids);
            Self::mark_removed(&mut removed, &ready, &mut processed, Ghost(nv));
            let ghost old_stages = stages@;
            stages.push(stage);
            proof {
                assert(stage_views(stages@) =~= stage_views(old_stages).push(id_views(stage@)));
                assert(remaining_after(connections, big_r, (k + 1) as nat)
                    == remaining_after(connections, big_r, k).difference(stage_at(connections, big_r, k)));
            }
        }
        proof {
            assert forall|v: IdView| !live_set(nv, removed@).contains(v) by {
                if live_set(nv, removed@).contains(v) {
                    let j = choose|j: int| 0 <= j < n && !removed@[j] && nv[j] == v;
                    lemma_live_count_positive(removed@, j);
                }
            }
            assert(live_set(nv, removed@) =~= Set::<IdView>::empty());
        }
        Ok(stages)
    }

    /// Splits a stage into sub-levels that run one after another.  Each sub-level
    /// holds, in identifier order, the components left in the stage that no
    /// component left in the stage feeds; connections from components outside
    /// the stage play no part.  When every component left is fed from inside the
    /// stage (a cycle), the first of them in the stage's order goes alone.  An
    /// empty stage gives one empty sub-level.
    pub fn subdivide_stage_into_sub_levels(
        stage_components: &[ComponentId],
        connections: &ConnectionMap,
    ) -> (r: Result<Vec<SubLevel>, String>)
        requires
            id_views(stage_components@).no_duplicates(),
        ensures
            match r {
                Ok(levels) => if stage_components@.len() == 0 {
                    levels@.len() == 1 && levels@[0].components@.len() == 0
                } else {
                    valid_sub_levels(connections, id_views(stage_components@), level_views(levels@))
                },
                Err(_) => false,
            },
    {
        let ghost nv = id_views(stage_components@);
        let edges = Self::collect_edges(stage_components, connections);
        let n = stage_components.len();
        let mut removed: Vec<bool> = Vec::new();
        let mut i: usize = 0;
        while i < n
            invariant
                i <= n,
                removed@.len() == i,
                forall|j: int| 0 <= j < i ==> !removed@[j],
                live_count(removed@) == i,
            decreases n - i,
        {
            let ghost before = removed@;
            removed.push(false);
            proof {
                assert(removed@.drop_last() =~= before);
            }
            i = i + 1;
        }
        proof {
            assert forall|v: IdView| nv.to_set().contains(v) implies live_set(nv, removed@).contains(v) by {
                let k = choose|k: int| 0 <= k < nv.len() && nv[k] == v;
                assert(!removed@[k]);
            }
            assert(live_set(nv, removed@) =~= nv.to_set());
        }
        let mut processed: usize = 0;
        let mut sub_levels: Vec<SubLevel> = Vec::new();
        while processed < n
            invariant
                n == stage_components@.len(),
                nv == id_views(stage_components@),
                nv.no_duplicates(),
                edges_exact(connections, nv, edges@),
                removed@.len() == n,
                processed + live_count(removed@) == n,
                sub_levels@.len() <= processed,
                sub_levels@.len() == 0 ==> processed == 0,
                live_set(nv, removed@) == sub_live_after(connections, nv, sub_levels@.len() as nat),
                forall|k: int| 0 <= k < sub_levels@.len() ==> {
                    &&& (#[trigger] level_views(sub_levels@)[k]).to_set() == sub_level_at(connections, nv, k as nat)
                    &&& level_views(sub_levels@)[k].len() > 0
                    &&& sorted_ids(level_views(sub_levels@)[k])
                },
            decreases n - processed,
        {
            let ghost live = live_set(nv, removed@);
            proof {
                lemma_live_count_witness(removed@);
                let w = choose|w: int| 0 <= w < removed@.len() && !removed@[w];
                assert(live.contains(nv[w]));
                assert(live != Set::<IdView>::empty());
            }
            let mut ready = Self::ready_positions(connections, stage_components, &edges, &removed);
            if ready.len() == 0 {
                // every component left is fed from inside the stage: go on with
                // the first one still waiting
                proof {
                    assert(ready@.map_values(|p: usize| nv[p as int]).to_set() =~= Set::<IdView>::empty());
                }
                let mut j: usize = 0;
                while j < n && removed[j]
                    invariant
                        j <= n,
                        removed@.len() == n,
                        forall|k: int| 0 <= k < j ==> #[trigger] removed@[k],
                    decreases n - j,
                {
                    j = j + 1;
                }
                proof {
                    if j == n {
                        let w = choose|w: int| 0 <= w < removed@.len() && !removed@[w];
                        assert(removed@[w]);
                    }
                    assert forall|k: int| 0 <= k < j implies !live.contains(#[trigger] nv[k]) by {
                        if live.contains(nv[k]) {
                            let x = choose|x: int| 0 <= x < nv.len() && !removed@[x] && nv[x] == nv[k];
                            assert(removed@[k]);
                        }
                    }
                    lemma_first_live_found(nv, live, 0, j as int);
                }
                let ghost empty_ready = ready@;
                ready.push(j);
                proof {
                    assert(empty_ready.len() == 0);
                    assert(ready@ =~= seq![j]);
                    let rv = ready@.map_values(|p: usize| nv[p as int]);
                    assert(rv =~= seq![nv[j as int]]);
                    assert(rv[0] == nv[j as int]);
                    assert(rv.to_set().contains(nv[j as int]));
                    assert forall|v: IdView| rv.to_set().contains(v) implies v == nv[j as int] by {
                        let x = choose|x: int| 0 <= x < rv.len() && rv[x] == v;
                    }
                    assert(rv.to_set() =~= set![nv[j as int]]);
                }
            } else {
                proof {
                    let rv = ready@.map_values(|p: usize| nv[p as int]);
                    assert(rv.to_set().contains(rv[0]));
                }
            }
            let ghost rs = ready@.map_values(|p: usize| nv[p as int]);
            proof {
                assert(rs.to_set() == next_sub_level(connections, nv, live));
            }
            let mut level_ids: Vec<ComponentId> = Vec::new();
            let mut a: usize = 0;
            while a < ready.len()
                invariant
                    a <= ready@.len(),
                    n == stage_components@.len(),
                    nv == id_views(stage_components@),
                    forall|x: int| 0 <= x < ready@.len() ==> #[trigger] ready@[x] < n,
                    level_ids@.len() == a,
                    forall|x: int| 0 <= x < a ==> (#[trigger] level_ids@[x])@ == nv[ready@[x] as int],
                decreases ready@.len() - a,
            {
                level_ids.push(stage_components[ready[a]].duplicate());
                a = a + 1;
            }
            proof {
                assert(id_views(level_ids@) =~= rs);
                assert forall|x: int, y: int| 0 <= x < rs.len() && 0 <= y < rs.len() && x != y implies rs[x] != rs[y] by {
                    if x < y {
                        assert(ready@[x] < ready@[y]);
                    } else {
                        assert(ready@[y] < ready@[x]);
                    }
                }
            }
            let level = Self::sort_ids(level_ids);
            Self::mark_removed(&mut removed, &ready, &mut processed, Ghost(nv));
            let ghost old_levels = sub_levels@;
            sub_levels.push(SubLevel { components: level });
            proof {
                assert(level_views(sub_levels@) =~= level_views(old_levels).push(id_views(level@)));
                assert(sub_live_after(connections, nv, sub_levels@.len() as nat)
                    == live.difference(next_sub_level(connections, nv, live)));
            }
        }
        proof {
            assert forall|v: IdView| !live_set(nv, removed@).contains(v) by {
                if live_set(nv, removed@).contains(v) {
                    let j = choose|j: int| 0 <= j < n && !removed@[j] && nv[j] == v;
                    lemma_live_count_positive(removed@, j);
                }
            }
            assert(live_set(nv, removed@) =~= Set::<IdView>::empty());
        }
        if sub_levels.len() == 0 {
            let mut all: Vec<ComponentId> = Vec::new();
            let mut k: usize = 0;
            while k < n
                invariant
                    k <= n,
                    n == stage_components@.len(),
                    all@.len() == k,
                    forall|x: int| 0 <= x < k ==> (#[trigger] all@[x])@ == stage_components@[x]@,
                decreases n - k,
            {
                all.push(stage_components[k].duplicate());
                k = k + 1;
            }
            assert(id_views(all@) =~= nv);
            sub_levels.push(SubLevel { components: Self::sort_ids(all) });
        } else {
            assert(n > 0);
            assert(valid_sub_levels(connections, nv, level_views(sub_levels@)));
        }
        Ok(sub_levels)
    }

    /// Builds the staged order and splits each stage into sub-levels.  Since a
    /// stage's components never feed one another, each stage becomes a single
    /// sub-level holding the whole stage.
    pub fn build_execution_order_with_sub_levels(
        component_ids: &[ComponentId],
        connections: &ConnectionMap,
    ) -> (r: Result<Vec<Stage>, String>)
        ensures
            sub_levels_built(connections, id_views(component_ids@), r),
    {
        let regular_stages = Self::build_execution_order_stages(component_ids, connections)?;
        let ghost st = stage_views(regular_stages@);
        let ghost big_r = id_views(component_ids@).to_set();
        let mut enhanced: Vec<Stage> = Vec::new();
        let mut k: usize = 0;
        while k < regular_stages.len()
            invariant
                k <= regular_stages@.len(),
                st == stage_views(regular_stages@),
                big_r == id_views(component_ids@).to_set(),
                valid_stages(connections, id_views(component_ids@), st),
                enhanced@.len() == k,
                forall|x: int| 0 <= x < k ==> (#[trigger] enhanced@[x]).sub_levels@.len() == 1
                    && id_views(enhanced@[x].sub_levels@[0].components@) == st[x],
            decreases regular_stages@.len() - k,
        {
            let stage_components = &regular_stages[k];
            proof {
                assert(st[k as int] == id_views(stage_components@));
                lemma_sorted_distinct(st[k as int]);
                lemma_stage_independent(connections, big_r, k as nat);
            }
            if stage_components.len() == 1 {
                let mut one: Vec<ComponentId> = Vec::new();
                one.push(stage_components[0].duplicate());
                assert(id_views(one@) =~= st[k as int]);
                let mut subs: Vec<SubLevel> = Vec::new();
                subs.push(SubLevel { components: one });
                enhanced.push(Stage { sub_levels: subs });
            } else {
                let sub_levels = Self::subdivide_stage_into_sub_levels(stage_components.as_slice(), connections)?;
                proof {
                    let nv = st[k as int];
                    assert forall|a: IdView, b: IdView| nv.contains(a) && nv.contains(b)
                        implies !#[trigger] depends(connections, a, b) by {
                        assert(nv.to_set().contains(a) && nv.to_set().contains(b));
                    }
                    lemma_independent_stage_one_level(connections, nv, level_views(sub_levels@));
                    assert(level_views(sub_levels@)[0] == id_views(sub_levels@[0].components@));
                    lemma_sorted_same_set(id_views(sub_levels@[0].components@), nv);
                }
                enhanced.push(Stage { sub_levels });
            }
            k = k + 1;
        }
        Ok(enhanced)
    }

    /// The staged order flattened into one sequence.
    pub fn build_execution_order(
        component_ids: &[ComponentId],
        connections: &ConnectionMap,
    ) -> (r: Result<Vec<ComponentId>, String>)
        ensures
            match r {
                Ok(order) => exists|st: Seq<Seq<IdView>>| #[trigger] valid_stages(connections, id_views(component_ids@), st)
                    && id_views(order@) == st.flatten(),
                Err(e) => e@ == cycle_message() && (!id_views(component_ids@).no_duplicates()
                    || gets_stuck(connections, id_views(component_ids@).to_set())),
            },
    {
        let stages = Self::build_execution_order_stages(component_ids, connections)?;
        let ghost st = stage_views(stages@);
        let mut order: Vec<ComponentId> = Vec::new();
        let mut k: usize = 0;
        while k < stages.len()
            invariant
                k <= stages@.len(),
                st == stage_views(stages@),
                id_views(order@) == st.take(k as int).flatten(),
            decreases stages@.len() - k,
        {
            let stage = &stages[k];
            let mut j: usize = 0;
            let ghost before = id_views(order@);
            while j < stage.len()
                invariant
                    j <= stage@.len(),
                    id_views(order@) == before + id_views(stage@).take(j as int),
                decreases stage@.len() - j,
            {
                let ghost old_order = order@;
                order.push(stage[j].duplicate());
                proof {
                    assert(id_views(order@) =~= id_views(old_order).push(stage@[j as int]@));
                    assert(id_views(stage@).take(j as int + 1) =~= id_views(stage@).take(j as int).push(stage@[j as int]@));
                    assert(id_views(order@) =~= before + id_views(stage@).take(j as int + 1));
                }
                j = j + 1;
            }
            proof {
                assert(id_views(stage@).take(stage@.len() as int) =~= id_views(stage@));
                assert(st.take(k as int + 1) =~= st.take(k as int).push(st[k as int]));
                st.take(k as int).lemma_flatten_push(st[k as int]);
            }
            k = k + 1;
        }
        assert(st.take(stages@.len() as int) =~= st);
        Ok(order)
    }
}

/// The message when the processing components of a registry form a cycle.
pub open spec fn registry_cycle_message() -> Seq<char> {
    "Cycle detected in processing component dependencies"@
}

/// `order` lists the members of `s` once each, every component after all the
/// components that feed it.
pub open spec fn topological_order(conns: &ConnectionMap, s: Set<IdView>, order: Seq<IdView>) -> bool {
    &&& order.no_duplicates()
    &&& order.to_set() == s
    &&& forall|i: int, j: int| 0 <= i < order.len() && 0 <= j < order.len()
        && #[trigger] depends(conns, order[i], order[j]) ==> i < j
}

proof fn lemma_first_member(order: Seq<IdView>, s: Set<IdView>, k: int, j: int) -> (m: int)
    requires
        0 <= k <= j < order.len(),
        s.contains(order[j]),
    ensures
        k <= m <= j,
        s.contains(order[m]),
        forall|x: int| k <= x < m ==> !s.contains(#[trigger] order[x]),
    decreases j - k,
{
    if s.contains(order[k]) {
        k
    } else {
        lemma_first_member(order, s, k + 1, j)
    }
}

/// A set of components with a topological order has no dependency cycle.
pub proof fn lemma_topological_not_stuck(conns: &ConnectionMap, s: Set<IdView>, order: Seq<IdView>)
    requires
        topological_order(conns, s, order),
    ensures
        !gets_stuck(conns, s),
{
    vstd::seq_lib::seq_to_set_is_finite(order);
    lemma_stuck_iff_cycle(conns, s);
    if exists|w: Set<IdView>| #[trigger] is_cycle_witness(conns, s, w) {
        let w = choose|w: Set<IdView>| #[trigger] is_cycle_witness(conns, s, w);
        assert(w.len() > 0);
        let v = w.choose();
        assert(w.contains(v)) by {
            if !w.contains(v) {
                assert(w =~= Set::<IdView>::empty());
            }
        }
        assert(order.to_set().contains(v));
        let j = choose|j: int| 0 <= j < order.len() && order[j] == v;
        let m = lemma_first_member(order, w, 0, j);
        let u = choose|u: IdView| w.contains(u) && depends(conns, u, order[m]);
        assert(order.to_set().contains(u));
        let i = choose|i: int| 0 <= i < order.len() && order[i] == u;
        assert(depends(conns, order[i], order[m]));
    }
}

/// The processing components of a registry's components.
pub open spec fn processing_set(cm: Map<IdView, ComponentInstance>) -> Set<IdView> {
    cm.dom().filter(|v: IdView| cm[v].module is Processing)
}

/// The members of a set of components in identifier order.
pub open spec fn sorted_members(s: Set<IdView>) -> Seq<IdView> {
    choose|q: Seq<IdView>| sorted_ids(q) && q.to_set() == s
}

/// The queue of Kahn's algorithm over the components `p` once `h` entries were
/// taken from its front: first the components nothing in `p` feeds, in
/// identifier order; each time an entry is taken, the components not yet
/// queued that no component still waiting feeds join the back, in identifier
/// order.
pub open spec fn kahn_queue(conns: &ConnectionMap, p: Set<IdView>, h: nat) -> Seq<IdView>
    decreases h,
{
    if h == 0 {
        sorted_members(ready_set(conns, p))
    } else {
        let q = kahn_queue(conns, p, (h - 1) as nat);
        if h - 1 < q.len() {
            let waiting = p.difference(q.take(h as int).to_set());
            q + sorted_members(p.filter(|v: IdView| !q.contains(v) && !fed_by(conns, waiting, v)))
        } else {
            q
        }
    }
}

/// The order Kahn's algorithm takes the components `p` in.
pub open spec fn kahn_order(conns: &ConnectionMap, p: Set<IdView>) -> Seq<IdView> {
    kahn_queue(conns, p, p.len())
}

/// A sorted sequence is the sorted members of its set.
proof fn lemma_sorted_members(q: Seq<IdView>)
    requires
        sorted_ids(q),
    ensures
        sorted_members(q.to_set()) == q,
{
    let q2 = sorted_members(q.to_set());
    assert(sorted_ids(q2) && q2.to_set() == q.to_set());
    lemma_sorted_same_set(q2, q);
}

/// One round of the queue, told by what joins it.
proof fn lemma_kahn_queue_step(conns: &ConnectionMap, p: Set<IdView>, qv: Seq<IdView>, head: nat, sv: Seq<IdView>)
    requires
        qv == kahn_queue(conns, p, head),
        head < qv.len(),
        sorted_ids(sv),
        forall|v: IdView| sv.contains(v) <==> (p.contains(v) && !qv.contains(v) && !fed_by(
            conns,
            p.difference(qv.take(head as int + 1).to_set()),
            v,
        )),
    ensures
        kahn_queue(conns, p, head + 1) == qv + sv,
{
    let waiting = p.difference(qv.take(head as int + 1).to_set());
    let f = p.filter(|v: IdView| !qv.contains(v) && !fed_by(conns, waiting, v));
    assert forall|v: IdView| sv.to_set().contains(v) <==> f.contains(v) by {
        assert(sv.to_set().contains(v) == sv.contains(v));
    }
    assert(sv.to_set() =~= f);
    lemma_sorted_members(sv);
}

/// The state of the queue of Kahn's algorithm over the components `nv`: the
/// queue holds distinct components, the first `head` of which were taken and
/// are exactly the ones marked removed; exactly the queued ones are marked, and
/// they are those no component still waiting feeds; each queued component
/// comes after all its feeders.
pub open spec fn kahn_state(
    conns: &ConnectionMap,
    nv: Seq<IdView>,
    edges: Seq<(usize, usize)>,
    removed: Seq<bool>,
    queued: Seq<bool>,
    qv: Seq<IdView>,
    head: int,
) -> bool {
    &&& nv.no_duplicates()
    &&& nv.len() <= usize::MAX
    &&& edges_exact(conns, nv, edges)
    &&& removed.len() == nv.len()
    &&& queued.len() == nv.len()
    &&& 0 <= head <= qv.len()
    &&& qv.no_duplicates()
    &&& forall|q: int| 0 <= q < qv.len() ==> nv.contains(#[trigger] qv[q])
    &&& forall|j: int| 0 <= j < nv.len() ==> (#[trigger] removed[j] <==> qv.take(head).contains(nv[j]))
    &&& forall|j: int| 0 <= j < nv.len() ==> (#[trigger] queued[j] <==> qv.contains(nv[j]))
    &&& forall|j: int| 0 <= j < nv.len() ==> (#[trigger] queued[j] <==> !fed_by(conns, live_set(nv, removed), nv[j]))
    &&& head + live_count(removed) == nv.len()
    &&& forall|q: int, u: IdView| 0 <= q < qv.len() && nv.contains(u) && #[trigger] depends(conns, u, qv[q])
        ==> qv.take(q).contains(u)
}

impl ExecutionOrderBuilder {
    /// A position of the identifier among the nodes, which hold it.
    fn position_in(nodes: &[ComponentId], id: &ComponentId) -> (r: usize)
        requires
            exists|i: int| 0 <= i < nodes@.len() && nodes@[i]@ == id@,
        ensures
            r < nodes@.len(),
            nodes@[r as int]@ == id@,
    {
        let mut i: usize = 0;
        while i < nodes.len()
            invariant
                i <= nodes@.len(),
                forall|j: int| 0 <= j < i ==> nodes@[j]@ != id@,
                exists|j: int| 0 <= j < nodes@.len() && nodes@[j]@ == id@,
            decreases nodes@.len() - i,
        {
            if nodes[i].same_as(id) {
                return i;
            }
            i = i + 1;
        }
        proof {
            let j = choose|j: int| 0 <= j < nodes@.len() && nodes@[j]@ == id@;
            assert(nodes@[j]@ != id@);
        }
        0
    }

    /// The start of Kahn's algorithm: nothing taken, and the components
    /// nothing feeds queued in identifier order.
    fn kahn_start(connections: &ConnectionMap, ids: &Vec<ComponentId>, edges: &Vec<(usize, usize)>) -> (r: (
        Vec<bool>,
        Vec<bool>,
        Vec<ComponentId>,
    ))
        requires
            id_views(ids@).no_duplicates(),
            edges_exact(connections, id_views(ids@), edges@),
        ensures
            kahn_state(connections, id_views(ids@), edges@, r.0@, r.1@, id_views(r.2@), 0),
            id_views(r.2@) == kahn_queue(connections, id_views(ids@).to_set(), 0),
    {
        let ghost nv = id_views(ids@);
        let n = ids.len();
        let mut removed: Vec<bool> = Vec::new();
        let mut queued: Vec<bool> = Vec::new();
        let mut i: usize = 0;
        while i < n
            invariant
                i <= n,
                removed@.len() == i,
                queued@.len() == i,
                forall|j: int| 0 <= j < i ==> !removed@[j] && !queued@[j],
                live_count(removed@) == i,
            decreases n - i,
        {
            let ghost before = removed@;
            removed.push(false);
            queued.push(false);
            proof {
                assert(removed@.drop_last() =~= before);
            }
            i = i + 1;
        }
        let ghost live = live_set(nv, removed@);
        proof {
            assert forall|v: IdView| nv.to_set().contains(v) implies live.contains(v) by {
                let k = choose|k: int| 0 <= k < nv.len() && nv[k] == v;
                assert(!removed@[k]);
            }
            assert(live =~= nv.to_set());
        }
        let ready = Self::ready_positions(connections, ids.as_slice(), edges, &removed);
        let ghost rs = ready@.map_values(|p: usize| nv[p as int]);
        let mut first: Vec<ComponentId> = Vec::new();
        let mut a: usize = 0;
        while a < ready.len()
            invariant
                a <= ready@.len(),
                n == ids@.len(),
                nv == id_views(ids@),
                queued@.len() == n,
                forall|x: int, y: int| 0 <= x < y < ready@.len() ==> ready@[x] < ready@[y],
                forall|x: int| 0 <= x < ready@.len() ==> #[trigger] ready@[x] < n,
                first@.len() == a,
                forall|x: int| 0 <= x < a ==> (#[trigger] first@[x])@ == nv[ready@[x] as int],
                forall|j: int| 0 <= j < n ==> #[trigger] queued@[j] == exists|x: int| 0 <= x < a && ready@[x] == j,
            decreases ready@.len() - a,
        {
            let p = ready[a];
            first.push(ids[p].duplicate());
            queued.set(p, true);
            proof {
                assert forall|j: int| 0 <= j < n implies #[trigger] queued@[j] == exists|x: int| 0 <= x < a + 1 && ready@[x]
                    == j by {
                    if j == p as int {
                        assert(ready@[a as int] == j);
                    }
                }
            }
            a = a + 1;
        }
        proof {
            assert(id_views(first@) =~= rs);
            assert forall|x: int, y: int| 0 <= x < rs.len() && 0 <= y < rs.len() && x != y implies rs[x] != rs[y] by {
                if x < y {
                    assert(ready@[x] < ready@[y]);
                } else {
                    assert(ready@[y] < ready@[x]);
                }
            }
        }
        let queue = Self::sort_ids(first);
        proof {
            let qv = id_views(queue@);
            assert forall|j: int| 0 <= j < n implies (queued@[j] <==> qv.contains(nv[j])) && (queued@[j] <==> !fed_by(
                connections,
                live,
                nv[j],
            )) by {
                assert(qv.to_set().contains(nv[j]) == qv.contains(nv[j]));
                if queued@[j] {
                    let x = choose|x: int| 0 <= x < ready@.len() && ready@[x] == j;
                    assert(rs[x] == nv[j]);
                    assert(rs.to_set().contains(nv[j]));
                }
                if rs.to_set().contains(nv[j]) {
                    let x = choose|x: int| 0 <= x < rs.len() && rs[x] == nv[j];
                    assert(nv[ready@[x] as int] == nv[j]);
                    assert(ready@[x] as int == j);
                }
                assert(live.contains(nv[j]));
            }
            assert forall|q: int| 0 <= q < qv.len() implies nv.contains(#[trigger] qv[q]) by {
                assert(qv.to_set().contains(qv[q]));
                assert(rs.to_set().contains(qv[q]));
                let x = choose|x: int| 0 <= x < rs.len() && rs[x] == qv[q];
            }
            assert forall|q: int, u: IdView| 0 <= q < qv.len() && nv.contains(u) && #[trigger] depends(connections, u, qv[q])
                implies qv.take(q).contains(u) by {
                assert(nv.contains(qv[q]));
                let j = choose|j: int| 0 <= j < nv.len() && nv[j] == qv[q];
                assert(queued@[j]);
                assert(live.contains(u));
                assert(fed_by(connections, live, nv[j]));
            }
            assert forall|j: int| 0 <= j < n implies (#[trigger] removed@[j] <==> qv.take(0).contains(nv[j])) by {
                assert(qv.take(0).len() == 0);
            }
            lemma_sorted_members(qv);
        }
        (removed, queued, queue)
    }

    /// After a component is taken: marks queued every component no component
    /// still waiting feeds, and gives those not queued before.
    fn kahn_fresh(
        connections: &ConnectionMap,
        ids: &Vec<ComponentId>,
        edges: &Vec<(usize, usize)>,
        removed: &Vec<bool>,
        queued: &mut Vec<bool>,
        Ghost(qv): Ghost<Seq<IdView>>,
    ) -> (fresh: Vec<ComponentId>)
        requires
            id_views(ids@).no_duplicates(),
            edges_exact(connections, id_views(ids@), edges@),
            removed@.len() == ids@.len(),
            old(queued)@.len() == ids@.len(),
            forall|j: int| 0 <= j < ids@.len() ==> (#[trigger] old(queued)@[j] <==> qv.contains(id_views(ids@)[j])),
            forall|j: int| 0 <= j < ids@.len() && qv.contains(id_views(ids@)[j]) ==> !fed_by(
                connections,
                live_set(id_views(ids@), removed@),
                #[trigger] id_views(ids@)[j],
            ),
        ensures
            final(queued)@.len() == ids@.len(),
            forall|j: int| 0 <= j < ids@.len() ==> (#[trigger] final(queued)@[j] <==> !fed_by(
                connections,
                live_set(id_views(ids@), removed@),
                id_views(ids@)[j],
            )),
            id_views(fresh@).no_duplicates(),
            forall|x: int| 0 <= x < fresh@.len() ==> !qv.contains(#[trigger] id_views(fresh@)[x]) && id_views(ids@).contains(
                id_views(fresh@)[x],
            ) && !fed_by(connections, live_set(id_views(ids@), removed@), id_views(fresh@)[x]),
            forall|j: int| 0 <= j < ids@.len() && final(queued)@[j] && !qv.contains(id_views(ids@)[j]) ==> id_views(
                fresh@,
            ).contains(#[trigger] id_views(ids@)[j]),
    {
        let ghost nv = id_views(ids@);
        let ghost live1 = live_set(nv, removed@);
        let n = ids.len();
        let mut fresh: Vec<ComponentId> = Vec::new();
        let mut k: usize = 0;
        while k < n
            invariant
                n == ids@.len(),
                nv == id_views(ids@),
                nv.no_duplicates(),
                edges_exact(connections, nv, edges@),
                live1 == live_set(nv, removed@),
                removed@.len() == n,
                queued@.len() == n,
                k <= n,
                forall|j: int| 0 <= j < k ==> (#[trigger] queued@[j] <==> !fed_by(connections, live1, nv[j])),
                forall|j: int| k <= j < n ==> (#[trigger] queued@[j] <==> qv.contains(nv[j])),
                forall|j: int| 0 <= j < n && qv.contains(nv[j]) ==> !fed_by(connections, live1, #[trigger] nv[j]),
                id_views(fresh@).no_duplicates(),
                forall|x: int| 0 <= x < fresh@.len() ==> !qv.contains(#[trigger] id_views(fresh@)[x]) && nv.contains(
                    id_views(fresh@)[x],
                ) && !fed_by(connections, live1, id_views(fresh@)[x]),
                forall|j: int| 0 <= j < k && queued@[j] && !qv.contains(nv[j]) ==> id_views(fresh@).contains(#[trigger] nv[j]),
                forall|x: int| #![trigger id_views(fresh@)[x]] 0 <= x < fresh@.len() ==> exists|j: int| 0 <= j < k
                    && #[trigger] nv[j] == id_views(fresh@)[x],
            decreases n - k,
        {
            proof {
                lemma_live_pred(connections, nv, edges@, removed@, k as int);
            }
            if !queued[k] && !Self::has_live_pred(edges, removed, k) {
                proof {
                    assert(!id_views(fresh@).contains(nv[k as int])) by {
                        if id_views(fresh@).contains(nv[k as int]) {
                            let x = choose|x: int| 0 <= x < fresh@.len() && id_views(fresh@)[x] == nv[k as int];
                            let j = choose|j: int| 0 <= j < k && #[trigger] nv[j] == id_views(fresh@)[x];
                        }
                    }
                }
                let ghost before = id_views(fresh@);
                fresh.push(ids[k].duplicate());
                queued.set(k, true);
                proof {
                    assert(id_views(fresh@) =~= before.push(nv[k as int]));
                    assert forall|x: int| #![trigger id_views(fresh@)[x]] 0 <= x < fresh@.len() implies exists|j: int| 0 <= j
                        < k + 1 && #[trigger] nv[j] == id_views(fresh@)[x] by {
                        if x < before.len() {
                            let j = choose|j: int| 0 <= j < k && #[trigger] nv[j] == before[x];
                            assert(nv[j] == id_views(fresh@)[x]);
                        } else {
                            assert(nv[k as int] == id_views(fresh@)[x]);
                        }
                    }
                    assert forall|j: int| 0 <= j < k + 1 && queued@[j] && !qv.contains(nv[j]) implies id_views(
                        fresh@,
                    ).contains(#[trigger] nv[j]) by {
                        if j < k {
                            assert(before.contains(nv[j]));
                            let x = choose|x: int| 0 <= x < before.len() && before[x] == nv[j];
                            assert(id_views(fresh@)[x] == nv[j]);
                        } else {
                            assert(id_views(fresh@)[before.len() as int] == nv[j]);
                        }
                    }
                }
            }
            k = k + 1;
        }
        fresh
    }

    /// One round of Kahn's algorithm: take the component at the front of the
    /// queue and queue, in identifier order, those it leaves with no feeder
    /// still waiting.
    fn kahn_take(
        connections: &ConnectionMap,
        ids: &Vec<ComponentId>,
        edges: &Vec<(usize, usize)>,
        removed: &mut Vec<bool>,
        queued: &mut Vec<bool>,
        queue: &mut Vec<ComponentId>,
        head: usize,
    ) -> (u: ComponentId)
        requires
            kahn_state(connections, id_views(ids@), edges@, old(removed)@, old(queued)@, id_views(old(queue)@), head as int),
            head < old(queue)@.len(),
        ensures
            kahn_state(connections, id_views(ids@), edges@, final(removed)@, final(queued)@, id_views(final(queue)@), head + 1),
            id_views(final(queue)@).take(head as int) == id_views(old(queue)@).take(head as int),
            u@ == id_views(final(queue)@)[head as int],
            live_count(final(removed)@) < live_count(old(removed)@),
            id_views(old(queue)@) == kahn_queue(connections, id_views(ids@).to_set(), head as nat) ==> id_views(final(queue)@)
                == kahn_queue(connections, id_views(ids@).to_set(), head as nat + 1),
    {
        let ghost nv = id_views(ids@);
        let ghost qv = id_views(queue@);
        let ghost live0 = live_set(nv, removed@);
        let n = ids.len();
        let u = queue[head].duplicate();
        proof {
            assert(nv.contains(qv[head as int]));
        }
        let pu = Self::position_in(ids.as_slice(), &u);
        proof {
            assert(!qv.take(head as int).contains(nv[pu as int])) by {
                if qv.take(head as int).contains(nv[pu as int]) {
                    let x = choose|x: int| 0 <= x < head && qv.take(head as int)[x] == nv[pu as int];
                    assert(qv[x] == qv[head as int]);
                }
            }
            assert(!removed@[pu as int]);
            lemma_live_count_update(removed@, pu as int);
        }
        removed.set(pu, true);
        let ghost live1 = live_set(nv, removed@);
        let ghost h1: int = head + 1;
        proof {
            assert(qv.take(h1) =~= qv.take(head as int).push(nv[pu as int]));
            assert forall|j: int| 0 <= j < n implies (#[trigger] removed@[j] <==> qv.take(h1).contains(nv[j])) by {
                if j == pu as int {
                    assert(qv.take(h1)[head as int] == nv[j]);
                } else {
                    assert(nv[j] != nv[pu as int]);
                    if qv.take(h1).contains(nv[j]) {
                        let x = choose|x: int| 0 <= x < h1 && qv.take(h1)[x] == nv[j];
                        assert(x < head);
                        assert(qv.take(head as int)[x] == nv[j]);
                    }
                    if qv.take(head as int).contains(nv[j]) {
                        let x = choose|x: int| 0 <= x < head && qv.take(head as int)[x] == nv[j];
                        assert(qv.take(h1)[x] == nv[j]);
                    }
                }
            }
            assert forall|j: int| 0 <= j < n && qv.contains(nv[j]) implies !fed_by(connections, live1, #[trigger] nv[j]) by {
                assert(queued@[j]);
                if fed_by(connections, live1, nv[j]) {
                    let w = choose|w: IdView| live1.contains(w) && #[trigger] depends(connections, w, nv[j]);
                    let jw = choose|jw: int| 0 <= jw < nv.len() && !removed@[jw] && nv[jw] == w;
                    assert(live0.contains(w));
                }
            }
        }
        let fresh = Self::kahn_fresh(connections, ids, edges, removed, queued, Ghost(qv));
        let ghost fv = id_views(fresh@);
        let sorted = Self::sort_ids(fresh);
        let ghost sv = id_views(sorted@);
        let mut t: usize = 0;
        while t < sorted.len()
            invariant
                t <= sorted@.len(),
                sv == id_views(sorted@),
                id_views(queue@) == qv + sv.take(t as int),
            decreases sorted@.len() - t,
        {
            let ghost before = queue@;
            queue.push(sorted[t].duplicate());
            proof {
                assert(sv.take(t as int + 1) =~= sv.take(t as int).push(sv[t as int]));
                assert(id_views(queue@) =~= id_views(before).push(sorted@[t as int]@));
            }
            t = t + 1;
        }
        proof {
            assert(sv.take(sorted@.len() as int) =~= sv);
            let qv2 = id_views(queue@);
            assert(qv2 == qv + sv);
            assert forall|x: IdView| sv.contains(x) <==> fv.contains(x) by {
                assert(sv.to_set().contains(x) == sv.contains(x));
                assert(fv.to_set().contains(x) == fv.contains(x));
            }
            assert forall|x: int, y: int| 0 <= x < qv2.len() && 0 <= y < qv2.len() && x != y implies qv2[x] != qv2[y] by {
                if x >= qv.len() && y < qv.len() {
                    assert(sv.contains(qv2[x]));
                    assert(qv2[y] == qv[y]);
                    let f = choose|f: int| 0 <= f < fv.len() && fv[f] == qv2[x];
                } else if x < qv.len() && y >= qv.len() {
                    assert(sv.contains(qv2[y]));
                    assert(qv2[x] == qv[x]);
                    let f = choose|f: int| 0 <= f < fv.len() && fv[f] == qv2[y];
                } else if x >= qv.len() && y >= qv.len() {
                    assert(qv2[x] == sv[x - qv.len()]);
                    assert(qv2[y] == sv[y - qv.len()]);
                } else {
                    assert(qv2[x] == qv[x]);
                    assert(qv2[y] == qv[y]);
                }
            }
            assert forall|q: int| 0 <= q < qv2.len() implies nv.contains(#[trigger] qv2[q]) by {
                if q >= qv.len() {
                    assert(sv.contains(qv2[q]));
                    let f = choose|f: int| 0 <= f < fv.len() && fv[f] == qv2[q];
                } else {
                    assert(qv2[q] == qv[q]);
                }
            }
            assert(qv2.take(h1) =~= qv.take(h1));
            assert(qv2.take(head as int) =~= qv.take(head as int));
            assert forall|j: int| 0 <= j < n implies (#[trigger] queued@[j] <==> qv2.contains(nv[j])) by {
                if queued@[j] && !qv.contains(nv[j]) {
                    assert(fv.contains(nv[j]));
                    assert(sv.contains(nv[j]));
                    let y = choose|y: int| 0 <= y < sv.len() && sv[y] == nv[j];
                    assert(qv2[qv.len() + y] == nv[j]);
                }
                if qv.contains(nv[j]) {
                    let y = choose|y: int| 0 <= y < qv.len() && qv[y] == nv[j];
                    assert(qv2[y] == nv[j]);
                    assert(!fed_by(connections, live1, nv[j]));
                }
                if qv2.contains(nv[j]) && !qv.contains(nv[j]) {
                    let y = choose|y: int| 0 <= y < qv2.len() && qv2[y] == nv[j];
                    assert(y >= qv.len());
                    assert(sv.contains(nv[j]));
                    assert(fv.contains(nv[j]));
                    let f = choose|f: int| 0 <= f < fv.len() && fv[f] == nv[j];
                    assert(!fed_by(connections, live1, fv[f]));
                }
            }
            assert forall|q: int, w: IdView| 0 <= q < qv2.len() && nv.contains(w) && #[trigger] depends(connections, w, qv2[q])
                implies qv2.take(q).contains(w) by {
                if q < qv.len() {
                    assert(qv2[q] == qv[q]);
                    assert(qv2.take(q) =~= qv.take(q));
                } else {
                    assert(sv.contains(qv2[q]));
                    let f = choose|f: int| 0 <= f < fv.len() && fv[f] == qv2[q];
                    assert(!fed_by(connections, live1, qv2[q]));
                    let jw = choose|jw: int| 0 <= jw < nv.len() && nv[jw] == w;
                    assert(!live1.contains(w));
                    assert(removed@[jw]);
                    assert(qv.take(h1).contains(w));
                    let x = choose|x: int| 0 <= x < h1 && qv.take(h1)[x] == w;
                    assert(qv2.take(q)[x] == w);
                }
            }
            if qv == kahn_queue(connections, nv.to_set(), head as nat) {
                let p = nv.to_set();
                assert forall|v: IdView| live1.contains(v) <==> p.difference(qv.take(h1).to_set()).contains(v) by {
                    if live1.contains(v) {
                        let j = choose|j: int| 0 <= j < nv.len() && !removed@[j] && nv[j] == v;
                        assert(!qv.take(h1).contains(v));
                        assert(qv.take(h1).to_set().contains(v) == qv.take(h1).contains(v));
                    }
                    if p.difference(qv.take(h1).to_set()).contains(v) {
                        let j = choose|j: int| 0 <= j < nv.len() && nv[j] == v;
                        assert(qv.take(h1).to_set().contains(v) == qv.take(h1).contains(v));
                        assert(!removed@[j]);
                    }
                }
                assert(live1 =~= p.difference(qv.take(h1).to_set()));
                assert forall|v: IdView| sv.contains(v) <==> (p.contains(v) && !qv.contains(v) && !fed_by(
                    connections,
                    live1,
                    v,
                )) by {
                    if sv.contains(v) {
                        let f = choose|f: int| 0 <= f < fv.len() && fv[f] == v;
                    }
                    if p.contains(v) && !qv.contains(v) && !fed_by(connections, live1, v) {
                        let j = choose|j: int| 0 <= j < nv.len() && nv[j] == v;
                        assert(queued@[j]);
                        assert(fv.contains(nv[j]));
                    }
                }
                lemma_kahn_queue_step(connections, p, qv, head as nat, sv);
            }
        }
        u
    }

    /// Orders the processing components of a registry so that each comes after
    /// the components that feed it, in the order of Kahn's algorithm with a
    /// queue (`kahn_order`): first those
    /// nothing feeds, in identifier order; then, each time one is taken from
    /// the front of the queue, the components it leaves with no feeder still
    /// waiting join the back, in identifier order.  Connections from or to
    /// components that are not processing components play no part.  A
    /// dependency cycle keeps some components out of the queue for good, and
    /// then the order cannot be built.
    pub fn build_execution_order_for_registry(registry: &ComponentRegistry, connections: &ConnectionMap) -> (r: Result<
        Vec<ComponentId>,
        String,
    >)
        ensures
            r is Ok <==> !gets_stuck(connections, processing_set(registry.components_map())),
            match r {
                Ok(order) => topological_order(connections, processing_set(registry.components_map()), id_views(order@))
                    && id_views(order@) == kahn_order(connections, processing_set(registry.components_map())),
                Err(e) => e@ == registry_cycle_message(),
            },
    {
        let ids = registry.processing_component_ids();
        let ghost nv = id_views(ids@);
        let ghost cm = registry.components_map();
        proof {
            assert(nv.to_set() =~= processing_set(cm));
        }
        let edges = Self::collect_edges(ids.as_slice(), connections);
        let n = ids.len();
        let (mut removed, mut queued, mut queue) = Self::kahn_start(connections, &ids, &edges);
        let mut head: usize = 0;
        let mut order: Vec<ComponentId> = Vec::new();
        proof {
            assert(id_views(order@) =~= id_views(queue@).take(0));
        }
        while head < queue.len()
            invariant
                n == ids@.len(),
                nv == id_views(ids@),
                kahn_state(connections, nv, edges@, removed@, queued@, id_views(queue@), head as int),
                id_views(order@) == id_views(queue@).take(head as int),
                id_views(queue@) == kahn_queue(connections, nv.to_set(), head as nat),
            decreases live_count(removed@),
        {
            let ghost qv0 = id_views(queue@);
            let u = Self::kahn_take(connections, &ids, &edges, &mut removed, &mut queued, &mut queue, head);
            order.push(u);
            proof {
                let qv = id_views(queue@);
                assert(qv.take(head + 1) =~= qv.take(head as int).push(u@));
                assert(id_views(order@) =~= qv.take(head + 1));
            }
            head = head + 1;
        }
        if order.len() == n {
            proof {
                lemma_kahn_complete(connections, nv, edges@, removed@, queued@, id_views(queue@), head as int);
                assert(id_views(order@) =~= id_views(queue@));
                lemma_topological_not_stuck(connections, nv.to_set(), id_views(order@));
                nv.unique_seq_to_set();
                assert(id_views(order@) == kahn_queue(connections, nv.to_set(), n as nat));
            }
            Ok(order)
        } else {
            proof {
                let qv = id_views(queue@);
                assert(qv.take(head as int) =~= qv);
                assert forall|j: int| 0 <= j < n && !removed@[j] implies fed_by(connections, live_set(nv, removed@),
                    #[trigger] nv[j]) by {
                    assert(!qv.contains(nv[j]));
                    assert(!queued@[j]);
                }
                lemma_kahn_stuck(connections, nv, removed@);
            }
            Err(owned("Cycle detected in processing component dependencies"))
        }
    }
}

/// When Kahn's algorithm took every component, the queue is a topological
/// order of them.
proof fn lemma_kahn_complete(
    conns: &ConnectionMap,
    nv: Seq<IdView>,
    edges: Seq<(usize, usize)>,
    removed: Seq<bool>,
    queued: Seq<bool>,
    qv: Seq<IdView>,
    head: int,
)
    requires
        kahn_state(conns, nv, edges, removed, queued, qv, head),
        head == qv.len(),
        head == nv.len(),
    ensures
        topological_order(conns, nv.to_set(), qv),
{
    assert forall|j: int| 0 <= j < nv.len() implies #[trigger] removed[j] by {
        if !removed[j] {
            lemma_live_count_positive(removed, j);
        }
    }
    assert(qv.take(head) =~= qv);
    assert forall|v: IdView| qv.to_set().contains(v) <==> nv.to_set().contains(v) by {
        if nv.to_set().contains(v) {
            let j = choose|j: int| 0 <= j < nv.len() && nv[j] == v;
            assert(removed[j]);
        }
        if qv.to_set().contains(v) {
            let q = choose|q: int| 0 <= q < qv.len() && qv[q] == v;
            assert(nv.contains(qv[q]));
        }
    }
    assert(qv.to_set() =~= nv.to_set());
    assert forall|x: int, y: int| 0 <= x < qv.len() && 0 <= y < qv.len() && #[trigger] depends(conns, qv[x], qv[y])
        implies x < y by {
        assert(nv.contains(qv[x]));
        assert(qv.take(y).contains(qv[x]));
        let p = choose|p: int| 0 <= p < y && qv.take(y)[p] == qv[x];
        assert(qv[p] == qv[x]);
    }
}

/// When the components left are each fed by one still left, they contain a
/// cycle.
#[verifier::spinoff_prover]
proof fn lemma_kahn_stuck(conns: &ConnectionMap, nv: Seq<IdView>, removed: Seq<bool>)
    requires
        removed.len() == nv.len(),
        live_count(removed) > 0,
        forall|j: int| 0 <= j < nv.len() && !removed[j] ==> fed_by(conns, live_set(nv, removed), #[trigger] nv[j]),
    ensures
        gets_stuck(conns, nv.to_set()),
{
    let live = live_set(nv, removed);
    let r = nv.to_set();
    assert(live.subset_of(r)) by {
        assert forall|v: IdView| live.contains(v) implies r.contains(v) by {
            let j = choose|j: int| 0 <= j < nv.len() && !removed[j] && nv[j] == v;
        }
    }
    assert(r.finite()) by {
        vstd::seq_lib::seq_to_set_is_finite(nv);
    }
    assert(live.finite() && live.len() > 0) by {
        vstd::set_lib::lemma_len_subset(live, r);
        lemma_live_count_witness(removed);
        let w = choose|w: int| 0 <= w < removed.len() && !removed[w];
        assert(live.contains(nv[w]));
        if live.len() == 0 {
            live.lemma_len0_is_empty();
        }
    }
    assert(forall|v: IdView| #[trigger] live.contains(v) ==> exists|u: IdView| live.contains(u) && depends(conns, u, v)) by {
        assert forall|v: IdView| #[trigger] live.contains(v) implies exists|u: IdView| live.contains(u) && depends(conns, u, v) by {
            let j = choose|j: int| 0 <= j < nv.len() && !removed[j] && nv[j] == v;
            assert(fed_by(conns, live, nv[j]));
        }
    }
    assert(is_cycle_witness(conns, r, live));
    lemma_stuck_iff_cycle(conns, r);
}

} // verus!
