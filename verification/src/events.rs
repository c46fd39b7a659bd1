use vstd::prelude::*;
use crate::assoc::{AssocMap, KeyLike, lemma_filter_push};
use crate::maps::string_views;
use crate::strings::{decimal, decimal_string, join3, join4, owned};
use crate::types::{ComponentId, IdView, id_views};
use crate::values::{Value, ValueView};

verus! {

/// An event waiting in the scheduler: how many cycles until it is due, and the
/// order in which it was scheduled.
pub struct ScheduledEvent<E> {
    pub delay_cycles: u64,
    pub sequence_num: u64,
    pub event: E,
}

/// `a` comes out of the scheduler before `b`: it is due sooner, or as soon and
/// was scheduled earlier.
pub open spec fn comes_before<E>(a: ScheduledEvent<E>, b: ScheduledEvent<E>) -> bool {
    a.delay_cycles < b.delay_cycles || (a.delay_cycles == b.delay_cycles && a.sequence_num < b.sequence_num)
}

/// The queue is in the order events come out.
pub open spec fn queue_sorted<E>(q: Seq<ScheduledEvent<E>>) -> bool {
    forall|i: int, j: int| 0 <= i < j < q.len() ==> comes_before(#[trigger] q[i], #[trigger] q[j])
}

/// No two queued events share a sequence number.
pub open spec fn sequence_unique<E>(q: Seq<ScheduledEvent<E>>) -> bool {
    forall|i: int, j: int| 0 <= i < q.len() && 0 <= j < q.len() && i != j ==> (#[trigger] q[i]).sequence_num
        != (#[trigger] q[j]).sequence_num
}

/// The events of a queue, in queue order.
pub open spec fn events_of<E>(q: Seq<ScheduledEvent<E>>) -> Seq<E> {
    q.map_values(|s: ScheduledEvent<E>| s.event)
}

/// A queued event with its delay shortened by some cycles, down to zero.
pub open spec fn shifted<E>(s: ScheduledEvent<E>, cycles: u64) -> ScheduledEvent<E> {
    ScheduledEvent {
        delay_cycles: if s.delay_cycles >= cycles { (s.delay_cycles - cycles) as u64 } else { 0 },
        sequence_num: s.sequence_num,
        event: s.event,
    }
}

/// Law: among events due at the same time, the one scheduled first comes out
/// first.
pub proof fn lemma_fifo_within_delay<E>(q: Seq<ScheduledEvent<E>>, i: int, j: int)
    requires
        queue_sorted(q),
        0 <= i < j < q.len(),
        q[i].delay_cycles == q[j].delay_cycles,
    ensures
        q[i].sequence_num < q[j].sequence_num,
{
    assert(comes_before(q[i], q[j]));
}

/// Law: the head of a sorted queue is due no later than any queued event.
pub proof fn lemma_head_is_soonest<E>(q: Seq<ScheduledEvent<E>>, j: int)
    requires
        queue_sorted(q),
        0 <= j < q.len(),
    ensures
        q[0].delay_cycles <= q[j].delay_cycles,
{
    if j > 0 {
        assert(comes_before(q[0], q[j]));
    }
}

/// Inserts an event at its place in a sorted queue.
fn insert_by_order<E>(q: &mut Vec<ScheduledEvent<E>>, item: ScheduledEvent<E>) -> (pos: usize)
    requires
        queue_sorted(old(q)@),
        forall|j: int| 0 <= j < old(q)@.len() ==> (#[trigger] old(q)@[j]).sequence_num != item.sequence_num,
    ensures
        queue_sorted(final(q)@),
        pos <= old(q)@.len(),
        final(q)@ == old(q)@.insert(pos as int, item),
        forall|j: int| 0 <= j < pos ==> comes_before(#[trigger] old(q)@[j], item),
        forall|j: int| pos <= j < old(q)@.len() ==> comes_before(item, #[trigger] old(q)@[j]),
{
    let mut i: usize = 0;
    while i < q.len() && (q[i].delay_cycles < item.delay_cycles || (q[i].delay_cycles == item.delay_cycles
        && q[i].sequence_num < item.sequence_num))
        invariant
            i <= q@.len(),
            q@ == old(q)@,
            forall|j: int| 0 <= j < i ==> comes_before(#[trigger] q@[j], item),
        decreases q@.len() - i,
    {
        i = i + 1;
    }
    proof {
        assert forall|j: int| i <= j < q@.len() implies comes_before(item, #[trigger] q@[j]) by {
            assert(comes_before(item, q@[i as int]));
            if j > i {
                assert(comes_before(q@[i as int], q@[j]));
            }
        }
    }
    let ghost before = q@;
    q.insert(i, item);
    proof {
        assert forall|a: int, b: int| 0 <= a < b < q@.len() implies comes_before(#[trigger] q@[a], #[trigger] q@[b]) by {
            if b < i {
                assert(q@[a] == before[a] && q@[b] == before[b]);
            } else if a > i {
                assert(q@[a] == before[a - 1] && q@[b] == before[b - 1]);
            } else if a == i {
                assert(q@[b] == before[b - 1]);
            } else if b == i {
                assert(q@[a] == before[a]);
            } else {
                assert(q@[a] == before[a] && q@[b] == before[b - 1]);
            }
        }
    }
    i
}

/// Schedules events by delay; among events due at the same time, they come
/// out in the order they were scheduled.
pub struct EventScheduler<E> {
    event_queue: Vec<ScheduledEvent<E>>,
    sequence_counter: u64,
}

impl<E> EventScheduler<E> {
    /// The queued events, in the order they come out.
    pub closed spec fn queue(&self) -> Seq<ScheduledEvent<E>> {
        self.event_queue@
    }

    /// The sequence number the next scheduled event gets.
    pub closed spec fn counter(&self) -> u64 {
        self.sequence_counter
    }

    /// The queue is in order, each event has its own sequence number, and all
    /// were handed out before the counter.
    pub open spec fn wf(&self) -> bool {
        &&& queue_sorted(self.queue())
        &&& sequence_unique(self.queue())
        &&& forall|i: int| 0 <= i < self.queue().len() ==> (#[trigger] self.queue()[i]).sequence_num < self.counter()
    }

    /// Create a new EventScheduler
    pub fn new() -> (r: Self)
        ensures
            r.wf(),
            r.queue() == Seq::<ScheduledEvent<E>>::empty(),
            r.counter() == 0,
    {
        EventScheduler { event_queue: Vec::new(), sequence_counter: 0 }
    }

    /// Schedule an event to come out after the given delay; it goes after every
    /// event due no later than it
    pub fn schedule_event(&mut self, event: E, delay_cycles: u64)
        requires
            old(self).wf(),
            old(self).counter() < u64::MAX,
        ensures
            final(self).wf(),
            final(self).counter() == old(self).counter() + 1,
            exists|pos: int| #![trigger old(self).queue().insert(pos, ScheduledEvent { delay_cycles, sequence_num: old(self).counter(), event })]
                0 <= pos <= old(self).queue().len()
                && (forall|j: int| 0 <= j < pos ==> (#[trigger] old(self).queue()[j]).delay_cycles <= delay_cycles)
                && (forall|j: int| pos <= j < old(self).queue().len() ==> (#[trigger] old(self).queue()[j]).delay_cycles
                    > delay_cycles)
                && final(self).queue() == old(self).queue().insert(
                    pos,
                    ScheduledEvent { delay_cycles, sequence_num: old(self).counter(), event },
                ),
    {
        let ghost q0 = self.event_queue@;
        let seq = self.sequence_counter;
        let item = ScheduledEvent { delay_cycles, sequence_num: seq, event };
        let ghost it = item;
        let mut q = Vec::new();
        std::mem::swap(&mut q, &mut self.event_queue);
        let pos = insert_by_order(&mut q, item);
        self.event_queue = q;
        self.sequence_counter = seq + 1;
        proof {
            assert forall|j: int| pos <= j < q0.len() implies (#[trigger] q0[j]).delay_cycles > delay_cycles by {
                assert(comes_before(it, q0[j]));
            }
            assert forall|a: int, b: int| 0 <= a < self.queue().len() && 0 <= b < self.queue().len() && a != b
                implies (#[trigger] self.queue()[a]).sequence_num != (#[trigger] self.queue()[b]).sequence_num by {
                if a != pos as int && b != pos as int {
                    let a0 = if a < pos { a } else { a - 1 };
                    let b0 = if b < pos { b } else { b - 1 };
                    assert(self.queue()[a] == q0[a0]);
                    assert(self.queue()[b] == q0[b0]);
                } else if a == pos as int {
                    let b0 = if b < pos { b } else { b - 1 };
                    assert(self.queue()[b] == q0[b0]);
                } else {
                    let a0 = if a < pos { a } else { a - 1 };
                    assert(self.queue()[a] == q0[a0]);
                }
            }
            assert forall|i: int| 0 <= i < self.queue().len() implies (#[trigger] self.queue()[i]).sequence_num
                < self.counter() by {
                if i != pos as int {
                    let i0 = if i < pos { i } else { i - 1 };
                    assert(self.queue()[i] == q0[i0]);
                }
            }
            assert(0 <= pos <= q0.len()
                && (forall|j: int| 0 <= j < pos ==> (#[trigger] q0[j]).delay_cycles <= delay_cycles)
                && (forall|j: int| pos <= j < q0.len() ==> (#[trigger] q0[j]).delay_cycles > delay_cycles)
                && self.queue() == q0.insert(pos as int, it));
        }
    }

    /// Take every event due soonest: those with the smallest delay, in the
    /// order they were scheduled
    pub fn get_next_time_events(&mut self) -> (r: Vec<E>)
        requires
            old(self).wf(),
        ensures
            final(self).wf(),
            final(self).counter() == old(self).counter(),
            old(self).queue().len() == 0 ==> r@ == Seq::<E>::empty() && final(self).queue() == old(self).queue(),
            old(self).queue().len() > 0 ==> exists|k: int| #![trigger old(self).queue().take(k)]
                1 <= k <= old(self).queue().len()
                && (forall|j: int| 0 <= j < k ==> (#[trigger] old(self).queue()[j]).delay_cycles
                    == old(self).queue()[0].delay_cycles)
                && (forall|j: int| k <= j < old(self).queue().len() ==> (#[trigger] old(self).queue()[j]).delay_cycles
                    > old(self).queue()[0].delay_cycles)
                && r@ == events_of(old(self).queue().take(k))
                && final(self).queue() == old(self).queue().skip(k),
    {
        let ghost q0 = self.event_queue@;
        let mut events: Vec<E> = Vec::new();
        if self.event_queue.len() == 0 {
            assert(events@ =~= Seq::<E>::empty());
            return events;
        }
        let next_delay = self.event_queue[0].delay_cycles;
        let n0 = self.event_queue.len();
        let mut q = Vec::new();
        std::mem::swap(&mut q, &mut self.event_queue);
        let mut k: usize = 0;
        while q.len() > 0 && q[0].delay_cycles == next_delay
            invariant
                k <= q0.len(),
                q0.len() == n0,
                q@ == q0.skip(k as int),
                events@ == events_of(q0.take(k as int)),
                queue_sorted(q0),
                q0.len() > 0,
                next_delay == q0[0].delay_cycles,
                forall|j: int| 0 <= j < k ==> (#[trigger] q0[j]).delay_cycles == next_delay,
            decreases q@.len(),
        {
            let ghost before = events@;
            let s = q.remove(0);
            assert(s == q0[k as int]);
            events.push(s.event);
            proof {
                assert(q@ =~= q0.skip(k as int + 1));
                assert(events_of(q0.take(k as int + 1)) =~= events_of(q0.take(k as int)).push(q0[k as int].event));
            }
            k = k + 1;
        }
        proof {
            assert(k >= 1) by {
                if k == 0 {
                    assert(q@[0] == q0[0]);
                }
            }
            assert forall|j: int| k <= j < q0.len() implies (#[trigger] q0[j]).delay_cycles > next_delay by {
                assert(q@[0] == q0[k as int]);
                lemma_head_is_soonest(q0, k as int);
                if j > k {
                    assert(comes_before(q0[k as int], q0[j]));
                }
            }
        }
        let ghost rest = q@;
        self.event_queue = q;
        proof {
            assert forall|a: int, b: int| 0 <= a < b < rest.len() implies comes_before(#[trigger] rest[a], #[trigger] rest[b]) by {
                assert(rest[a] == q0[a + k] && rest[b] == q0[b + k]);
            }
            assert forall|a: int, b: int| 0 <= a < rest.len() && 0 <= b < rest.len() && a != b
                implies (#[trigger] rest[a]).sequence_num != (#[trigger] rest[b]).sequence_num by {
                assert(rest[a] == q0[a + k] && rest[b] == q0[b + k]);
            }
            assert forall|i: int| 0 <= i < rest.len() implies (#[trigger] rest[i]).sequence_num < self.counter() by {
                assert(rest[i] == q0[i + k]);
            }
            assert(1 <= k <= q0.len()
                && (forall|j: int| 0 <= j < k ==> (#[trigger] q0[j]).delay_cycles == q0[0].delay_cycles)
                && (forall|j: int| k <= j < q0.len() ==> (#[trigger] q0[j]).delay_cycles > q0[0].delay_cycles)
                && events@ == events_of(q0.take(k as int))
                && self.queue() == q0.skip(k as int));
        }
        events
    }

    /// Check if there are any events remaining in the queue
    pub fn has_events(&self) -> (b: bool)
        ensures
            b == (self.queue().len() > 0),
    {
        self.event_queue.len() > 0
    }

    /// The delay of the events due soonest, without removing any
    pub fn peek_next_delay(&self) -> (r: Option<u64>)
        requires
            self.wf(),
        ensures
            match r {
                Some(d) => self.queue().len() > 0 && d == self.queue()[0].delay_cycles
                    && forall|j: int| 0 <= j < self.queue().len() ==> d <= (#[trigger] self.queue()[j]).delay_cycles,
                None => self.queue().len() == 0,
            },
    {
        if self.event_queue.len() == 0 {
            None
        } else {
            proof {
                assert forall|j: int| 0 <= j < self.queue().len() implies self.queue()[0].delay_cycles
                    <= (#[trigger] self.queue()[j]).delay_cycles by {
                    lemma_head_is_soonest(self.queue(), j);
                }
            }
            Some(self.event_queue[0].delay_cycles)
        }
    }

    /// Advance time: every delay shrinks by the given number of cycles, down to
    /// zero; the queue is put back in order
    pub fn advance_time(&mut self, cycles: u64)
        requires
            old(self).wf(),
        ensures
            final(self).wf(),
            final(self).counter() == old(self).counter(),
            final(self).queue().len() == old(self).queue().len(),
            forall|x: ScheduledEvent<E>| final(self).queue().contains(x) <==> exists|i: int| 0 <= i < old(
                self,
            ).queue().len() && x == #[trigger] shifted(old(self).queue()[i], cycles),
    {
        let ghost q0 = self.event_queue@;
        let n0 = self.event_queue.len();
        let mut rest = Vec::new();
        std::mem::swap(&mut rest, &mut self.event_queue);
        let mut out: Vec<ScheduledEvent<E>> = Vec::new();
        let mut k: usize = 0;
        while rest.len() > 0
            invariant
                k <= q0.len(),
                q0.len() == n0,
                rest@ == q0.skip(k as int),
                out@.len() == k,
                queue_sorted(out@),
                sequence_unique(q0),
                forall|i: int| 0 <= i < q0.len() ==> (#[trigger] q0[i]).sequence_num < self.sequence_counter,
                forall|x: ScheduledEvent<E>| out@.contains(x) <==> exists|i: int| 0 <= i < k && x == #[trigger] shifted(
                    q0[i],
                    cycles,
                ),
            decreases rest@.len(),
        {
            let s = rest.remove(0);
            assert(s == q0[k as int]);
            let item = ScheduledEvent {
                delay_cycles: s.delay_cycles.saturating_sub(cycles),
                sequence_num: s.sequence_num,
                event: s.event,
            };
            assert(item == shifted(q0[k as int], cycles));
            proof {
                assert forall|j: int| 0 <= j < out@.len() implies (#[trigger] out@[j]).sequence_num != item.sequence_num by {
                    assert(out@.contains(out@[j]));
                    let i = choose|i: int| 0 <= i < k && out@[j] == #[trigger] shifted(q0[i], cycles);
                    assert(q0[i].sequence_num != q0[k as int].sequence_num);
                }
            }
            let ghost before = out@;
            let pos = insert_by_order(&mut out, item);
            proof {
                assert forall|x: ScheduledEvent<E>| out@.contains(x) <==> exists|i: int| 0 <= i < k + 1
                    && x == #[trigger] shifted(q0[i], cycles) by {
                    if out@.contains(x) {
                        let y = out@.index_of(x);
                        if y == pos as int {
                            assert(x == shifted(q0[k as int], cycles));
                        } else {
                            let y0 = if y < pos { y } else { y - 1 };
                            assert(before[y0] == x);
                            assert(before.contains(x));
                        }
                    }
                    if exists|i: int| 0 <= i < k + 1 && x == #[trigger] shifted(q0[i], cycles) {
                        let i = choose|i: int| 0 <= i < k + 1 && x == #[trigger] shifted(q0[i], cycles);
                        if i == k {
                            assert(out@[pos as int] == x);
                        } else {
                            assert(before.contains(x));
                            let y = before.index_of(x);
                            let y1 = if y < pos { y } else { y + 1 };
                            assert(out@[y1] == x);
                        }
                    }
                }
                assert(rest@ =~= q0.skip(k as int + 1));
            }
            k = k + 1;
        }
        self.event_queue = out;
        proof {
            let q = self.event_queue@;
            assert forall|a: int, b: int| 0 <= a < q.len() && 0 <= b < q.len() && a != b
                implies (#[trigger] q[a]).sequence_num != (#[trigger] q[b]).sequence_num by {
                assert(q.contains(q[a]));
                assert(q.contains(q[b]));
                let ia = choose|i: int| 0 <= i < k && q[a] == #[trigger] shifted(q0[i], cycles);
                let ib = choose|i: int| 0 <= i < k && q[b] == #[trigger] shifted(q0[i], cycles);
                if ia == ib {
                    assert(comes_before(q[a], q[b]) || comes_before(q[b], q[a]));
                }
            }
            assert forall|i: int| 0 <= i < q.len() implies (#[trigger] q[i]).sequence_num < self.counter() by {
                assert(q.contains(q[i]));
                let j = choose|j: int| 0 <= j < k && q[i] == #[trigger] shifted(q0[j], cycles);
            }
        }
    }
}

/// What every event can tell about itself
pub trait Event {
    /// The event's type, as text.
    spec fn kind_view(&self) -> Seq<char>;

    /// The components the event is addressed to, if any.
    spec fn receivers_view(&self) -> Option<Seq<IdView>>;

    fn id(&self) -> &String;

    fn event_type(&self) -> (r: &str)
        ensures
            r@ == self.kind_view(),
    ;

    fn source_id(&self) -> &ComponentId;

    fn target_ids(&self) -> (r: Option<Vec<ComponentId>>)
        ensures
            match r {
                Some(v) => self.receivers_view() == Some(id_views(v@)),
                None => self.receivers_view() is None,
            },
    ;

    fn data(&self) -> AssocMap<String, Value>;
}

/// The identifier of the event that marks a cycle's advance.
pub open spec fn cycle_event_id(old_cycle: u64, new_cycle: u64) -> Seq<char> {
    "cycle_advanced_"@ + decimal(old_cycle as nat) + "_to_"@ + decimal(new_cycle as nat)
}

/// Core simulation lifecycle event for cycle advancement
pub struct CycleAdvancedEvent {
    id: String,
    source_id: ComponentId,
    target_ids: Option<Vec<ComponentId>>,
    old_cycle: u64,
    new_cycle: u64,
}

/// Copies of a list of identifiers.
fn copy_id_list(ids: &Vec<ComponentId>) -> (r: Vec<ComponentId>)
    ensures
        id_views(r@) == id_views(ids@),
{
    let mut r: Vec<ComponentId> = Vec::new();
    let mut i: usize = 0;
    while i < ids.len()
        invariant
            i <= ids@.len(),
            id_views(r@) == id_views(ids@).take(i as int),
        decreases ids@.len() - i,
    {
        let ghost before = r@;
        r.push(ids[i].duplicate());
        proof {
            assert(id_views(r@) =~= id_views(before).push(ids@[i as int]@));
            assert(id_views(ids@).take(i as int + 1) =~= id_views(ids@).take(i as int).push(ids@[i as int]@));
        }
        i = i + 1;
    }
    assert(id_views(ids@).take(ids@.len() as int) =~= id_views(ids@));
    r
}

impl CycleAdvancedEvent {
    pub closed spec fn id_view(&self) -> Seq<char> {
        self.id@
    }

    pub closed spec fn source_view(&self) -> IdView {
        self.source_id@
    }

    pub closed spec fn targets_view(&self) -> Option<Seq<IdView>> {
        match self.target_ids {
            Some(v) => Some(id_views(v@)),
            None => None,
        }
    }

    pub closed spec fn cycles(&self) -> (u64, u64) {
        (self.old_cycle, self.new_cycle)
    }

    pub fn new(source_id: ComponentId, target_ids: Option<Vec<ComponentId>>, old_cycle: u64, new_cycle: u64) -> (r: Self)
        ensures
            r.id_view() == cycle_event_id(old_cycle, new_cycle),
            r.source_view() == source_id@,
            r.targets_view() == match target_ids {
                Some(v) => Some(id_views(v@)),
                None => None,
            },
            r.cycles() == (old_cycle, new_cycle),
    {
        let a = decimal_string(old_cycle);
        let b = decimal_string(new_cycle);
        let id = join4("cycle_advanced_", a.as_str(), "_to_", b.as_str());
        CycleAdvancedEvent { id, source_id, target_ids, old_cycle, new_cycle }
    }
}

impl Event for CycleAdvancedEvent {
    open spec fn kind_view(&self) -> Seq<char> {
        "CycleAdvancedEvent"@
    }

    open spec fn receivers_view(&self) -> Option<Seq<IdView>> {
        self.targets_view()
    }

    fn id(&self) -> (r: &String)
        ensures
            r@ == self.id_view(),
    {
        &self.id
    }

    fn event_type(&self) -> (r: &str)
        ensures
            r@ == "CycleAdvancedEvent"@,
    {
        "CycleAdvancedEvent"
    }

    fn source_id(&self) -> (r: &ComponentId)
        ensures
            r@ == self.source_view(),
    {
        &self.source_id
    }

    fn target_ids(&self) -> (r: Option<Vec<ComponentId>>)
        ensures
            match r {
                Some(v) => self.targets_view() == Some(id_views(v@)),
                None => self.targets_view() is None,
            },
    {
        match &self.target_ids {
            Some(v) => Some(copy_id_list(v)),
            None => None,
        }
    }

    fn data(&self) -> (r: AssocMap<String, Value>)
        ensures
            r.as_map().dom() == set!["old_cycle"@, "new_cycle"@],
            r.as_map()["old_cycle"@]@ == ValueView::I64(self.cycles().0 as i64),
            r.as_map()["new_cycle"@]@ == ValueView::I64(self.cycles().1 as i64),
    {
        let mut data: AssocMap<String, Value> = AssocMap::new();
        data.insert(owned("old_cycle"), Value::I64(self.old_cycle as i64));
        data.insert(owned("new_cycle"), Value::I64(self.new_cycle as i64));
        proof {
            reveal_strlit("old_cycle");
            reveal_strlit("new_cycle");
            assert("old_cycle"@[0] != "new_cycle"@[0]);
        }
        assert(data.as_map().dom() =~= set!["old_cycle"@, "new_cycle"@]);
        data
    }
}

/// The subscribers of an event type, or none.
pub open spec fn subscribers_or_empty(subs: Map<Seq<char>, Seq<IdView>>, t: Seq<char>) -> Seq<IdView> {
    if subs.contains_key(t) {
        subs[t]
    } else {
        Seq::empty()
    }
}

/// Registered components, by identifier.
pub open spec fn registered_in(reg: Seq<IdView>) -> spec_fn(IdView) -> bool {
    |v: IdView| reg.contains(v)
}

/// The subscriptions after a component subscribes to the given event types.
pub open spec fn subscribed(
    subs: Map<Seq<char>, Seq<IdView>>,
    types: Seq<Seq<char>>,
    id: IdView,
) -> Map<Seq<char>, Seq<IdView>> {
    Map::new(
        |t: Seq<char>| subs.contains_key(t) || types.contains(t),
        |t: Seq<char>| if types.contains(t) {
            subscribers_or_empty(subs, t).push(id)
        } else {
            subs[t]
        },
    )
}

/// One more event type in a subscription list.
proof fn lemma_subscribed_step(s0: Map<Seq<char>, Seq<IdView>>, prev: Seq<Seq<char>>, tv: Seq<char>, id: IdView)
    ensures
        subscribed(s0, prev.push(tv), id) == if prev.contains(tv) {
            subscribed(s0, prev, id)
        } else {
            subscribed(s0, prev, id).insert(tv, subscribers_or_empty(s0, tv).push(id))
        },
{
    assert forall|t: Seq<char>| prev.push(tv).contains(t) <==> (prev.contains(t) || t == tv) by {
        if prev.push(tv).contains(t) && t != tv {
            let x = prev.push(tv).index_of(t);
            assert(prev[x] == t);
        }
        if prev.contains(t) {
            let x = prev.index_of(t);
            assert(prev.push(tv)[x] == t);
        }
        if t == tv {
            assert(prev.push(tv)[prev.len() as int] == t);
        }
    }
    if prev.contains(tv) {
        assert(subscribed(s0, prev.push(tv), id) =~= subscribed(s0, prev, id));
    } else {
        assert(subscribed(s0, prev.push(tv), id) =~= subscribed(s0, prev, id).insert(tv, subscribers_or_empty(s0, tv).push(id)));
    }
}

/// Routes events to the components that should receive them
pub struct EventManager {
    /// The registered components
    components: Vec<ComponentId>,
    /// The subscribers of each event type
    subscriptions: AssocMap<String, Vec<ComponentId>>,
}

impl EventManager {
    /// The registered components, in registration order.
    pub closed spec fn registered(&self) -> Seq<IdView> {
        id_views(self.components@)
    }

    /// The subscribers of each event type, in registration order.
    pub closed spec fn subs(&self) -> Map<Seq<char>, Seq<IdView>> {
        Map::new(
            |t: Seq<char>| self.subscriptions.as_map().contains_key(t),
            |t: Seq<char>| id_views(self.subscriptions.as_map()[t]@),
        )
    }

    /// Components are registered once, and subscribers are registered
    /// components, each listed once per event type.
    pub open spec fn wf(&self) -> bool {
        &&& self.registered().no_duplicates()
        &&& forall|t: Seq<char>| #[trigger] self.subs().contains_key(t) ==> self.subs()[t].no_duplicates()
            && forall|i: int| 0 <= i < self.subs()[t].len() ==> self.registered().contains(#[trigger] self.subs()[t][i])
    }

    /// Create a new EventManager
    pub fn new() -> (r: Self)
        ensures
            r.wf(),
            r.registered() == Seq::<IdView>::empty(),
            r.subs() == Map::<Seq<char>, Seq<IdView>>::empty(),
    {
        let r = EventManager { components: Vec::new(), subscriptions: AssocMap::new() };
        assert(r.registered() =~= Seq::<IdView>::empty());
        assert(r.subs() =~= Map::<Seq<char>, Seq<IdView>>::empty());
        r
    }

    /// Register a component together with the event types it subscribes to; a
    /// component is registered once
    pub fn register_component(&mut self, component_id: ComponentId, subscriptions: Vec<String>) -> (r: Result<(), String>)
        requires
            old(self).wf(),
        ensures
            final(self).wf(),
            r is Ok <==> !old(self).registered().contains(component_id@),
            match r {
                Ok(_) => final(self).registered() == old(self).registered().push(component_id@)
                    && final(self).subs() == subscribed(old(self).subs(), string_views(subscriptions@), component_id@),
                Err(e) => final(self).registered() == old(self).registered() && final(self).subs() == old(self).subs()
                    && e@ == "Component with ID '"@ + component_id@.0 + "' is already registered"@,
            },
    {
        if ids_contain(&self.components, &component_id) {
            return Err(join3("Component with ID '", component_id.id(), "' is already registered"));
        }
        let ghost s0 = self.subs();
        let ghost reg0 = self.registered();
        let ghost reg1 = reg0.push(component_id@);
        let ghost types = string_views(subscriptions@);
        proof {
            assert forall|t: Seq<char>| #[trigger] self.subs().contains_key(t) implies self.subs()[t].no_duplicates()
                && forall|k: int| 0 <= k < self.subs()[t].len() ==> reg1.contains(#[trigger] self.subs()[t][k]) by {
                assert forall|k: int| 0 <= k < self.subs()[t].len() implies reg1.contains(#[trigger] self.subs()[t][k]) by {
                    let x = reg0.index_of(self.subs()[t][k]);
                    assert(reg1[x] == self.subs()[t][k]);
                }
            }
            assert forall|t: Seq<char>| #[trigger] s0.contains_key(t) implies !s0[t].contains(component_id@) by {
                if s0[t].contains(component_id@) {
                    let k = s0[t].index_of(component_id@);
                    assert(reg0.contains(s0[t][k]));
                }
            }
            assert(subscribed(s0, types.take(0), component_id@) =~= s0);
        }
        let mut i: usize = 0;
        while i < subscriptions.len()
            invariant
                i <= subscriptions@.len(),
                types == string_views(subscriptions@),
                !reg0.contains(component_id@),
                reg0 == self.registered(),
                reg1 == reg0.push(component_id@),
                forall|t: Seq<char>| #[trigger] s0.contains_key(t) ==> !s0[t].contains(component_id@),
                forall|t: Seq<char>| #[trigger] self.subs().contains_key(t) ==> self.subs()[t].no_duplicates()
                    && forall|k: int| 0 <= k < self.subs()[t].len() ==> reg1.contains(#[trigger] self.subs()[t][k]),
                self.subs() == subscribed(s0, types.take(i as int), component_id@),
            decreases subscriptions@.len() - i,
        {
            let t = &subscriptions[i];
            let ghost before = self.subs();
            let ghost tv = t@;
            let ghost prev = types.take(i as int);
            proof {
                assert(types.take(i as int + 1) =~= prev.push(tv));
                lemma_subscribed_step(s0, prev, tv, component_id@);
            }
            match self.subscriptions.find(t) {
                Some(j) => {
                    proof {
                        self.subscriptions.lemma_view_at(j as int);
                        assert(before.contains_key(tv));
                    }
                    if !ids_contain(self.subscriptions.value_at(j), &component_id) {
                        let mut list = self.subscriptions.set_value_at(j, Vec::new());
                        let ghost l0 = list@;
                        list.push(component_id.duplicate());
                        self.subscriptions.set_value_at(j, list);
                        proof {
                            assert(id_views(list@) =~= id_views(l0).push(component_id@));
                            assert(self.subs() =~= before.insert(tv, before[tv].push(component_id@)));
                            if prev.contains(tv) {
                                assert(before[tv] == subscribers_or_empty(s0, tv).push(component_id@));
                                assert(before[tv][before[tv].len() - 1] == component_id@);
                            }
                            assert(!prev.contains(tv));
                            assert(before[tv] == s0[tv]);
                            assert forall|a: int, b: int| 0 <= a < b < self.subs()[tv].len() implies self.subs()[tv][a]
                                != self.subs()[tv][b] by {
                                if b == before[tv].len() {
                                    assert(before[tv].contains(before[tv][a]));
                                }
                            }
                        }
                    } else {
                        proof {
                            if !prev.contains(tv) {
                                assert(before[tv] == s0[tv]);
                            }
                        }
                    }
                },
                None => {
                    let mut list: Vec<ComponentId> = Vec::new();
                    list.push(component_id.duplicate());
                    self.subscriptions.insert(t.clone(), list);
                    proof {
                        assert(id_views(list@) =~= seq![component_id@]);
                        assert(!before.contains_key(tv));
                        assert(self.subs() =~= before.insert(tv, seq![component_id@]));
                        assert(!prev.contains(tv));
                        assert(!s0.contains_key(tv));
                        assert(Seq::<IdView>::empty().push(component_id@) =~= seq![component_id@]);
                        assert(reg1.contains(component_id@)) by {
                            assert(reg1[reg0.len() as int] == component_id@);
                        }
                    }
                },
            }
            proof {
                assert(self.subs() =~= subscribed(s0, types.take(i as int + 1), component_id@));
                assert(reg1.contains(component_id@)) by {
                    assert(reg1[reg0.len() as int] == component_id@);
                }
            }
            i = i + 1;
        }
        self.components.push(component_id);
        proof {
            assert(types.take(subscriptions@.len() as int) =~= types);
            assert(self.registered() =~= reg1);
        }
        Ok(())
    }

    /// The components an event goes to: the given targets that are registered,
    /// in their order, or, with no targets given, the subscribers of its type
    pub fn route(&self, target_ids: Option<&Vec<ComponentId>>, event_type: &str) -> (r: Vec<ComponentId>)
        ensures
            id_views(r@) == match target_ids {
                Some(ts) => id_views(ts@).filter(registered_in(self.registered())),
                None => subscribers_or_empty(self.subs(), event_type@),
            },
    {
        match target_ids {
            Some(targets) => {
                let mut r: Vec<ComponentId> = Vec::new();
                let mut i: usize = 0;
                while i < targets.len()
                    invariant
                        i <= targets@.len(),
                        id_views(r@) == id_views(targets@).take(i as int).filter(registered_in(self.registered())),
                    decreases targets@.len() - i,
                {
                    let ghost before = r@;
                    proof {
                        assert(id_views(targets@).take(i as int + 1) =~= id_views(targets@).take(i as int).push(
                            targets@[i as int]@,
                        ));
                        lemma_filter_push(id_views(targets@).take(i as int), targets@[i as int]@, registered_in(
                            self.registered(),
                        ));
                    }
                    if ids_contain(&self.components, &targets[i]) {
                        r.push(targets[i].duplicate());
                        assert(id_views(r@) =~= id_views(before).push(targets@[i as int]@));
                    }
                    i = i + 1;
                }
                assert(id_views(targets@).take(targets@.len() as int) =~= id_views(targets@));
                r
            },
            None => match self.subscriptions.get(&owned(event_type)) {
                Some(subscribers) => copy_id_list(subscribers),
                None => {
                    let r: Vec<ComponentId> = Vec::new();
                    assert(id_views(r@) =~= Seq::<IdView>::empty());
                    r
                },
            },
        }
    }

    /// Route an event to its receivers, returning their identifiers
    pub fn route_event<E: Event>(&self, event: &E) -> (r: Vec<ComponentId>)
        ensures
            id_views(r@) == match event.receivers_view() {
                Some(ts) => ts.filter(registered_in(self.registered())),
                None => subscribers_or_empty(self.subs(), event.kind_view()),
            },
    {
        let targets = event.target_ids();
        match &targets {
            Some(ts) => self.route(Some(ts), event.event_type()),
            None => self.route(None, event.event_type()),
        }
    }
}

/// Whether the identifier is in the list.
fn ids_contain(ids: &Vec<ComponentId>, id: &ComponentId) -> (b: bool)
    ensures
        b == id_views(ids@).contains(id@),
{
    let mut i: usize = 0;
    while i < ids.len()
        invariant
            i <= ids@.len(),
            forall|j: int| 0 <= j < i ==> ids@[j]@ != id@,
        decreases ids@.len() - i,
    {
        if ids[i].same_as(id) {
            assert(id_views(ids@)[i as int] == id@);
            return true;
        }
        i = i + 1;
    }
    proof {
        if id_views(ids@).contains(id@) {
            let j = id_views(ids@).index_of(id@);
            assert(ids@[j]@ == id@);
        }
    }
    false
}

} // verus!
