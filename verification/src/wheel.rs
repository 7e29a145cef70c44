//! The hierarchical timing wheel: two layers of slots, with an index that
//! finds every task's slot in constant time.

use crate::config::{BatchConfig, WheelConfig};
use crate::error::TimerError;
use crate::index::{
    handle_key, index_contents, index_owner, index_reserved, index_slot_count, index_wf,
    TaskHandle, TaskIndex,
};
use crate::task::{
    key_owner, OneShotNotifier, PeriodicCompletionNotifier, TaskCompletion, TaskId, TaskLocation,
    TaskTypeWithCompletionNotifier, TimerTaskWithCompletionNotifier,
};
use crate::num::u64_is_multiple_of;
use crate::time::{duration_millis_u64, millis_of, millis_u64};
use std::time::Duration;
use vstd::prelude::*;

verus! {

/// A task that came due in `Wheel::advance`, with its callback.
pub struct WheelAdvanceResult<C> {
    pub id: TaskId,
    pub callback: Option<C>,
}

/// A task in a slot of the wheel: its identifier, the task, the tick of the
/// layer at which it is due, and the turns of the layer it still has to wait.
pub(crate) struct TimerTaskForWheel<C> {
    pub(crate) task_id: TaskId,
    pub(crate) task: TimerTaskWithCompletionNotifier<C>,
    pub(crate) deadline_tick: u64,
    pub(crate) rounds: u32,
}

impl<C> TimerTaskForWheel<C> {
    /// A task for a slot, with its identifier, deadline tick and rounds.
    pub(crate) fn new_with_id(
        task_id: TaskId,
        task: TimerTaskWithCompletionNotifier<C>,
        deadline_tick: u64,
        rounds: u32,
    ) -> (r: Self)
        ensures
            r == (TimerTaskForWheel { task_id, task, deadline_tick, rounds }),
    {
        TimerTaskForWheel { task_id, task, deadline_tick, rounds }
    }

    /// The task's identifier.
    pub(crate) fn get_id(&self) -> (r: TaskId)
        ensures
            r == self.task_id,
    {
        self.task_id
    }

    /// The kind of the task with its completion channel.
    pub(crate) fn into_task_type(self) -> (r: TaskTypeWithCompletionNotifier)
        ensures
            r == self.task.kind_spec(),
            r.interval_spec() == self.task.interval_spec(),
    {
        self.task.into_task_type()
    }

    /// Replaces the task's delay.
    pub(crate) fn update_delay(&mut self, delay: Duration)
        ensures
            final(self).task.delay_spec() == delay,
            final(self).task.kind_spec() == old(self).task.kind_spec(),
            final(self).task.interval_spec() == old(self).task.interval_spec(),
            final(self).task.callback_spec() == old(self).task.callback_spec(),
            final(self).task_id == old(self).task_id,
            final(self).deadline_tick == old(self).deadline_tick,
            final(self).rounds == old(self).rounds,
    {
        self.task.set_delay(delay);
    }

    /// Replaces the task's callback.
    pub(crate) fn update_callback(&mut self, callback: C)
        ensures
            final(self).task.callback_spec() == Some(callback),
            final(self).task.kind_spec() == old(self).task.kind_spec(),
            final(self).task.interval_spec() == old(self).task.interval_spec(),
            final(self).task.delay_spec() == old(self).task.delay_spec(),
            final(self).task_id == old(self).task_id,
            final(self).deadline_tick == old(self).deadline_tick,
            final(self).rounds == old(self).rounds,
    {
        self.task.set_callback(callback);
    }
}

/// What the wheel records of a task: where it sits, when it is due, and what it is.
pub struct TaskView<C> {
    /// Layer: 0 = L0, 1 = L1.
    pub level: u8,
    /// Slot in that layer.
    pub slot: usize,
    /// Tick of that layer at which the task was due when placed.
    pub deadline_tick: u64,
    /// Turns of L1 the task still waits.
    pub rounds: u32,
    /// Interval of a periodic task; `None` for a one-shot task.
    pub interval: Option<Duration>,
    /// The task's kind with the channel that reports its completions.
    pub kind: TaskTypeWithCompletionNotifier,
    /// The task's delay.
    pub delay: Duration,
    /// The task's callback.
    pub callback: Option<C>,
}

/// A completion that the wheel handed to a task's channel: the task's
/// number, its kind with the channel, and the completion.
pub struct Notice {
    pub id: u64,
    pub channel: TaskTypeWithCompletionNotifier,
    pub completion: TaskCompletion,
}

/// Hands `completion` to a one-shot task's channel; gives back the record of
/// that report.
fn report_oneshot(Ghost(raw): Ghost<u64>, notifier: OneShotNotifier, completion: TaskCompletion) -> (n: Ghost<Notice>)
    ensures
        n@ == (Notice {
            id: raw,
            channel: TaskTypeWithCompletionNotifier::OneShot { completion_notifier: notifier },
            completion,
        }),
{
    let ghost channel = TaskTypeWithCompletionNotifier::OneShot { completion_notifier: notifier };
    let handed = notifier.notify(completion);
    Ghost(Notice { id: raw, channel, completion: handed.completion })
}

/// Hands `completion` to a periodic task's channel, which stays with the
/// task; gives back the record of that report.
fn report_periodic(
    Ghost(raw): Ghost<u64>,
    interval: Duration,
    notifier: &PeriodicCompletionNotifier,
    completion: TaskCompletion,
) -> (n: Ghost<Notice>)
    ensures
        n@ == (Notice {
            id: raw,
            channel: TaskTypeWithCompletionNotifier::Periodic { interval, completion_notifier: *notifier },
            completion,
        }),
{
    let handed = notifier.notify(completion);
    Ghost(
        Notice {
            id: raw,
            channel: TaskTypeWithCompletionNotifier::Periodic { interval, completion_notifier: *notifier },
            completion: handed.completion,
        },
    )
}

/// Hands `completion` to the channel of a task of kind `kind`, which the
/// task leaves with; gives back the record of that report.
fn report(Ghost(raw): Ghost<u64>, kind: TaskTypeWithCompletionNotifier, completion: TaskCompletion) -> (n: Ghost<Notice>)
    ensures
        n@ == (Notice { id: raw, channel: kind, completion }),
{
    match kind {
        TaskTypeWithCompletionNotifier::OneShot { completion_notifier } => {
            report_oneshot(Ghost(raw), completion_notifier, completion)
        },
        TaskTypeWithCompletionNotifier::Periodic { interval, completion_notifier } => {
            report_periodic(Ghost(raw), interval, &completion_notifier, completion)
        },
    }
}

/// One layer of the wheel.
struct WheelLayer<C> {
    slots: Vec<Vec<TimerTaskForWheel<C>>>,
    current_tick: u64,
    slot_count: usize,
    tick_duration: Duration,
    tick_duration_ms: u64,
    slot_mask: usize,
}

/// The slot of a tick in a layer of `slot_count` slots: the tick's low bits.
pub open spec fn slot_of(tick: u64, slot_count: usize) -> usize {
    ((tick as usize) & ((slot_count - 1) as usize)) as usize
}

/// `b` is `a` or a clone of it, as `Option::clone` gives.
pub open spec fn option_cloned<C: Clone>(a: Option<C>, b: Option<C>) -> bool {
    &&& a is None ==> b is None
    &&& a is Some ==> b is Some && vstd::pervasive::cloned(a.unwrap(), b.unwrap())
}

/// A record with another callback.
pub open spec fn with_callback<C>(v: TaskView<C>, callback: Option<C>) -> TaskView<C> {
    TaskView { callback, ..v }
}

/// Dropping the first element of a suffix of a sequence without duplicates
/// removes that element from the suffix's set.
proof fn lemma_subrange_step(p: Seq<u64>, k: int, n: int)
    requires
        p.no_duplicates(),
        0 <= k < n,
        n == p.len(),
    ensures
        p.subrange(k, n).to_set().contains(p[k]),
        p.subrange(k + 1, n).to_set() == p.subrange(k, n).to_set().remove(p[k]),
{
    let a = p.subrange(k, n);
    let b = p.subrange(k + 1, n);
    assert(a[0] == p[k]);
    assert(a.contains(p[k]));
    assert forall|x: u64| b.to_set().contains(x) <==> a.to_set().remove(p[k]).contains(x) by {
        if b.to_set().contains(x) {
            assert(b.contains(x));
            let i = choose|i: int| 0 <= i < b.len() && b[i] == x;
            assert(a[i + 1] == x);
            assert(a.contains(x));
            assert(p[k + 1 + i] == x);
            assert(x != p[k]);
        }
        if a.to_set().remove(p[k]).contains(x) {
            assert(a.contains(x));
            let i = choose|i: int| 0 <= i < a.len() && a[i] == x;
            assert(i != 0);
            assert(b[i - 1] == x);
            assert(b.contains(x));
        }
    }
    assert(b.to_set() =~= a.to_set().remove(p[k]));
}

/// A suffix of a sequence without duplicates holds exactly the elements at or
/// after its start.
proof fn lemma_suffix_members(p: Seq<u64>, k: int, n: int)
    requires
        p.no_duplicates(),
        0 <= k <= n,
        n == p.len(),
    ensures
        forall|x: u64| #[trigger] p.subrange(k, n).to_set().contains(x) ==> p.to_set().contains(x),
        forall|j: int| 0 <= j < k ==> !p.subrange(k, n).to_set().contains(#[trigger] p[j]),
{
    let a = p.subrange(k, n);
    assert forall|x: u64| #[trigger] a.to_set().contains(x) implies p.to_set().contains(x) by {
        assert(a.contains(x));
        let i = choose|i: int| 0 <= i < a.len() && a[i] == x;
        assert(p[k + i] == x);
        assert(p.contains(x));
    }
    assert forall|j: int| 0 <= j < k implies !a.to_set().contains(#[trigger] p[j]) by {
        if a.to_set().contains(p[j]) {
            assert(a.contains(p[j]));
            let i = choose|i: int| 0 <= i < a.len() && a[i] == p[j];
            assert(p[k + i] == p[j]);
        }
    }
}

/// At least one tick.
pub open spec fn at_least_one(ticks: u64) -> u64 {
    if ticks < 1 {
        1
    } else {
        ticks
    }
}

proof fn lemma_slot_of_bound(tick: u64, slot_count: usize)
    requires
        slot_count > 0,
    ensures
        slot_of(tick, slot_count) < slot_count,
{
    let t = tick as usize;
    let m = (slot_count - 1) as usize;
    assert(t & m <= m) by (bit_vector);
}

impl<C> WheelLayer<C> {
    spec fn wf(self) -> bool {
        &&& self.slots@.len() == self.slot_count
        &&& self.slot_count > 0
        &&& self.slot_mask == self.slot_count - 1
        &&& self.slot_count & self.slot_mask == 0
        &&& self.tick_duration_ms == millis_u64(self.tick_duration)
        &&& self.tick_duration_ms > 0
    }

    /// A layer of `slot_count` empty slots at tick 0.
    fn new(slot_count: usize, tick_duration: Duration) -> (r: Self)
        requires
            slot_count > 0,
            slot_count & ((slot_count - 1) as usize) == 0,
            millis_u64(tick_duration) > 0,
        ensures
            r.wf(),
            r.slot_count == slot_count,
            r.tick_duration == tick_duration,
            r.current_tick == 0,
            forall|s: int| 0 <= s < slot_count ==> (#[trigger] r.slots@[s])@.len() == 0,
    {
        let mut slots: Vec<Vec<TimerTaskForWheel<C>>> = Vec::with_capacity(slot_count);
        let mut i: usize = 0;
        while i < slot_count
            invariant
                i <= slot_count,
                slots@.len() == i,
                forall|s: int| 0 <= s < i ==> (#[trigger] slots@[s])@.len() == 0,
            decreases slot_count - i,
        {
            slots.push(Vec::with_capacity(4));
            i = i + 1;
        }
        let tick_duration_ms = duration_millis_u64(&tick_duration);
        let slot_mask = slot_count - 1;
        WheelLayer { slots, current_tick: 0, slot_count, tick_duration, tick_duration_ms, slot_mask }
    }

    /// Ticks of this layer in `delay`, at least one.
    fn delay_to_ticks(&self, delay: Duration) -> (r: u64)
        requires
            self.wf(),
        ensures
            r == at_least_one((millis_u64(delay) / self.tick_duration_ms) as u64),
    {
        let ticks = duration_millis_u64(&delay) / self.tick_duration_ms;
        if ticks < 1 {
            1
        } else {
            ticks
        }
    }
}

/// The timing wheel: an L0 layer of fine ticks, an L1 layer of coarse ticks,
/// and an index from task identifiers to their places.
pub struct Wheel<C> {
    l0: WheelLayer<C>,
    l1: WheelLayer<C>,
    l1_tick_ratio: u64,
    task_index: TaskIndex,
    batch_config: BatchConfig,
    l0_capacity_ms: u64,
    l1_capacity_ticks: u64,
    notices: Ghost<Seq<Notice>>,
}

/// The identifier number of the task at position `v` of slot `s`.
spec fn id_at<C>(slots: Seq<Vec<TimerTaskForWheel<C>>>, s: int, v: int) -> u64 {
    slots[s]@[v].task_id.value()
}

/// Every task in `slots` (the slots of layer `level`) is in the index `m`, at
/// its place, not pending, and issued by the index `owner`.
spec fn slots_indexed<C>(
    slots: Seq<Vec<TimerTaskForWheel<C>>>,
    level: u8,
    m: Map<u64, TaskLocation>,
    pending: Set<u64>,
    owner: u64,
) -> bool {
    forall|s: int, v: int|
        #![trigger id_at(slots, s, v)]
        #![trigger pos_indexed(slots, level, m, pending, owner, s, v)]
        0 <= s < slots.len() && 0 <= v < slots[s]@.len() ==> pos_indexed(slots, level, m, pending, owner, s, v)
}

/// The task at position `v` of slot `s` is in the index `m`, at that place,
/// not pending, and issued by the index `owner`.
spec fn pos_indexed<C>(
    slots: Seq<Vec<TimerTaskForWheel<C>>>,
    level: u8,
    m: Map<u64, TaskLocation>,
    pending: Set<u64>,
    owner: u64,
    s: int,
    v: int,
) -> bool {
    &&& m.contains_key(id_at(slots, s, v))
    &&& !pending.contains(id_at(slots, s, v))
    &&& m[id_at(slots, s, v)] == TaskLocation {
        slot_index: s as usize,
        vec_index: v as usize,
        level,
    }
    &&& key_owner(slots[s]@[v].task_id.key()) == owner
}

/// Like `slots_indexed`, but saying nothing of the position `skip`.
spec fn slots_indexed_but<C>(
    slots: Seq<Vec<TimerTaskForWheel<C>>>,
    level: u8,
    m: Map<u64, TaskLocation>,
    pending: Set<u64>,
    owner: u64,
    skip: TaskLocation,
) -> bool {
    forall|s: int, v: int|
        #![trigger id_at(slots, s, v)]
        #![trigger pos_indexed(slots, level, m, pending, owner, s, v)]
        0 <= s < slots.len() && 0 <= v < slots[s]@.len() && !(level == skip.level && s
            == skip.slot_index && v == skip.vec_index) ==> pos_indexed(slots, level, m, pending, owner, s, v)
}

/// The record of a task at a given place.
spec fn view_of<C>(t: TimerTaskForWheel<C>, level: u8, slot: usize) -> TaskView<C> {
    TaskView {
        level,
        slot,
        deadline_tick: t.deadline_tick,
        rounds: t.rounds,
        interval: t.task.interval_spec(),
        kind: t.task.kind_spec(),
        delay: t.task.delay_spec(),
        callback: t.task.callback_spec(),
    }
}

impl<C> Wheel<C> {
    /// Milliseconds per L0 tick.
    pub closed spec fn l0_tick_ms(self) -> u64 {
        self.l0.tick_duration_ms
    }

    /// Milliseconds per L1 tick.
    pub closed spec fn l1_tick_ms(self) -> u64 {
        self.l1.tick_duration_ms
    }

    /// Slots in L0.
    pub closed spec fn l0_slots(self) -> usize {
        self.l0.slot_count
    }

    /// Slots in L1.
    pub closed spec fn l1_slots(self) -> usize {
        self.l1.slot_count
    }

    /// The current L0 tick.
    pub closed spec fn l0_tick(self) -> u64 {
        self.l0.current_tick
    }

    /// The current L1 tick.
    pub closed spec fn l1_tick(self) -> u64 {
        self.l1.current_tick
    }

    /// L0 ticks per L1 tick.
    pub closed spec fn ratio(self) -> u64 {
        self.l1_tick_ratio
    }

    /// The duration of an L0 tick.
    pub closed spec fn l0_tick_duration(self) -> Duration {
        self.l0.tick_duration
    }

    /// The batch settings.
    pub closed spec fn batch(self) -> BatchConfig {
        self.batch_config
    }

    /// The identity of the wheel's index, which its task identifiers carry.
    pub closed spec fn owner(self) -> u64 {
        index_owner(self.task_index)
    }

    /// The identifier numbers reserved by handles not yet used.
    pub closed spec fn reserved(self) -> Set<u64> {
        index_reserved(self.task_index)
    }

    /// The number of slots that the index has created.
    pub closed spec fn index_slots(self) -> nat {
        index_slot_count(self.task_index)
    }

    /// The handle was reserved in this wheel and not yet used.
    pub open spec fn handle_is_fresh(self, h: TaskHandle) -> bool {
        &&& key_owner(handle_key(h)) == self.owner()
        &&& self.reserved().contains(crate::task::key_raw(handle_key(h)))
    }

    /// The identifier was issued by this wheel.
    pub open spec fn owns(self, id: TaskId) -> bool {
        key_owner(id.key()) == self.owner()
    }

    spec fn layer(self, level: u8) -> WheelLayer<C> {
        if level == 0 {
            self.l0
        } else {
            self.l1
        }
    }

    spec fn valid_loc(self, loc: TaskLocation) -> bool {
        &&& loc.level <= 1
        &&& loc.slot_index < self.layer(loc.level).slots@.len()
        &&& loc.vec_index < self.layer(loc.level).slots@[loc.slot_index as int]@.len()
    }

    spec fn entry(self, loc: TaskLocation) -> TimerTaskForWheel<C> {
        self.layer(loc.level).slots@[loc.slot_index as int]@[loc.vec_index as int]
    }

    /// Every task in the slots of layer `level` is in the index, at its place,
    /// not pending, and issued by this wheel's index.
    spec fn layer_indexed(self, level: u8, pending: Set<u64>) -> bool {
        slots_indexed(
            self.layer(level).slots@,
            level,
            index_contents(self.task_index),
            pending,
            index_owner(self.task_index),
        )
    }

    /// Every L1 task's deadline, in L0 ticks, fits in 64 bits.
    spec fn l1_deadlines_fit(self) -> bool {
        let slots = self.l1.slots@;
        forall|s: int, v: int|
            0 <= s < slots.len() && 0 <= v < slots[s]@.len() ==> #[trigger] slots[s]@[v].deadline_tick
                * self.l1_tick_ratio <= u64::MAX
    }

    /// The index and the slots agree, except for the `pending` tasks, which are
    /// in the index but out of the slots.
    spec fn consistent(self, pending: Set<u64>) -> bool {
        let m = index_contents(self.task_index);
        &&& pending.subset_of(m.dom())
        &&& forall|raw: u64|
            #![trigger m[raw]]
            m.contains_key(raw) && !pending.contains(raw) ==> self.valid_loc(m[raw]) && self.entry(
                m[raw],
            ).task_id.value() == raw
        &&& self.layer_indexed(0, pending)
        &&& self.layer_indexed(1, pending)
        &&& self.l1_deadlines_fit()
    }

    /// The shape of the wheel: layers well formed and the cached values right.
    pub closed spec fn shape(self) -> bool {
        &&& self.l0.wf()
        &&& self.l1.wf()
        &&& self.l1_tick_ratio == self.l1.tick_duration_ms / self.l0.tick_duration_ms
        &&& self.l1_tick_ratio > 0
        &&& self.l0_capacity_ms == self.l0.slot_count * self.l0.tick_duration_ms
        &&& self.l1_capacity_ticks == self.l1.slot_count
        &&& index_wf(self.task_index)
    }

    /// The wheel's invariant.
    pub closed spec fn wf(self) -> bool {
        self.shape() && self.consistent(Set::empty())
    }

    /// Every completion that the wheel has handed to a task's channel, oldest
    /// first.
    pub closed spec fn notices(self) -> Seq<Notice> {
        self.notices@
    }

    /// The report of `completion` for the task numbered `raw`, on the channel
    /// that the task has in this wheel.
    pub open spec fn notice_for(self, raw: u64, completion: TaskCompletion) -> Notice {
        Notice { id: raw, channel: self.tasks()[raw].kind, completion }
    }

    /// `ns` reports `Cancelled` exactly once for each task numbered in `gone`,
    /// on the channel that the task has in this wheel, and nothing else.
    pub open spec fn cancel_notices(self, ns: Seq<Notice>, gone: Set<u64>) -> bool {
        &&& forall|i: int|
            0 <= i < ns.len() ==> gone.contains(#[trigger] ns[i].id) && ns[i] == self.notice_for(
                ns[i].id,
                TaskCompletion::Cancelled,
            )
        &&& forall|i: int, j: int| 0 <= i < j < ns.len() ==> (#[trigger] ns[i]).id != (#[trigger] ns[j]).id
        &&& forall|raw: u64| #[trigger] gone.contains(raw) ==> exists|i: int| 0 <= i < ns.len() && (#[trigger] ns[i]).id == raw
    }

    /// No report reports no cancellation.
    pub proof fn lemma_cancel_notices_empty(self)
        ensures
            self.cancel_notices(Seq::empty(), Set::empty()),
    {
    }

    /// Reporting the cancellation of one more task, not reported before, keeps
    /// the record of cancellations exact.
    pub proof fn lemma_cancel_notices_push(self, ns: Seq<Notice>, gone: Set<u64>, raw: u64)
        requires
            self.cancel_notices(ns, gone),
            !gone.contains(raw),
        ensures
            self.cancel_notices(ns.push(self.notice_for(raw, TaskCompletion::Cancelled)), gone.insert(raw)),
    {
        let n = self.notice_for(raw, TaskCompletion::Cancelled);
        let ns2 = ns.push(n);
        let g2 = gone.insert(raw);
        assert forall|i: int| 0 <= i < ns2.len() implies g2.contains(#[trigger] ns2[i].id) && ns2[i] == self.notice_for(
            ns2[i].id,
            TaskCompletion::Cancelled,
        ) by {
            if i < ns.len() {
                assert(ns2[i] == ns[i]);
            }
        }
        assert forall|i: int, j: int| 0 <= i < j < ns2.len() implies (#[trigger] ns2[i]).id != (#[trigger] ns2[j]).id by {
            assert(ns2[i] == ns[i]);
            if j == ns.len() {
                assert(gone.contains(ns[i].id));
            } else {
                assert(ns2[j] == ns[j]);
            }
        }
        assert forall|x: u64| #[trigger] g2.contains(x) implies exists|i: int| 0 <= i < ns2.len() && (#[trigger] ns2[i]).id == x by {
            if x == raw {
                assert(ns2[ns.len() as int].id == raw);
            } else {
                let i = choose|i: int| 0 <= i < ns.len() && (#[trigger] ns[i]).id == x;
                assert(ns2[i] == ns[i]);
            }
        }
    }

    /// The reports of cancellations of two disjoint sets of tasks, one after
    /// the other, report the cancellations of their union.
    proof fn lemma_cancel_notices_concat(self, a: Seq<Notice>, sa: Set<u64>, b: Seq<Notice>, sb: Set<u64>)
        requires
            self.cancel_notices(a, sa),
            self.cancel_notices(b, sb),
            sa.disjoint(sb),
        ensures
            self.cancel_notices(a + b, sa.union(sb)),
    {
        let c = a + b;
        let g = sa.union(sb);
        assert forall|i: int| 0 <= i < c.len() implies g.contains(#[trigger] c[i].id) && c[i] == self.notice_for(
            c[i].id,
            TaskCompletion::Cancelled,
        ) by {
            if i < a.len() {
                assert(c[i] == a[i]);
            } else {
                assert(c[i] == b[i - a.len()]);
            }
        }
        assert forall|i: int, j: int| 0 <= i < j < c.len() implies (#[trigger] c[i]).id != (#[trigger] c[j]).id by {
            if j < a.len() {
                assert(c[i] == a[i] && c[j] == a[j]);
            } else if i < a.len() {
                assert(c[i] == a[i] && c[j] == b[j - a.len()]);
                assert(sa.contains(a[i].id) && sb.contains(b[j - a.len()].id));
            } else {
                assert(c[i] == b[i - a.len()] && c[j] == b[j - a.len()]);
            }
        }
        assert forall|x: u64| #[trigger] g.contains(x) implies exists|i: int| 0 <= i < c.len() && (#[trigger] c[i]).id == x by {
            if sa.contains(x) {
                let i = choose|i: int| 0 <= i < a.len() && (#[trigger] a[i]).id == x;
                assert(c[i] == a[i]);
            } else {
                let i = choose|i: int| 0 <= i < b.len() && (#[trigger] b[i]).id == x;
                assert(c[i + a.len()] == b[i]);
            }
        }
    }

    /// A record of cancellations made against one wheel is exact against
    /// another wheel in which the reported tasks have the same channels.
    proof fn lemma_cancel_notices_same_channels(a: Self, b: Self, ns: Seq<Notice>, gone: Set<u64>)
        requires
            a.cancel_notices(ns, gone),
            forall|raw: u64| #[trigger] gone.contains(raw) ==> a.tasks()[raw].kind == b.tasks()[raw].kind,
        ensures
            b.cancel_notices(ns, gone),
    {
        assert forall|i: int| 0 <= i < ns.len() implies gone.contains(#[trigger] ns[i].id) && ns[i] == b.notice_for(
            ns[i].id,
            TaskCompletion::Cancelled,
        ) by {
            assert(gone.contains(ns[i].id));
        }
    }

    /// Two wheels that differ in nothing but their record of reports have the
    /// same tasks, settings and invariant.
    proof fn lemma_frame_notices(a: Self, b: Self)
        requires
            a.l0 == b.l0,
            a.l1 == b.l1,
            a.l1_tick_ratio == b.l1_tick_ratio,
            a.task_index == b.task_index,
            a.batch_config == b.batch_config,
            a.l0_capacity_ms == b.l0_capacity_ms,
            a.l1_capacity_ticks == b.l1_capacity_ticks,
        ensures
            a.tasks() == b.tasks(),
            a.wf() == b.wf(),
            a.shape() == b.shape(),
            a.same_settings(b),
            a.l0_tick() == b.l0_tick(),
            a.l1_tick() == b.l1_tick(),
            a.reserved() == b.reserved(),
            a.index_slots() == b.index_slots(),
    {
        assert(a.layer(0) == b.layer(0));
        assert(a.layer(1) == b.layer(1));
        assert(a.tasks() =~= b.tasks());
        assert(a == Wheel { notices: a.notices, ..b });
    }

    /// The tasks in the wheel, by identifier number.
    pub closed spec fn tasks(self) -> Map<u64, TaskView<C>> {
        let m = index_contents(self.task_index);
        Map::new(
            |raw: u64| m.contains_key(raw),
            |raw: u64| view_of(self.entry(m[raw]), m[raw].level, m[raw].slot_index),
        )
    }

    /// L0 capacity in milliseconds: slots times tick.
    pub open spec fn l0_capacity(self) -> u64 {
        (self.l0_slots() * self.l0_tick_ms()) as u64
    }

    /// The layer, the ticks from the current tick, and the rounds of L1 for a
    /// delay: L0 if the delay is below L0's capacity, else L1 with the full
    /// turns of L1 that the task waits after L1 first reaches its slot (the
    /// slot of `t` ticks ahead is first reached after `t` ticks when `t` is at
    /// most the slot count, so `t` ticks take `(t - 1) / slots` more turns).
    pub open spec fn layer_for(self, delay: Duration) -> (u8, u64, u32) {
        let ms = millis_u64(delay);
        if ms < self.l0_capacity() {
            (0, at_least_one(ms / self.l0_tick_ms()), 0)
        } else {
            let t = at_least_one(ms / self.l1_tick_ms());
            if t < self.l1_slots() {
                (1, t, 0)
            } else {
                (1, t, (((t - 1) as u64) / (self.l1_slots() as u64)) as u32)
            }
        }
    }

    /// The current tick of a layer.
    pub open spec fn tick_of(self, level: u8) -> u64 {
        if level == 0 {
            self.l0_tick()
        } else {
            self.l1_tick()
        }
    }

    /// The slot count of a layer.
    pub open spec fn slots_of(self, level: u8) -> usize {
        if level == 0 {
            self.l0_slots()
        } else {
            self.l1_slots()
        }
    }

    /// A task with the given delay can be placed from the current ticks without
    /// overflowing a tick counter.
    pub open spec fn can_place(self, delay: Duration) -> bool {
        self.can_place_at(delay, self.l0_tick(), self.l1_tick())
    }

    /// The record of a task placed with the given delay when the layers are at
    /// ticks `cur0` and `cur1`.
    pub open spec fn placed_at(
        self,
        delay: Duration,
        cur0: u64,
        cur1: u64,
        kind: TaskTypeWithCompletionNotifier,
        task_delay: Duration,
        callback: Option<C>,
    ) -> TaskView<C> {
        let (level, ticks, rounds) = self.layer_for(delay);
        let cur = if level == 0 {
            cur0
        } else {
            cur1
        };
        let deadline = (cur + ticks) as u64;
        TaskView {
            level,
            slot: slot_of(deadline, self.slots_of(level)),
            deadline_tick: deadline,
            rounds,
            interval: kind.interval_spec(),
            kind,
            delay: task_delay,
            callback,
        }
    }

    /// The record of a task placed now with the given delay.
    pub open spec fn placed(
        self,
        delay: Duration,
        kind: TaskTypeWithCompletionNotifier,
        task_delay: Duration,
        callback: Option<C>,
    ) -> TaskView<C> {
        self.placed_at(delay, self.l0_tick(), self.l1_tick(), kind, task_delay, callback)
    }

    /// A task with the given delay can be placed when the layers are at ticks
    /// `cur0` and `cur1` without overflowing a tick counter.
    pub open spec fn can_place_at(self, delay: Duration, cur0: u64, cur1: u64) -> bool {
        let (level, ticks, _rounds) = self.layer_for(delay);
        let cur = if level == 0 {
            cur0
        } else {
            cur1
        };
        &&& cur + ticks <= u64::MAX
        &&& level == 1 ==> (cur + ticks) * self.ratio() <= u64::MAX
    }

    /// The L0 slot that the next advance reaches.
    pub open spec fn next_l0_slot(self) -> usize {
        slot_of((self.l0_tick() + 1) as u64, self.l0_slots())
    }

    /// The tasks that come due at the next advance: those in the next L0 slot.
    pub open spec fn due_next(self) -> Set<u64> {
        self.tasks().dom().filter(
            |raw: u64| self.tasks()[raw].level == 0 && self.tasks()[raw].slot == self.next_l0_slot(),
        )
    }

    /// The tasks after the L0 part of the next advance: due one-shot tasks
    /// leave, due periodic tasks are placed again by their interval from the
    /// new L0 tick, the others stay.
    pub open spec fn after_l0(self) -> Map<u64, TaskView<C>> {
        let cur0 = (self.l0_tick() + 1) as u64;
        let due = self.due_next();
        Map::new(
            |raw: u64|
                self.tasks().contains_key(raw) && !(due.contains(raw) && self.tasks()[raw].interval is None),
            |raw: u64|
                if due.contains(raw) {
                    let t = self.tasks()[raw];
                    self.placed_at(t.interval.unwrap(), cur0, self.l1_tick(), t.kind, t.delay, t.callback)
                } else {
                    self.tasks()[raw]
                },
        )
    }

    /// L1 turns at the next advance: the new L0 tick is a multiple of the ratio.
    pub open spec fn l1_turns_next(self) -> bool {
        crate::num::is_multiple((self.l0_tick() + 1) as u64, self.ratio())
    }

    /// A task of the L1 slot that the turn reaches: it waits one round less,
    /// or, with no round left, moves to the L0 slot of its deadline in L0 ticks
    /// (at least the tick after `cur0`).
    pub open spec fn turned(self, t: TaskView<C>, cur0: u64) -> TaskView<C> {
        if t.rounds > 0 {
            TaskView { rounds: (t.rounds - 1) as u32, ..t }
        } else {
            let d = t.deadline_tick * self.ratio();
            let target = if d > cur0 {
                d
            } else {
                cur0 + 1
            };
            TaskView { level: 0, slot: slot_of(target as u64, self.l0_slots()), ..t }
        }
    }

    /// The tasks after L1 turns to tick `cur1` while L0 is at `cur0`.
    pub open spec fn after_turn(self, v: Map<u64, TaskView<C>>, cur0: u64, cur1: u64) -> Map<u64, TaskView<C>> {
        let s1 = slot_of(cur1, self.l1_slots());
        Map::new(
            |raw: u64| v.contains_key(raw),
            |raw: u64|
                if v[raw].level == 1 && v[raw].slot == s1 {
                    self.turned(v[raw], cur0)
                } else {
                    v[raw]
                },
        )
    }

    /// The tasks after the next advance, but for the callbacks of due periodic
    /// tasks, which the wheel keeps as clones.
    pub open spec fn after_advance(self) -> Map<u64, TaskView<C>> {
        if self.l1_turns_next() {
            self.after_turn(self.after_l0(), (self.l0_tick() + 1) as u64, (self.l1_tick() + 1) as u64)
        } else {
            self.after_l0()
        }
    }

    /// The next advance overflows no tick counter: the L0 tick can go up by
    /// two, the L1 tick by one, and due periodic tasks can be placed again.
    pub open spec fn can_advance(self) -> bool {
        &&& self.l0_tick() + 2 <= u64::MAX
        &&& self.l1_tick() + 1 <= u64::MAX
        &&& forall|raw: u64|
            #![trigger self.tasks()[raw]]
            self.due_next().contains(raw) && self.tasks()[raw].interval is Some ==> self.can_place_at(
                self.tasks()[raw].interval.unwrap(),
                (self.l0_tick() + 1) as u64,
                self.l1_tick(),
            )
    }

    /// Makes a wheel with two empty layers as the configuration says.
    pub fn new(config: WheelConfig, batch_config: BatchConfig) -> (r: Self)
        requires
            config.is_valid(),
        ensures
            r.wf(),
            r.tasks().is_empty(),
            r.reserved().is_empty(),
            r.l0_tick() == 0,
            r.l1_tick() == 0,
            r.l0_slots() == config.l0_slot_count,
            r.l1_slots() == config.l1_slot_count,
            r.l0_tick_ms() == millis_u64(config.l0_tick_duration),
            r.l1_tick_ms() == millis_u64(config.l1_tick_duration),
            r.ratio() == millis_u64(config.l1_tick_duration) / millis_u64(config.l0_tick_duration),
            r.l0_tick_duration() == config.l0_tick_duration,
            r.batch() == batch_config,
            r.index_slots() == 1,
    {
        proof {
            crate::num::lemma_power_of_two_mask(config.l0_slot_count);
            crate::num::lemma_power_of_two_mask(config.l1_slot_count);
            crate::config::lemma_multiple_millis(config.l0_tick_duration, config.l1_tick_duration);
            assert(millis_u64(config.l0_tick_duration) == millis_of(config.l0_tick_duration));
            assert(millis_u64(config.l1_tick_duration) == millis_of(config.l1_tick_duration));
        }
        let l0 = WheelLayer::new(config.l0_slot_count, config.l0_tick_duration);
        let l1 = WheelLayer::new(config.l1_slot_count, config.l1_tick_duration);
        let l1_tick_ratio = l1.tick_duration_ms / l0.tick_duration_ms;
        proof {
            assert(l1.tick_duration_ms >= l0.tick_duration_ms);
            assert(l1_tick_ratio > 0) by (nonlinear_arith)
                requires
                    l1.tick_duration_ms >= l0.tick_duration_ms,
                    l0.tick_duration_ms > 0,
                    l1_tick_ratio == l1.tick_duration_ms / l0.tick_duration_ms,
            ;
        }
        let l0_capacity_ms = (l0.slot_count as u64) * l0.tick_duration_ms;
        let l1_capacity_ticks = l1.slot_count as u64;
        let quarter = l0.slot_count / 4;
        let estimated_capacity = if quarter < 64 {
            64
        } else {
            quarter
        };
        let task_index = TaskIndex::with_capacity(estimated_capacity);
        let r = Wheel {
            l0,
            l1,
            l1_tick_ratio,
            task_index,
            batch_config,
            l0_capacity_ms,
            l1_capacity_ticks,
            notices: Ghost(Seq::empty()),
        };
        assert(r.tasks() =~= Map::empty());
        r
    }

    /// The current L0 tick.
    pub fn current_tick(&self) -> (r: u64)
        ensures
            r == self.l0_tick(),
    {
        self.l0.current_tick
    }

    /// The duration of an L0 tick.
    pub fn tick_duration(&self) -> (r: Duration)
        ensures
            r == self.l0_tick_duration(),
    {
        self.l0.tick_duration
    }

    /// The number of L0 slots.
    pub fn slot_count(&self) -> (r: usize)
        ensures
            r == self.l0_slots(),
    {
        self.l0.slot_count
    }

    /// L0 ticks in `delay`, at least one.
    pub fn delay_to_ticks(&self, delay: Duration) -> (r: u64)
        requires
            self.wf(),
        ensures
            r == at_least_one(millis_u64(delay) / self.l0_tick_ms()),
    {
        self.l0.delay_to_ticks(delay)
    }

    /// The layer, ticks and rounds for a delay.
    pub fn determine_layer(&self, delay: Duration) -> (r: (u8, u64, u32))
        requires
            self.wf(),
        ensures
            r == self.layer_for(delay),
    {
        self.layer_of(delay)
    }

    /// The layer, ticks and rounds for a delay, on a wheel whose shape holds
    /// while some tasks are out of their slots.
    fn layer_of(&self, delay: Duration) -> (r: (u8, u64, u32))
        requires
            self.shape(),
        ensures
            r == self.layer_for(delay),
    {
        let delay_ms = duration_millis_u64(&delay);
        if delay_ms < self.l0_capacity_ms {
            let t = delay_ms / self.l0.tick_duration_ms;
            let l0_ticks = if t < 1 {
                1
            } else {
                t
            };
            return (0, l0_ticks, 0);
        }
        let t = delay_ms / self.l1.tick_duration_ms;
        let l1_ticks = if t < 1 {
            1
        } else {
            t
        };
        if l1_ticks < self.l1_capacity_ticks {
            (1, l1_ticks, 0)
        } else {
            let rounds = ((l1_ticks - 1) / self.l1_capacity_ticks) as u32;
            (1, l1_ticks, rounds)
        }
    }

    /// Whether the wheel holds no task.
    pub fn is_empty(&self) -> (r: bool)
        ensures
            r == self.tasks().is_empty(),
    {
        let r = self.task_index.is_empty();
        proof {
            let m = index_contents(self.task_index);
            if m.is_empty() {
                assert(self.tasks() =~= Map::empty());
            } else {
                let k = m.dom().choose();
                assert(m.dom().contains(k));
                assert(self.tasks().contains_key(k));
            }
        }
        r
    }
}

impl<C> WheelLayer<C> {
    /// Puts a task in the slot of tick `current_tick + ticks` and returns its
    /// place there.
    fn push_task(
        &mut self,
        level: u8,
        ticks: u64,
        task_id: TaskId,
        task: TimerTaskWithCompletionNotifier<C>,
        rounds: u32,
    ) -> (loc: TaskLocation)
        requires
            old(self).wf(),
            old(self).current_tick + ticks <= u64::MAX,
        ensures
            final(self).wf(),
            final(self).current_tick == old(self).current_tick,
            final(self).slot_count == old(self).slot_count,
            final(self).tick_duration == old(self).tick_duration,
            final(self).tick_duration_ms == old(self).tick_duration_ms,
            loc.level == level,
            loc.slot_index == slot_of((old(self).current_tick + ticks) as u64, old(self).slot_count),
            loc.slot_index < old(self).slot_count,
            loc.vec_index == old(self).slots@[loc.slot_index as int]@.len(),
            final(self).slots@ == old(self).slots@.update(
                loc.slot_index as int,
                final(self).slots@[loc.slot_index as int],
            ),
            final(self).slots@[loc.slot_index as int]@ == old(self).slots@[loc.slot_index as int]@.push(
                TimerTaskForWheel {
                    task_id,
                    task,
                    deadline_tick: (old(self).current_tick + ticks) as u64,
                    rounds,
                },
            ),
    {
        let total_ticks = self.current_tick + ticks;
        let slot_index = (total_ticks as usize) & self.slot_mask;
        proof {
            lemma_slot_of_bound(total_ticks, self.slot_count);
        }
        let task = TimerTaskForWheel::new_with_id(task_id, task, total_ticks, rounds);
        let vec_index = self.slots[slot_index].len();
        let location = TaskLocation::new(level, slot_index, vec_index);
        self.slots[slot_index].push(task);
        location
    }
}

impl<C> Wheel<C> {
    /// The settings of two wheels are the same.
    pub open spec fn same_settings(self, other: Self) -> bool {
        &&& self.l0_tick_ms() == other.l0_tick_ms()
        &&& self.l1_tick_ms() == other.l1_tick_ms()
        &&& self.l0_slots() == other.l0_slots()
        &&& self.l1_slots() == other.l1_slots()
        &&& self.ratio() == other.ratio()
        &&& self.l0_tick_duration() == other.l0_tick_duration()
        &&& self.batch() == other.batch()
        &&& self.owner() == other.owner()
    }

    /// Reserves an identifier for a task to be inserted later.
    pub fn allocate_handle(&mut self) -> (h: TaskHandle)
        requires
            old(self).wf(),
            old(self).index_slots() < u32::MAX,
        ensures
            final(self).notices() == old(self).notices(),
            final(self).wf(),
            final(self).same_settings(*old(self)),
            final(self).l0_tick() == old(self).l0_tick(),
            final(self).l1_tick() == old(self).l1_tick(),
            final(self).tasks() == old(self).tasks(),
            !old(self).tasks().contains_key(crate::task::key_raw(handle_key(h))),
            !old(self).reserved().contains(crate::task::key_raw(handle_key(h))),
            final(self).reserved() == old(self).reserved().insert(crate::task::key_raw(handle_key(h))),
            final(self).handle_is_fresh(h),
            final(self).index_slots() <= old(self).index_slots() + 1,
    {
        let h = self.task_index.allocate_handle();
        proof {
            assert(self.tasks() =~= old(self).tasks());
        }
        h
    }

    /// Reserves `count` identifiers, all distinct, for tasks to be inserted later.
    pub fn allocate_handles(&mut self, count: usize) -> (r: Vec<TaskHandle>)
        requires
            old(self).wf(),
            old(self).index_slots() + count < u32::MAX,
        ensures
            final(self).notices() == old(self).notices(),
            final(self).wf(),
            final(self).same_settings(*old(self)),
            final(self).l0_tick() == old(self).l0_tick(),
            final(self).l1_tick() == old(self).l1_tick(),
            final(self).tasks() == old(self).tasks(),
            r@.len() == count,
            forall|i: int| 0 <= i < count ==> final(self).handle_is_fresh(#[trigger] r@[i]),
            forall|i: int| 0 <= i < count ==> !old(self).reserved().contains(
                crate::task::key_raw(handle_key(#[trigger] r@[i])),
            ),
            forall|i: int, j: int|
                0 <= i < j < count ==> crate::task::key_raw(handle_key(#[trigger] r@[i]))
                    != crate::task::key_raw(handle_key(#[trigger] r@[j])),
            final(self).reserved() == old(self).reserved().union(
                r@.map_values(|h: TaskHandle| crate::task::key_raw(handle_key(h))).to_set(),
            ),
            final(self).index_slots() <= old(self).index_slots() + count,
    {
        let mut handles: Vec<TaskHandle> = Vec::with_capacity(count);
        let mut i: usize = 0;
        while i < count
            invariant
                self.notices() == old(self).notices(),
                i <= count,
                handles@.len() == i,
                self.wf(),
                self.same_settings(*old(self)),
                self.l0_tick() == old(self).l0_tick(),
                self.l1_tick() == old(self).l1_tick(),
                self.tasks() == old(self).tasks(),
                self.index_slots() <= old(self).index_slots() + i,
                old(self).index_slots() + count < u32::MAX,
                forall|k: int| 0 <= k < i ==> self.handle_is_fresh(#[trigger] handles@[k]),
                forall|k: int| 0 <= k < i ==> !old(self).reserved().contains(
                    crate::task::key_raw(handle_key(#[trigger] handles@[k])),
                ),
                forall|k: int, j: int|
                    0 <= k < j < i ==> crate::task::key_raw(handle_key(#[trigger] handles@[k]))
                        != crate::task::key_raw(handle_key(#[trigger] handles@[j])),
                self.reserved() == old(self).reserved().union(
                    handles@.map_values(|h: TaskHandle| crate::task::key_raw(handle_key(h))).to_set(),
                ),
            decreases count - i,
        {
            let ghost before = *self;
            let h = self.allocate_handle();
            proof {
                let f = |h: TaskHandle| crate::task::key_raw(handle_key(h));
                let raw = f(h);
                assert(handles@.push(h).map_values(f) =~= handles@.map_values(f).push(raw));
                assert(handles@.map_values(f).push(raw).to_set() =~= handles@.map_values(f).to_set().insert(raw)) by {
                    handles@.map_values(f).lemma_push_to_set_commute(raw);
                }
                assert forall|k: int| 0 <= k < i implies crate::task::key_raw(handle_key(#[trigger] handles@[k])) != raw by {
                    assert(handles@.map_values(f)[k] == f(handles@[k]));
                    assert(handles@.map_values(f).to_set().contains(f(handles@[k])));
                }
            }
            handles.push(h);
            i = i + 1;
        }
        handles
    }

    /// Inserts a task with a reserved handle. The task goes to L0 if its delay
    /// is below L0's capacity, else to L1, in the slot of its deadline tick.
    pub fn insert(&mut self, handle: TaskHandle, task: TimerTaskWithCompletionNotifier<C>)
        requires
            old(self).wf(),
            old(self).handle_is_fresh(handle),
            old(self).can_place(task.delay_spec()),
        ensures
            final(self).notices() == old(self).notices(),
            final(self).wf(),
            final(self).same_settings(*old(self)),
            final(self).l0_tick() == old(self).l0_tick(),
            final(self).l1_tick() == old(self).l1_tick(),
            final(self).tasks() == old(self).tasks().insert(
                crate::task::key_raw(handle_key(handle)),
                old(self).placed(
                    task.delay_spec(),
                    task.kind_spec(),
                    task.delay_spec(),
                    task.callback_spec(),
                ),
            ),
            final(self).reserved() == old(self).reserved().remove(
                crate::task::key_raw(handle_key(handle)),
            ),
            final(self).index_slots() == old(self).index_slots(),
            crate::laws::insert_step(*old(self), *final(self), handle, task),
    {
        let task_id = handle.task_id();
        let (level, ticks, rounds) = self.determine_layer(task.delay());
        self.insert_at(handle, task_id, task, level, ticks, rounds);
    }

    /// Puts a new task at the place that `(level, ticks, rounds)` gives and
    /// records it in the index under its handle.
    fn insert_at(
        &mut self,
        handle: TaskHandle,
        task_id: TaskId,
        task: TimerTaskWithCompletionNotifier<C>,
        level: u8,
        ticks: u64,
        rounds: u32,
    )
        requires
            old(self).wf(),
            old(self).handle_is_fresh(handle),
            task_id.key() == handle_key(handle),
            (level, ticks, rounds) == old(self).layer_for(task.delay_spec()),
            old(self).can_place(task.delay_spec()),
        ensures
            final(self).notices() == old(self).notices(),
            final(self).wf(),
            final(self).same_settings(*old(self)),
            final(self).l0_tick() == old(self).l0_tick(),
            final(self).l1_tick() == old(self).l1_tick(),
            final(self).tasks() == old(self).tasks().insert(
                task_id.value(),
                old(self).placed(
                    task.delay_spec(),
                    task.kind_spec(),
                    task.delay_spec(),
                    task.callback_spec(),
                ),
            ),
            final(self).reserved() == old(self).reserved().remove(task_id.value()),
            final(self).index_slots() == old(self).index_slots(),
    {
        let ghost old_m = index_contents(self.task_index);
        let ghost raw = task_id.value();
        let ghost view = self.placed(
            task.delay_spec(),
            task.kind_spec(),
            task.delay_spec(),
            task.callback_spec(),
        );
        let location = if level == 0 {
            self.l0.push_task(level, ticks, task_id, task, rounds)
        } else {
            self.l1.push_task(level, ticks, task_id, task, rounds)
        };
        self.task_index.insert(handle, location);
        proof {
            let m = index_contents(self.task_index);
            assert(!old_m.contains_key(raw));
            assert(m == old_m.insert(raw, location));
            assert(self.valid_loc(location));
            assert(self.entry(location).task_id == task_id);
            assert forall|r: u64|
                #![trigger m[r]]
                m.contains_key(r) implies self.valid_loc(m[r]) && self.entry(m[r]).task_id.value()
                == r by {
                if r != raw {
                    assert(old(self).valid_loc(old_m[r]));
                    assert(m[r] == old_m[r]);
                }
            }
            assert(self.layer_indexed(0, Set::empty())) by {
                let slots = self.l0.slots@;
                assert forall|s: int, v: int|
                    0 <= s < slots.len() && 0 <= v < slots[s]@.len() implies pos_indexed(slots, 0, m, Set::<u64>::empty(), index_owner(self.task_index), s, v) by {
                    if level == 0 && s == location.slot_index && v == location.vec_index {
                    } else {
                        assert(slots[s]@[v] == old(self).l0.slots@[s]@[v]);
                        assert(id_at(old(self).l0.slots@, s, v) == id_at(slots, s, v));
                    }
                }
            }
            assert(self.layer_indexed(1, Set::empty())) by {
                let slots = self.l1.slots@;
                assert forall|s: int, v: int|
                    0 <= s < slots.len() && 0 <= v < slots[s]@.len() implies pos_indexed(slots, 1, m, Set::<u64>::empty(), index_owner(self.task_index), s, v) by {
                    if level == 1 && s == location.slot_index && v == location.vec_index {
                    } else {
                        assert(slots[s]@[v] == old(self).l1.slots@[s]@[v]);
                        assert(id_at(old(self).l1.slots@, s, v) == id_at(slots, s, v));
                    }
                }
            }
            assert(self.l1_deadlines_fit()) by {
                let slots = self.l1.slots@;
                assert forall|s: int, v: int|
                    0 <= s < slots.len() && 0 <= v < slots[s]@.len() implies #[trigger] slots[s]@[v].deadline_tick
                    * self.l1_tick_ratio <= u64::MAX by {
                    if level == 1 && s == location.slot_index && v == location.vec_index {
                    } else {
                        assert(slots[s]@[v] == old(self).l1.slots@[s]@[v]);
                    }
                }
            }
            assert(self.tasks() =~= old(self).tasks().insert(raw, view)) by {
                assert forall|r: u64| #[trigger] self.tasks().contains_key(r) implies self.tasks()[r]
                    == old(self).tasks().insert(raw, view)[r] by {
                    if r != raw {
                        assert(old(self).valid_loc(old_m[r]));
                    }
                }
            }
        }
    }
}

impl<C> Wheel<C> {
    /// Like `layer_indexed`, but saying nothing of the position `skip`.
    spec fn layer_indexed_but(self, level: u8, pending: Set<u64>, skip: TaskLocation) -> bool {
        slots_indexed_but(
            self.layer(level).slots@,
            level,
            index_contents(self.task_index),
            pending,
            index_owner(self.task_index),
            skip,
        )
    }

    /// The index and the slots agree except at `loc`, whose task is out of the
    /// index or pending.
    spec fn consistent_but(self, pending: Set<u64>, loc: TaskLocation) -> bool {
        let m = index_contents(self.task_index);
        let x = self.entry(loc).task_id.value();
        &&& pending.subset_of(m.dom())
        &&& !(m.contains_key(x) && !pending.contains(x))
        &&& forall|raw: u64|
            #![trigger m[raw]]
            m.contains_key(raw) && !pending.contains(raw) ==> self.valid_loc(m[raw]) && self.entry(
                m[raw],
            ).task_id.value() == raw
        &&& self.layer_indexed_but(0, pending, loc)
        &&& self.layer_indexed_but(1, pending, loc)
        &&& self.l1_deadlines_fit()
    }

    /// Tasks at two places of the wheel are the same task only at the same place.
    proof fn lemma_distinct_places(self, pending: Set<u64>, a: TaskLocation, b: TaskLocation)
        requires
            self.consistent(pending),
            self.valid_loc(a),
            self.valid_loc(b),
            a != b,
        ensures
            self.entry(a).task_id.value() != self.entry(b).task_id.value(),
    {
        let ia = id_at(self.layer(a.level).slots@, a.slot_index as int, a.vec_index as int);
        let ib = id_at(self.layer(b.level).slots@, b.slot_index as int, b.vec_index as int);
        if a.level == 0 {
            assert(self.layer_indexed(0, pending));
        } else {
            assert(self.layer_indexed(1, pending));
        }
        if b.level == 0 {
            assert(self.layer_indexed(0, pending));
        } else {
            assert(self.layer_indexed(1, pending));
        }
        assert(index_contents(self.task_index)[ia] == a);
        assert(index_contents(self.task_index)[ib] == b);
    }

    /// Taking the task at `loc` out of the index, or marking it pending, leaves
    /// the wheel consistent but for `loc`.
    proof fn lemma_detach_ready(
        before: Self,
        after: Self,
        pending: Set<u64>,
        np: Set<u64>,
        loc: TaskLocation,
    )
        requires
            before.shape(),
            before.consistent(pending),
            before.valid_loc(loc),
            after.l0 == before.l0,
            after.l1 == before.l1,
            after.l1_tick_ratio == before.l1_tick_ratio,
            index_owner(after.task_index) == index_owner(before.task_index),
            ({
                let x = before.entry(loc).task_id.value();
                ||| (index_contents(after.task_index) == index_contents(before.task_index).remove(x)
                    && np == pending)
                ||| (index_contents(after.task_index) == index_contents(before.task_index)
                    && np == pending.insert(x))
            }),
        ensures
            after.consistent_but(np, loc),
    {
        let x = before.entry(loc).task_id.value();
        let mb = index_contents(before.task_index);
        let m = index_contents(after.task_index);
        assert(before.layer(0) == before.l0 && after.layer(0) == after.l0);
        assert(before.layer(1) == before.l1 && after.layer(1) == after.l1);
        assert(after.entry(loc) == before.entry(loc));
        assert(slots_indexed(before.l0.slots@, 0, mb, pending, index_owner(before.task_index)));
        assert(slots_indexed(before.l1.slots@, 1, mb, pending, index_owner(before.task_index)));
        {
            let slots = after.l0.slots@;
            assert forall|s: int, v: int|
                0 <= s < slots.len() && 0 <= v < slots[s]@.len() && !(0 == loc.level && s
                    == loc.slot_index && v == loc.vec_index) implies pos_indexed(slots, 0, m, np, index_owner(after.task_index), s, v) by {
                assert(slots[s].len() == slots[s]@.len());
                let here = TaskLocation { slot_index: s as usize, vec_index: v as usize, level: 0 };
                before.lemma_distinct_places(pending, here, loc);
                let id = id_at(slots, s, v);
                assert(id == id_at(before.layer(0).slots@, s, v));
                assert(mb.contains_key(id) && !pending.contains(id) && mb[id] == here);
                assert(before.entry(here).task_id.value() == id);
                assert(id != x);
                if m == mb.remove(x) {
                    assert(m[id] == mb[id]);
                } else {
                    assert(np == pending.insert(x));
                }
            }
        }
        {
            let slots = after.l1.slots@;
            assert forall|s: int, v: int|
                0 <= s < slots.len() && 0 <= v < slots[s]@.len() && !(1 == loc.level && s
                    == loc.slot_index && v == loc.vec_index) implies pos_indexed(slots, 1, m, np, index_owner(after.task_index), s, v) by {
                assert(slots[s].len() == slots[s]@.len());
                let here = TaskLocation { slot_index: s as usize, vec_index: v as usize, level: 1 };
                before.lemma_distinct_places(pending, here, loc);
                let id = id_at(slots, s, v);
                assert(id == id_at(before.layer(1).slots@, s, v));
                assert(mb.contains_key(id) && !pending.contains(id) && mb[id] == here);
                assert(before.entry(here).task_id.value() == id);
                assert(id != x);
                if m == mb.remove(x) {
                    assert(m[id] == mb[id]);
                } else {
                    assert(np == pending.insert(x));
                }
            }
        }
        assert forall|raw: u64|
            #![trigger m[raw]]
            m.contains_key(raw) && !np.contains(raw) implies after.valid_loc(m[raw]) && after.entry(m[raw]).task_id.value()
            == raw by {
            assert(mb.contains_key(raw));
        }
        assert(slots_indexed_but(after.l0.slots@, 0, m, np, index_owner(after.task_index), loc));
        assert(slots_indexed_but(after.l1.slots@, 1, m, np, index_owner(after.task_index), loc));
        assert(after.layer_indexed_but(0, np, loc));
        assert(after.layer_indexed_but(1, np, loc));
        assert(after.l1_deadlines_fit());
        assert(mb.contains_key(x) && !pending.contains(x)) by {
            if loc.level == 0 {
                assert(id_at(before.l0.slots@, loc.slot_index as int, loc.vec_index as int) == x);
            } else {
                assert(id_at(before.l1.slots@, loc.slot_index as int, loc.vec_index as int) == x);
            }
        }
        if m == mb.remove(x) {
            assert(np.subset_of(m.dom()));
        } else {
            assert(np.subset_of(m.dom()));
        }
    }

    /// Takes out the task at `loc` with `swap_remove` and moves the index entry
    /// of the task that took its place.
    #[verifier::rlimit(100)]
    fn take_task(&mut self, loc: TaskLocation, Ghost(pending): Ghost<Set<u64>>) -> (t: TimerTaskForWheel<C>)
        requires
            old(self).shape(),
            old(self).valid_loc(loc),
            old(self).consistent_but(pending, loc),
        ensures
            final(self).notices() == old(self).notices(),
            t == old(self).entry(loc),
            final(self).shape(),
            final(self).consistent(pending),
            final(self).same_settings(*old(self)),
            final(self).l0.current_tick == old(self).l0.current_tick,
            final(self).l1.current_tick == old(self).l1.current_tick,
            final(self).l1_capacity_ticks == old(self).l1_capacity_ticks,
            final(self).l0_capacity_ms == old(self).l0_capacity_ms,
            index_reserved(final(self).task_index) == index_reserved(old(self).task_index),
            index_slot_count(final(self).task_index) == index_slot_count(old(self).task_index),
            index_contents(final(self).task_index).dom() == index_contents(old(self).task_index).dom(),
            forall|raw: u64|
                #![trigger index_contents(final(self).task_index)[raw]]
                index_contents(old(self).task_index).contains_key(raw) && !pending.contains(raw)
                    ==> final(self).entry(index_contents(final(self).task_index)[raw]) == old(self).entry(
                    index_contents(old(self).task_index)[raw],
                ),
            forall|raw: u64|
                #![trigger index_contents(final(self).task_index)[raw]]
                index_contents(old(self).task_index).contains_key(raw) && !pending.contains(raw)
                    ==> index_contents(final(self).task_index)[raw].level == index_contents(
                    old(self).task_index,
                )[raw].level && index_contents(final(self).task_index)[raw].slot_index
                    == index_contents(old(self).task_index)[raw].slot_index,
            forall|raw: u64|
                #![trigger index_contents(final(self).task_index)[raw]]
                pending.contains(raw) ==> index_contents(final(self).task_index)[raw]
                    == index_contents(old(self).task_index)[raw],
            forall|l: u8, sl: int|
                #![trigger final(self).layer(l).slots@[sl]]
                l <= 1 && 0 <= sl < final(self).layer(l).slots@.len() && !(l == loc.level && sl == loc.slot_index) ==> final(self).layer(l).slots@[sl] == old(
                    self,
                ).layer(l).slots@[sl],
            final(self).layer(loc.level).slots@[loc.slot_index as int]@.len() == old(self).layer(
                loc.level,
            ).slots@[loc.slot_index as int]@.len() - 1,
            final(self).layer(loc.level).slots@[loc.slot_index as int]@ == old(self).layer(
                loc.level,
            ).slots@[loc.slot_index as int]@.update(
                loc.vec_index as int,
                old(self).layer(loc.level).slots@[loc.slot_index as int]@.last(),
            ).drop_last(),
    {
        let ghost old_m = index_contents(self.task_index);
        let ghost old_slot = self.layer(loc.level).slots@[loc.slot_index as int]@;
        let ghost n = old_slot.len();
        let ghost x = old_slot[loc.vec_index as int].task_id.value();
        let ghost y = old_slot[n - 1].task_id.value();
        proof {
            if loc.level == 0 {
                assert(id_at(self.l0.slots@, loc.slot_index as int, n - 1) == y);
            } else {
                assert(id_at(self.l1.slots@, loc.slot_index as int, n - 1) == y);
            }
        }
        let removed = if loc.level == 0 {
            self.l0.slots[loc.slot_index].swap_remove(loc.vec_index)
        } else {
            self.l1.slots[loc.slot_index].swap_remove(loc.vec_index)
        };
        let len = if loc.level == 0 {
            self.l0.slots[loc.slot_index].len()
        } else {
            self.l1.slots[loc.slot_index].len()
        };
        let ghost mid = *self;
        if loc.vec_index < len {
            let swapped_task_id = if loc.level == 0 {
                self.l0.slots[loc.slot_index][loc.vec_index].get_id()
            } else {
                self.l1.slots[loc.slot_index][loc.vec_index].get_id()
            };
            proof {
                assert(swapped_task_id.value() == y);
                assert(old_m.contains_key(y));
                assert(old_m[y] == TaskLocation { slot_index: loc.slot_index, vec_index: (n - 1) as usize, level: loc.level });
            }
            let found = self.task_index.get(swapped_task_id);
            if let Some(mut swapped_location) = found {
                swapped_location.vec_index = loc.vec_index;
                let _ = self.task_index.set(swapped_task_id, swapped_location);
            }
        }
        proof {
            let m = index_contents(self.task_index);
            let new_slot = self.layer(loc.level).slots@[loc.slot_index as int]@;
            assert(x != y || loc.vec_index == n - 1) by {
                if loc.vec_index != n - 1 {
                    assert(old_m.contains_key(y) && !pending.contains(y));
                }
            }
            if loc.vec_index < len {
                assert(m == old_m.insert(y, loc));
            } else {
                assert(m == old_m);
            }
            assert forall|raw: u64|
                #![trigger m[raw]]
                m.contains_key(raw) && !pending.contains(raw) implies self.valid_loc(m[raw])
                && self.entry(m[raw]).task_id.value() == raw by {
                if loc.vec_index < len && raw == y {
                } else {
                    assert(old(self).valid_loc(old_m[raw]));
                    assert(raw != x);
                    let l = old_m[raw];
                    if l.level == loc.level && l.slot_index == loc.slot_index {
                        assert(l.vec_index != loc.vec_index);
                        if l.vec_index == n - 1 {
                            assert(raw == y);
                        }
                    }
                }
            }
            {
                let slots = self.layer(0).slots@;
                let old_slots = old(self).layer(0).slots@;
                assert forall|s: int, v: int|
                    0 <= s < slots.len() && 0 <= v < slots[s]@.len() implies pos_indexed(slots, 0, m, pending, index_owner(self.task_index), s, v) by {
                    if 0 == loc.level && s == loc.slot_index {
                        if v == loc.vec_index {
                            assert(slots[s]@[v] == old_slots[s]@[n - 1]);
                            assert(id_at(old_slots, s, n - 1) == y);
                        } else {
                            assert(slots[s]@[v] == old_slots[s]@[v]);
                            assert(id_at(old_slots, s, v) == id_at(slots, s, v));
                            assert(id_at(old_slots, s, v) != y);
                        }
                    } else {
                        assert(slots[s] == old_slots[s]);
                        assert(id_at(old_slots, s, v) == id_at(slots, s, v));
                        if loc.vec_index < len {
                            assert(id_at(old_slots, s, v) != y);
                        }
                    }
                }
                            assert(slots_indexed(slots, 0, m, pending, index_owner(self.task_index)));
                assert(self.layer(0) == self.l0);
            }
            {
                let slots = self.layer(1).slots@;
                let old_slots = old(self).layer(1).slots@;
                assert forall|s: int, v: int|
                    0 <= s < slots.len() && 0 <= v < slots[s]@.len() implies pos_indexed(slots, 1, m, pending, index_owner(self.task_index), s, v) by {
                    if 1 == loc.level && s == loc.slot_index {
                        if v == loc.vec_index {
                            assert(slots[s]@[v] == old_slots[s]@[n - 1]);
                            assert(id_at(old_slots, s, n - 1) == y);
                        } else {
                            assert(slots[s]@[v] == old_slots[s]@[v]);
                            assert(id_at(old_slots, s, v) == id_at(slots, s, v));
                            assert(id_at(old_slots, s, v) != y);
                        }
                    } else {
                        assert(slots[s] == old_slots[s]);
                        assert(id_at(old_slots, s, v) == id_at(slots, s, v));
                        if loc.vec_index < len {
                            assert(id_at(old_slots, s, v) != y);
                        }
                    }
                    assert(m.contains_key(id_at(slots, s, v)));
                    assert(!pending.contains(id_at(slots, s, v)));
                    assert(m[id_at(slots, s, v)] == TaskLocation { slot_index: s as usize, vec_index: v as usize, level: 1 });
                    assert(key_owner(slots[s]@[v].task_id.key()) == index_owner(self.task_index));
                }
                            assert(slots_indexed(slots, 1, m, pending, index_owner(self.task_index)));
                assert(self.layer(1) == self.l1);
            }
            assert(self.layer_indexed(0, pending));
            assert(self.layer_indexed(1, pending));
            assert(self.layer(loc.level).slots@.len() == old(self).layer(loc.level).slots@.len());
            assert(self.l1_deadlines_fit()) by {
                let slots = self.l1.slots@;
                let old_slots = old(self).l1.slots@;
                assert forall|s: int, v: int|
                    0 <= s < slots.len() && 0 <= v < slots[s]@.len() implies #[trigger] slots[s]@[v].deadline_tick
                    * self.l1_tick_ratio <= u64::MAX by {
                    if loc.level == 1 && s == loc.slot_index {
                        if v == loc.vec_index {
                            assert(slots[s]@[v] == old_slots[s]@[n - 1]);
                        } else {
                            assert(slots[s]@[v] == old_slots[s]@[v]);
                        }
                    } else {
                        assert(slots[s] == old_slots[s]);
                    }
                }
            }
            assert forall|raw: u64|
                #![trigger m[raw]]
                old_m.contains_key(raw) && !pending.contains(raw) implies self.entry(m[raw])
                == old(self).entry(old_m[raw]) by {
                if loc.vec_index < len && raw == y {
                } else {
                    assert(old(self).valid_loc(old_m[raw]));
                    assert(raw != x);
                    let l = old_m[raw];
                    if l.level == loc.level && l.slot_index == loc.slot_index {
                        if l.vec_index == n - 1 {
                            assert(raw == y);
                        }
                    }
                }
            }
        }
        removed
    }

    /// Cancels a task. Returns whether the task was in the wheel; if it was, it
    /// leaves the wheel and its channel reports `Cancelled`.
    #[verifier::spinoff_prover]
    pub fn cancel(&mut self, task_id: TaskId) -> (r: bool)
        requires
            old(self).wf(),
            old(self).owns(task_id),
        ensures
            final(self).wf(),
            final(self).same_settings(*old(self)),
            final(self).l0_tick() == old(self).l0_tick(),
            final(self).l1_tick() == old(self).l1_tick(),
            r == old(self).tasks().contains_key(task_id.value()),
            final(self).tasks() == old(self).tasks().remove(task_id.value()),
            final(self).reserved() == old(self).reserved(),
            final(self).index_slots() == old(self).index_slots(),
            final(self).notices() == if r {
                old(self).notices().push(old(self).notice_for(task_id.value(), TaskCompletion::Cancelled))
            } else {
                old(self).notices()
            },
    {
        let ghost raw = task_id.value();
        let ghost old_m = index_contents(self.task_index);
        let location = match self.task_index.remove(task_id) {
            Some(loc) => loc,
            None => {
                assert(self.tasks() =~= old(self).tasks().remove(raw));
                return false;
            },
        };
        proof {
            assert(old(self).valid_loc(location));
        }
        let slot_len = if location.level == 0 {
            self.l0.slots[location.slot_index].len()
        } else {
            self.l1.slots[location.slot_index].len()
        };
        if location.vec_index >= slot_len {
            return false;
        }
        let found_id = if location.level == 0 {
            self.l0.slots[location.slot_index][location.vec_index].get_id()
        } else {
            self.l1.slots[location.slot_index][location.vec_index].get_id()
        };
        if found_id.raw() != task_id.raw() {
            return false;
        }
        proof {
            let m = index_contents(self.task_index);
            assert(m == old_m.remove(raw));
            assert(self.entry(location).task_id.value() == raw);
            assert forall|lv: u8| lv <= 1 implies #[trigger] self.layer_indexed_but(lv, Set::empty(), location) by {
                assert(old(self).layer_indexed(lv, Set::empty()));
                let slots = self.layer(lv).slots@;
                assert forall|s: int, v: int|
                    0 <= s < slots.len() && 0 <= v < slots[s]@.len() && !(lv == location.level && s
                        == location.slot_index && v == location.vec_index) implies #[trigger] m.contains_key(
                    id_at(slots, s, v),
                ) by {
                    assert(old_m.contains_key(id_at(slots, s, v)));
                    let here = TaskLocation { slot_index: s as usize, vec_index: v as usize, level: lv };
                    old(self).lemma_distinct_places(Set::empty(), here, location);
                }
            }
            assert(self.layer_indexed_but(0, Set::empty(), location));
            assert(self.layer_indexed_but(1, Set::empty(), location));
        }
        let removed = self.take_task(location, Ghost(Set::empty()));
        let note = report(Ghost(raw), removed.into_task_type(), TaskCompletion::Cancelled);
        proof {
            let m = index_contents(self.task_index);
            assert(self.tasks() =~= old(self).tasks().remove(raw)) by {
                assert forall|r: u64| #[trigger] self.tasks().contains_key(r) implies self.tasks()[r]
                    == old(self).tasks().remove(raw)[r] by {
                    assert(old_m.contains_key(r));
                }
            }
            assert(note@ == old(self).notice_for(raw, TaskCompletion::Cancelled));
        }
        let ghost pre = *self;
        self.notices = Ghost(self.notices@.push(note@));
        proof {
            Self::lemma_frame_notices(*self, pre);
        }
        true
    }
}

impl<C> Wheel<C> {
    /// Puts the pending task `t` at the end of slot `slot_index` of layer
    /// `level` and points its index entry there.
    fn relocate(&mut self, level: u8, slot_index: usize, t: TimerTaskForWheel<C>, Ghost(pending): Ghost<Set<u64>>)
        requires
            old(self).shape(),
            old(self).consistent(pending),
            pending.contains(t.task_id.value()),
            key_owner(t.task_id.key()) == index_owner(old(self).task_index),
            level <= 1,
            slot_index < old(self).layer(level).slots@.len(),
            level == 1 ==> t.deadline_tick * old(self).l1_tick_ratio <= u64::MAX,
        ensures
            final(self).notices() == old(self).notices(),
            final(self).shape(),
            final(self).consistent(pending.remove(t.task_id.value())),
            final(self).same_settings(*old(self)),
            final(self).l0.current_tick == old(self).l0.current_tick,
            final(self).l1.current_tick == old(self).l1.current_tick,
            final(self).l1_capacity_ticks == old(self).l1_capacity_ticks,
            final(self).l0_capacity_ms == old(self).l0_capacity_ms,
            index_reserved(final(self).task_index) == index_reserved(old(self).task_index),
            index_slot_count(final(self).task_index) == index_slot_count(old(self).task_index),
            index_contents(final(self).task_index) == index_contents(old(self).task_index).insert(
                t.task_id.value(),
                TaskLocation {
                    slot_index,
                    vec_index: old(self).layer(level).slots@[slot_index as int]@.len() as usize,
                    level,
                },
            ),
            final(self).entry(index_contents(final(self).task_index)[t.task_id.value()]) == t,
            forall|raw: u64|
                #![trigger index_contents(final(self).task_index)[raw]]
                index_contents(old(self).task_index).contains_key(raw) && !pending.contains(raw)
                    ==> final(self).entry(index_contents(final(self).task_index)[raw]) == old(self).entry(
                    index_contents(old(self).task_index)[raw],
                ),
            forall|l: u8, sl: int|
                #![trigger final(self).layer(l).slots@[sl]]
                l <= 1 && 0 <= sl < final(self).layer(l).slots@.len() && !(l == level && sl == slot_index)
                    ==> final(self).layer(l).slots@[sl] == old(self).layer(l).slots@[sl],
            final(self).layer(level).slots@[slot_index as int]@ == old(self).layer(level).slots@[slot_index as int]@.push(t),
            final(self).layer(level).slots@.len() == old(self).layer(level).slots@.len(),
    {
        let ghost old_m = index_contents(self.task_index);
        let ghost raw = t.task_id.value();
        let task_id = t.get_id();
        let vec_index = if level == 0 {
            self.l0.slots[slot_index].len()
        } else {
            self.l1.slots[slot_index].len()
        };
        let new_location = TaskLocation::new(level, slot_index, vec_index);
        if level == 0 {
            self.l0.slots[slot_index].push(t);
        } else {
            self.l1.slots[slot_index].push(t);
        }
        let _ = self.task_index.set(task_id, new_location);
        proof {
            let m = index_contents(self.task_index);
            let np = pending.remove(raw);
            assert(m == old_m.insert(raw, new_location));
            assert(self.valid_loc(new_location));
            assert forall|r: u64|
                #![trigger m[r]]
                m.contains_key(r) && !np.contains(r) implies self.valid_loc(m[r]) && self.entry(m[r]).task_id.value()
                == r by {
                if r != raw {
                    assert(old(self).valid_loc(old_m[r]));
                }
            }
            {
                let slots = self.l0.slots@;
                let old_slots = old(self).l0.slots@;
                assert forall|s: int, v: int|
                    0 <= s < slots.len() && 0 <= v < slots[s]@.len() implies pos_indexed(slots, 0, m, np, index_owner(self.task_index), s, v) by {
                    if level == 0 && s == slot_index && v == vec_index {
                    } else {
                        assert(slots[s]@[v] == old_slots[s]@[v]);
                        assert(id_at(old_slots, s, v) == id_at(slots, s, v));
                    }
                }
                assert(slots_indexed(slots, 0, m, np, index_owner(self.task_index)));
            }
            {
                let slots = self.l1.slots@;
                let old_slots = old(self).l1.slots@;
                assert forall|s: int, v: int|
                    0 <= s < slots.len() && 0 <= v < slots[s]@.len() implies pos_indexed(slots, 1, m, np, index_owner(self.task_index), s, v) by {
                    if level == 1 && s == slot_index && v == vec_index {
                    } else {
                        assert(slots[s]@[v] == old_slots[s]@[v]);
                        assert(id_at(old_slots, s, v) == id_at(slots, s, v));
                    }
                }
                assert(slots_indexed(slots, 1, m, np, index_owner(self.task_index)));
                assert forall|s: int, v: int|
                    0 <= s < slots.len() && 0 <= v < slots[s]@.len() implies #[trigger] slots[s]@[v].deadline_tick
                    * self.l1_tick_ratio <= u64::MAX by {
                    if level == 1 && s == slot_index && v == vec_index {
                    } else {
                        assert(slots[s]@[v] == old_slots[s]@[v]);
                    }
                }
            }
            assert(self.layer(0) == self.l0);
            assert(self.layer(1) == self.l1);
            assert forall|r: u64|
                #![trigger m[r]]
                old_m.contains_key(r) && !pending.contains(r) implies self.entry(m[r]) == old(self).entry(old_m[r]) by {
                assert(old(self).valid_loc(old_m[r]));
            }
        }
    }

    /// Puts a periodic task that just came due back in the wheel, at the place
    /// that its interval gives from the current ticks.
    fn reinsert_periodic_task(&mut self, task_id: TaskId, task: TimerTaskWithCompletionNotifier<C>, Ghost(pending): Ghost<Set<u64>>)
        requires
            old(self).shape(),
            old(self).consistent(pending),
            pending.contains(task_id.value()),
            key_owner(task_id.key()) == index_owner(old(self).task_index),
            task.interval_spec() is Some,
            old(self).can_place(task.interval_spec().unwrap()),
        ensures
            final(self).notices() == old(self).notices(),
            final(self).shape(),
            final(self).consistent(pending.remove(task_id.value())),
            final(self).same_settings(*old(self)),
            final(self).l0.current_tick == old(self).l0.current_tick,
            final(self).l1.current_tick == old(self).l1.current_tick,
            final(self).l1_capacity_ticks == old(self).l1_capacity_ticks,
            final(self).l0_capacity_ms == old(self).l0_capacity_ms,
            index_reserved(final(self).task_index) == index_reserved(old(self).task_index),
            index_slot_count(final(self).task_index) == index_slot_count(old(self).task_index),
            index_contents(final(self).task_index).dom() == index_contents(old(self).task_index).dom(),
            ({
                let loc = index_contents(final(self).task_index)[task_id.value()];
                view_of(final(self).entry(loc), loc.level, loc.slot_index) == old(self).placed(
                    task.interval_spec().unwrap(),
                    task.kind_spec(),
                    task.delay_spec(),
                    task.callback_spec(),
                )
            }),
            forall|raw: u64|
                #![trigger index_contents(final(self).task_index)[raw]]
                index_contents(old(self).task_index).contains_key(raw) && !pending.contains(raw)
                    ==> final(self).entry(index_contents(final(self).task_index)[raw]) == old(self).entry(
                    index_contents(old(self).task_index)[raw],
                ) && index_contents(final(self).task_index)[raw].level == index_contents(old(self).task_index)[raw].level
                && index_contents(final(self).task_index)[raw].slot_index == index_contents(old(self).task_index)[raw].slot_index,
            forall|raw: u64|
                #![trigger index_contents(final(self).task_index)[raw]]
                pending.contains(raw) && raw != task_id.value() ==> index_contents(final(self).task_index)[raw]
                    == index_contents(old(self).task_index)[raw],
    {
        let interval = task.get_interval().unwrap();
        let (level, ticks, rounds) = self.layer_of(interval);
        let (current_tick, slot_mask) = if level == 0 {
            (self.l0.current_tick, self.l0.slot_mask)
        } else {
            (self.l1.current_tick, self.l1.slot_mask)
        };
        let total_ticks = current_tick + ticks;
        let slot_index = (total_ticks as usize) & slot_mask;
        proof {
            lemma_slot_of_bound(total_ticks, self.layer(level).slot_count);
        }
        let t = TimerTaskForWheel::new_with_id(task_id, task, total_ticks, rounds);
        self.relocate(level, slot_index, t, Ghost(pending));
    }
}

/// The L0 tick at which a task demoted from L1 is placed: its deadline in L0
/// ticks, or the tick after `cur0` when that deadline is not ahead.
pub open spec fn demote_target(l0_deadline: int, cur0: u64) -> u64 {
    if l0_deadline > cur0 {
        l0_deadline as u64
    } else {
        (cur0 + 1) as u64
    }
}

impl<C> Wheel<C> {
    /// Places the tasks taken out of L1 (the pending `ids`) in L0, at the slot
    /// of their deadline converted to L0 ticks.
    fn demote_tasks(&mut self, tasks: Vec<TimerTaskForWheel<C>>, Ghost(ids): Ghost<Seq<u64>>)
        requires
            old(self).shape(),
            old(self).consistent(ids.to_set()),
            ids.no_duplicates(),
            ids.len() == tasks@.len(),
            forall|j: int|
                0 <= j < ids.len() ==> (#[trigger] tasks@[j]).task_id.value() == ids[j] && key_owner(
                    tasks@[j].task_id.key(),
                ) == index_owner(old(self).task_index) && tasks@[j].deadline_tick * old(self).l1_tick_ratio
                    <= u64::MAX,
            old(self).l0.current_tick + 1 <= u64::MAX,
        ensures
            final(self).notices() == old(self).notices(),
            final(self).shape(),
            final(self).consistent(Set::empty()),
            final(self).same_settings(*old(self)),
            final(self).l0.current_tick == old(self).l0.current_tick,
            final(self).l1.current_tick == old(self).l1.current_tick,
            final(self).l1_capacity_ticks == old(self).l1_capacity_ticks,
            final(self).l0_capacity_ms == old(self).l0_capacity_ms,
            index_reserved(final(self).task_index) == index_reserved(old(self).task_index),
            index_slot_count(final(self).task_index) == index_slot_count(old(self).task_index),
            index_contents(final(self).task_index).dom() == index_contents(old(self).task_index).dom(),
            forall|raw: u64|
                #![trigger index_contents(final(self).task_index)[raw]]
                index_contents(old(self).task_index).contains_key(raw) && !ids.to_set().contains(raw)
                    ==> final(self).entry(index_contents(final(self).task_index)[raw]) == old(self).entry(
                    index_contents(old(self).task_index)[raw],
                ) && index_contents(final(self).task_index)[raw].level == index_contents(old(self).task_index)[raw].level
                && index_contents(final(self).task_index)[raw].slot_index == index_contents(old(self).task_index)[raw].slot_index,
            forall|j: int|
                #![trigger ids[j]]
                0 <= j < ids.len() ==> {
                    let loc = index_contents(final(self).task_index)[ids[j]];
                    &&& final(self).entry(loc) == tasks@[j]
                    &&& loc.level == 0
                    &&& loc.slot_index == slot_of(
                        demote_target(tasks@[j].deadline_tick * old(self).l1_tick_ratio, old(self).l0.current_tick),
                        old(self).l0.slot_count,
                    )
                },
    {
        let ghost tv = tasks@;
        let ghost n = tv.len();
        let ghost m0 = index_contents(self.task_index);
        proof {
            assert(ids.subrange(0, n as int) =~= ids);
        }
        for task in it: tasks
            invariant
                self.notices() == old(self).notices(),
                tv == it.seq(),
                n == tv.len(),
                ids.len() == n,
                ids.no_duplicates(),
                forall|j: int|
                    0 <= j < ids.len() ==> (#[trigger] tv[j]).task_id.value() == ids[j] && key_owner(
                        tv[j].task_id.key(),
                    ) == index_owner(old(self).task_index) && tv[j].deadline_tick * old(self).l1_tick_ratio
                        <= u64::MAX,
                m0 == index_contents(old(self).task_index),
                old(self).consistent(ids.to_set()),
                old(self).l0.current_tick + 1 <= u64::MAX,
                self.shape(),
                self.same_settings(*old(self)),
                self.l0.current_tick == old(self).l0.current_tick,
                self.l1.current_tick == old(self).l1.current_tick,
                self.l1_capacity_ticks == old(self).l1_capacity_ticks,
                self.l0_capacity_ms == old(self).l0_capacity_ms,
                self.l1_tick_ratio == old(self).l1_tick_ratio,
                self.l0.slot_count == old(self).l0.slot_count,
                index_reserved(self.task_index) == index_reserved(old(self).task_index),
                index_slot_count(self.task_index) == index_slot_count(old(self).task_index),
                index_owner(self.task_index) == index_owner(old(self).task_index),
                index_contents(self.task_index).dom() == m0.dom(),
                self.consistent(ids.subrange(it.index() as int, n as int).to_set()),
                forall|raw: u64|
                    #![trigger index_contents(self.task_index)[raw]]
                    m0.contains_key(raw) && !ids.to_set().contains(raw) ==> self.entry(index_contents(self.task_index)[raw])
                        == old(self).entry(m0[raw]) && index_contents(self.task_index)[raw].level == m0[raw].level
                        && index_contents(self.task_index)[raw].slot_index == m0[raw].slot_index,
                forall|j: int|
                    #![trigger ids[j]]
                    0 <= j < it.index() ==> {
                        let loc = index_contents(self.task_index)[ids[j]];
                        &&& self.entry(loc) == tv[j]
                        &&& loc.level == 0
                        &&& loc.slot_index == slot_of(
                            demote_target(tv[j].deadline_tick * old(self).l1_tick_ratio, old(self).l0.current_tick),
                            old(self).l0.slot_count,
                        )
                    },
        {
            let ghost k = it.index() as int;
            proof {
                assert(task == tv[k]);
                lemma_subrange_step(ids, k, n as int);
                lemma_suffix_members(ids, k, n as int);
                lemma_suffix_members(ids, k + 1, n as int);
            }
            let l1_tick_ratio = self.l1_tick_ratio;
            let l1_deadline = task.deadline_tick;
            let l0_deadline_tick = l1_deadline * l1_tick_ratio;
            let l0_current_tick = self.l0.current_tick;
            let remaining_l0_ticks = if l0_deadline_tick > l0_current_tick {
                l0_deadline_tick - l0_current_tick
            } else {
                1
            };
            let target_l0_tick = l0_current_tick + remaining_l0_ticks;
            let l0_slot_index = (target_l0_tick as usize) & self.l0.slot_mask;
            proof {
                lemma_slot_of_bound(target_l0_tick, self.l0.slot_count);
                assert(target_l0_tick == demote_target(tv[k].deadline_tick * old(self).l1_tick_ratio, old(self).l0.current_tick));
                assert(self.layer(0) == self.l0);
            }
            let ghost before = *self;
            self.relocate(0, l0_slot_index, task, Ghost(ids.subrange(k, n as int).to_set()));
            proof {
                let m = index_contents(self.task_index);
                let mb = index_contents(before.task_index);
                let rest = ids.subrange(k, n as int).to_set();
                assert forall|raw: u64|
                    #![trigger m[raw]]
                    m0.contains_key(raw) && !ids.to_set().contains(raw) implies self.entry(m[raw]) == old(self).entry(m0[raw])
                    && m[raw].level == m0[raw].level && m[raw].slot_index == m0[raw].slot_index by {
                    assert(!rest.contains(raw));
                    assert(mb.contains_key(raw));
                }
                assert forall|j: int|
                    #![trigger ids[j]]
                    0 <= j < k + 1 implies {
                        let loc = m[ids[j]];
                        &&& self.entry(loc) == tv[j]
                        &&& loc.level == 0
                        &&& loc.slot_index == slot_of(
                            demote_target(tv[j].deadline_tick * old(self).l1_tick_ratio, old(self).l0.current_tick),
                            old(self).l0.slot_count,
                        )
                    } by {
                    if j < k {
                        assert(!rest.contains(ids[j]));
                        assert(ids.to_set().contains(ids[j]));
                        assert(mb.contains_key(ids[j]));
                    }
                }
            }
        }
        proof {
            assert(ids.subrange(n as int, n as int).to_set() =~= Set::empty());
        }
    }
}

/// A task of L1 with one round less.
spec fn one_round_less<C>(t: TimerTaskForWheel<C>) -> TimerTaskForWheel<C> {
    TimerTaskForWheel { rounds: (t.rounds - 1) as u32, ..t }
}

impl<C> Wheel<C> {
    /// Changing a field of one L1 entry other than its identifier and its
    /// deadline keeps the wheel consistent.
    proof fn lemma_l1_entry_fields(before: Self, after: Self, pending: Set<u64>, s1: int, i: int)
        requires
            before.consistent(pending),
            after.task_index == before.task_index,
            after.l0 == before.l0,
            after.l1_tick_ratio == before.l1_tick_ratio,
            0 <= s1 < before.l1.slots@.len(),
            0 <= i < before.l1.slots@[s1]@.len(),
            after.l1.slots@.len() == before.l1.slots@.len(),
            forall|s: int|
                0 <= s < before.l1.slots@.len() && s != s1 ==> #[trigger] after.l1.slots@[s] == before.l1.slots@[s],
            after.l1.slots@[s1]@ == before.l1.slots@[s1]@.update(i, after.l1.slots@[s1]@[i]),
            after.l1.slots@[s1]@[i].task_id == before.l1.slots@[s1]@[i].task_id,
            after.l1.slots@[s1]@[i].deadline_tick == before.l1.slots@[s1]@[i].deadline_tick,
        ensures
            after.consistent(pending),
            forall|loc: TaskLocation| #[trigger] after.valid_loc(loc) <==> before.valid_loc(loc),
            forall|loc: TaskLocation|
                #![trigger after.entry(loc)]
                before.valid_loc(loc) && loc != (TaskLocation { slot_index: s1 as usize, vec_index: i as usize, level: 1 })
                    ==> after.entry(loc) == before.entry(loc),
    {
        let m = index_contents(after.task_index);
        let owner = index_owner(after.task_index);
        assert(after.layer(0) == before.layer(0));
        assert forall|loc: TaskLocation| #[trigger] after.valid_loc(loc) <==> before.valid_loc(loc) by {
            if loc.level == 1 && loc.slot_index != s1 && loc.slot_index < before.l1.slots@.len() {
                assert(after.l1.slots@[loc.slot_index as int] == before.l1.slots@[loc.slot_index as int]);
            }
        }
        assert forall|loc: TaskLocation|
            #![trigger after.entry(loc)]
            before.valid_loc(loc) && loc != (TaskLocation { slot_index: s1 as usize, vec_index: i as usize, level: 1 })
                implies after.entry(loc) == before.entry(loc) by {
            if loc.level == 1 && loc.slot_index != s1 {
                assert(after.l1.slots@[loc.slot_index as int] == before.l1.slots@[loc.slot_index as int]);
            }
        }
        assert forall|raw: u64|
            #![trigger m[raw]]
            m.contains_key(raw) && !pending.contains(raw) implies after.valid_loc(m[raw]) && after.entry(m[raw]).task_id.value()
            == raw by {
            let loc = m[raw];
            assert(before.valid_loc(loc));
            if loc.level == 1 && loc.slot_index != s1 {
                assert(after.l1.slots@[loc.slot_index as int] == before.l1.slots@[loc.slot_index as int]);
            }
        }
        {
            let slots = after.l1.slots@;
            let old_slots = before.l1.slots@;
            assert(before.layer_indexed(1, pending));
            assert(slots_indexed(old_slots, 1, m, pending, owner));
            assert forall|s: int, v: int|
                0 <= s < slots.len() && 0 <= v < slots[s]@.len() implies pos_indexed(slots, 1, m, pending, owner, s, v) by {
                if s != s1 {
                    assert(slots[s] == old_slots[s]);
                }
                assert(slots[s]@[v].task_id == old_slots[s]@[v].task_id);
                assert(id_at(slots, s, v) == id_at(old_slots, s, v));
            }
            assert(slots_indexed(slots, 1, m, pending, owner));
            assert forall|s: int, v: int|
                0 <= s < slots.len() && 0 <= v < slots[s]@.len() implies #[trigger] slots[s]@[v].deadline_tick
                * after.l1_tick_ratio <= u64::MAX by {
                if s != s1 {
                    assert(slots[s] == old_slots[s]);
                }
                assert(slots[s]@[v].deadline_tick == old_slots[s]@[v].deadline_tick);
            }
        }
        assert(after.layer(1) == after.l1);
        assert(after.layer_indexed(0, pending));
        assert(after.layer_indexed(1, pending));
    }

    /// Turns L1 by one tick. Each task of the slot it reaches waits one round
    /// less or, with no round left, moves down to L0.
    fn turn_l1(&mut self)
        requires
            old(self).shape(),
            old(self).consistent(Set::empty()),
            old(self).l1.current_tick + 1 <= u64::MAX,
            old(self).l0.current_tick + 1 <= u64::MAX,
        ensures
            final(self).notices() == old(self).notices(),
            final(self).shape(),
            final(self).consistent(Set::empty()),
            final(self).same_settings(*old(self)),
            final(self).l0.current_tick == old(self).l0.current_tick,
            final(self).l1.current_tick == old(self).l1.current_tick + 1,
            final(self).l1_capacity_ticks == old(self).l1_capacity_ticks,
            final(self).l0_capacity_ms == old(self).l0_capacity_ms,
            index_reserved(final(self).task_index) == index_reserved(old(self).task_index),
            index_slot_count(final(self).task_index) == index_slot_count(old(self).task_index),
            final(self).tasks() == old(self).after_turn(
                old(self).tasks(),
                old(self).l0.current_tick,
                (old(self).l1.current_tick + 1) as u64,
            ),
    {
        self.l1.current_tick = self.l1.current_tick + 1;
        let ghost w1 = *self;
        let ghost m1 = index_contents(self.task_index);
        let s1 = (self.l1.current_tick as usize) & self.l1.slot_mask;
        proof {
            lemma_slot_of_bound(self.l1.current_tick, self.l1.slot_count);
            assert(w1.consistent(Set::empty()));
        }
        let mut tasks_to_demote: Vec<TimerTaskForWheel<C>> = Vec::new();
        let ghost mut pend: Set<u64> = Set::empty();
        let ghost mut dids: Seq<u64> = Seq::empty();
        let ghost mut decd: Set<u64> = Set::empty();
        let mut i: usize = 0;
        while i < self.l1.slots[s1].len()
            invariant
                self.notices() == old(self).notices(),
                w1.shape(),
                w1.consistent(Set::empty()),
                m1 == index_contents(w1.task_index),
                s1 < w1.l1.slots@.len(),
                s1 == slot_of(w1.l1.current_tick, w1.l1.slot_count),
                self.shape(),
                self.same_settings(w1),
                self.l0.current_tick == w1.l0.current_tick,
                self.l1.current_tick == w1.l1.current_tick,
                self.l1_capacity_ticks == w1.l1_capacity_ticks,
                self.l0_capacity_ms == w1.l0_capacity_ms,
                self.l1_tick_ratio == w1.l1_tick_ratio,
                index_reserved(self.task_index) == index_reserved(w1.task_index),
                index_slot_count(self.task_index) == index_slot_count(w1.task_index),
                index_owner(self.task_index) == index_owner(w1.task_index),
                index_contents(self.task_index).dom() == m1.dom(),
                self.consistent(pend),
                i <= self.l1.slots@[s1 as int]@.len(),
                forall|raw: u64|
                    #![trigger index_contents(self.task_index)[raw]]
                    m1.contains_key(raw) && !(m1[raw].level == 1 && m1[raw].slot_index == s1) ==> self.entry(
                        index_contents(self.task_index)[raw],
                    ) == w1.entry(m1[raw]) && index_contents(self.task_index)[raw].level == m1[raw].level
                        && index_contents(self.task_index)[raw].slot_index == m1[raw].slot_index,
                forall|raw: u64|
                    #![trigger index_contents(self.task_index)[raw]]
                    m1.contains_key(raw) && m1[raw].level == 1 && m1[raw].slot_index == s1 && !pend.contains(raw)
                        ==> index_contents(self.task_index)[raw].level == 1
                        && index_contents(self.task_index)[raw].slot_index == s1
                        && if decd.contains(raw) {
                            w1.entry(m1[raw]).rounds > 0 && self.entry(index_contents(self.task_index)[raw])
                                == one_round_less(w1.entry(m1[raw]))
                        } else {
                            self.entry(index_contents(self.task_index)[raw]) == w1.entry(m1[raw])
                        },
                forall|raw: u64|
                    #[trigger] pend.contains(raw) ==> m1.contains_key(raw) && m1[raw].level == 1
                        && m1[raw].slot_index == s1 && w1.entry(m1[raw]).rounds == 0,
                forall|raw: u64| #[trigger] decd.contains(raw) ==> !pend.contains(raw),
                forall|v: int|
                    0 <= v < i ==> decd.contains(#[trigger] id_at(self.l1.slots@, s1 as int, v)),
                forall|v: int|
                    i <= v < self.l1.slots@[s1 as int]@.len() ==> !decd.contains(
                        #[trigger] id_at(self.l1.slots@, s1 as int, v),
                    ),
                dids.len() == tasks_to_demote@.len(),
                dids.no_duplicates(),
                dids.to_set() == pend,
                forall|j: int|
                    0 <= j < dids.len() ==> (#[trigger] tasks_to_demote@[j]) == w1.entry(m1[dids[j]])
                        && tasks_to_demote@[j].task_id.value() == dids[j],
            decreases self.l1.slots@[s1 as int]@.len() - i,
        {
            let ghost before = *self;
            let ghost mb = index_contents(self.task_index);
            let x_id = self.l1.slots[s1][i].get_id();
            let ghost x = x_id.value();
            let ghost loc = TaskLocation { slot_index: s1, vec_index: i, level: 1 };
            proof {
                assert(self.layer(1) == self.l1);
                assert(slots_indexed(self.l1.slots@, 1, mb, pend, index_owner(self.task_index)));
                assert(id_at(self.l1.slots@, s1 as int, i as int) == x);
                assert(mb.contains_key(x) && !pend.contains(x) && mb[x] == loc);
                assert(m1.contains_key(x));
                assert(m1[x].level == 1 && m1[x].slot_index == s1);
                assert(!decd.contains(x));
                assert(self.entry(mb[x]) == w1.entry(m1[x]));
            }
            let r = self.l1.slots[s1][i].rounds;
            if r > 0 {
                self.l1.slots[s1][i].rounds = r - 1;
                proof {
                    Self::lemma_l1_entry_fields(before, *self, pend, s1 as int, i as int);
                    let m = index_contents(self.task_index);
                    assert(self.entry(loc) == one_round_less(w1.entry(m1[x])));
                    assert forall|raw: u64|
                        #![trigger m[raw]]
                        m1.contains_key(raw) && !pend.contains(raw) && raw != x implies self.entry(m[raw]) == before.entry(m[raw]) by {
                        assert(before.valid_loc(m[raw]));
                        assert(before.entry(m[raw]).task_id.value() == raw);
                    }
                    decd = decd.insert(x);
                    assert forall|v: int|
                        0 <= v < i + 1 implies decd.contains(#[trigger] id_at(self.l1.slots@, s1 as int, v)) by {
                        assert(id_at(self.l1.slots@, s1 as int, v) == id_at(before.l1.slots@, s1 as int, v));
                    }
                    assert forall|v: int|
                        i + 1 <= v < self.l1.slots@[s1 as int]@.len() implies !decd.contains(
                            #[trigger] id_at(self.l1.slots@, s1 as int, v),
                        ) by {
                        assert(id_at(self.l1.slots@, s1 as int, v) == id_at(before.l1.slots@, s1 as int, v));
                        let here = TaskLocation { slot_index: s1, vec_index: v as usize, level: 1 };
                        before.lemma_distinct_places(pend, here, loc);
                    }
                }
                i = i + 1;
            } else {
                let tloc = TaskLocation::new(1, s1, i);
                let ghost np = pend.insert(x);
                proof {
                    Self::lemma_detach_ready(before, *self, pend, np, tloc);
                }
                let task_to_demote = self.take_task(tloc, Ghost(np));
                tasks_to_demote.push(task_to_demote);
                proof {
                    let old_d = dids;
                    old_d.lemma_push_to_set_commute(x);
                    dids = old_d.push(x);
                    pend = np;
                    assert(self.layer(1) == self.l1);
                    assert(before.layer(1) == before.l1);
                    let sl = self.l1.slots@[s1 as int]@;
                    let bl = before.l1.slots@[s1 as int]@;
                    assert(sl == bl.update(i as int, bl.last()).drop_last());
                    assert forall|v: int|
                        0 <= v < i implies decd.contains(#[trigger] id_at(self.l1.slots@, s1 as int, v)) by {
                        assert(sl[v] == bl[v]);
                        assert(id_at(self.l1.slots@, s1 as int, v) == id_at(before.l1.slots@, s1 as int, v));
                    }
                    assert forall|v: int|
                        i <= v < sl.len() implies !decd.contains(#[trigger] id_at(self.l1.slots@, s1 as int, v)) by {
                        if v == i {
                            assert(sl[v] == bl[bl.len() - 1]);
                            assert(id_at(self.l1.slots@, s1 as int, v) == id_at(before.l1.slots@, s1 as int, bl.len() - 1));
                        } else {
                            assert(sl[v] == bl[v]);
                            assert(id_at(self.l1.slots@, s1 as int, v) == id_at(before.l1.slots@, s1 as int, v));
                        }
                    }
                }
            }
        }
        let ghost wd = *self;
        let ghost md = index_contents(self.task_index);
        proof {
            assert forall|raw: u64|
                m1.contains_key(raw) && m1[raw].level == 1 && m1[raw].slot_index == s1 && !pend.contains(raw)
                    implies #[trigger] decd.contains(raw) by {
                assert(self.valid_loc(md[raw]));
                assert(self.layer(1) == self.l1);
                assert(id_at(self.l1.slots@, s1 as int, md[raw].vec_index as int) == raw);
            }
            assert forall|j: int|
                0 <= j < dids.len() implies (#[trigger] tasks_to_demote@[j]).task_id.value() == dids[j]
                    && key_owner(tasks_to_demote@[j].task_id.key()) == index_owner(self.task_index)
                    && tasks_to_demote@[j].deadline_tick * self.l1_tick_ratio <= u64::MAX by {
                assert(dids.to_set().contains(dids[j]));
                let l = m1[dids[j]];
                assert(w1.valid_loc(l));
                assert(w1.layer(1) == w1.l1);
                assert(slots_indexed(w1.l1.slots@, 1, m1, Set::empty(), index_owner(w1.task_index)));
                assert(id_at(w1.l1.slots@, l.slot_index as int, l.vec_index as int) == dids[j]);
            }
        }
        self.demote_tasks(tasks_to_demote, Ghost(dids));
        proof {
            let m = index_contents(self.task_index);
            let v1 = old(self).tasks();
            let target = old(self).after_turn(v1, old(self).l0.current_tick, (old(self).l1.current_tick + 1) as u64);
            assert(s1 == slot_of((old(self).l1.current_tick + 1) as u64, old(self).l1_slots()));
            assert forall|raw: u64| #[trigger] self.tasks().contains_key(raw) <==> target.contains_key(raw) by {}
            assert forall|raw: u64| #[trigger] self.tasks().contains_key(raw) implies self.tasks()[raw] == target[raw] by {
                assert(m1.contains_key(raw));
                assert(v1[raw] == view_of(w1.entry(m1[raw]), m1[raw].level, m1[raw].slot_index));
                if pend.contains(raw) {
                    let j = choose|j: int| 0 <= j < dids.len() && dids[j] == raw;
                    assert(dids[j] == raw);
                } else if m1[raw].level == 1 && m1[raw].slot_index == s1 {
                    assert(decd.contains(raw));
                    assert(md.contains_key(raw));
                } else {
                    assert(md.contains_key(raw));
                }
            }
            assert(self.tasks() =~= target);
        }
    }
}

/// The callback after a postponement: the new one if given, else the old one.
pub open spec fn replaced_callback<C>(old_callback: Option<C>, new_callback: Option<C>) -> Option<C> {
    if new_callback is Some {
        new_callback
    } else {
        old_callback
    }
}

impl<C> Wheel<C> {
    /// The record of task `raw` after it is postponed to `new_delay`: placed
    /// again from the current ticks, with the new delay and, if given, the new
    /// callback.
    pub open spec fn postponed(self, raw: u64, new_delay: Duration, new_callback: Option<C>) -> TaskView<C> {
        let t = self.tasks()[raw];
        self.placed(new_delay, t.kind, new_delay, replaced_callback(t.callback, new_callback))
    }

    /// Postpones a task, keeping its identifier: it is taken out of its slot and
    /// placed again as if inserted now with `new_delay`, which becomes its
    /// delay; `new_callback`, if given, replaces its callback. Its channel
    /// reports nothing. Returns whether the task was in the wheel.
    pub fn postpone(&mut self, task_id: TaskId, new_delay: Duration, new_callback: Option<C>) -> (r: bool)
        requires
            old(self).wf(),
            old(self).owns(task_id),
            old(self).tasks().contains_key(task_id.value()) ==> old(self).can_place(new_delay),
        ensures
            final(self).notices() == old(self).notices(),
            final(self).wf(),
            final(self).same_settings(*old(self)),
            final(self).l0_tick() == old(self).l0_tick(),
            final(self).l1_tick() == old(self).l1_tick(),
            final(self).reserved() == old(self).reserved(),
            final(self).index_slots() == old(self).index_slots(),
            r == old(self).tasks().contains_key(task_id.value()),
            new_callback is None ==> crate::laws::postpone_step(*old(self), *final(self), task_id, new_delay),
            final(self).tasks() == if r {
                old(self).tasks().insert(
                    task_id.value(),
                    old(self).postponed(task_id.value(), new_delay, new_callback),
                )
            } else {
                old(self).tasks()
            },
    {
        let ghost raw = task_id.value();
        let ghost old_m = index_contents(self.task_index);
        let old_location = match self.task_index.get(task_id) {
            Some(loc) => loc,
            None => {
                return false;
            },
        };
        proof {
            assert(old(self).valid_loc(old_location));
        }
        let slot_len = if old_location.level == 0 {
            self.l0.slots[old_location.slot_index].len()
        } else {
            self.l1.slots[old_location.slot_index].len()
        };
        if old_location.vec_index >= slot_len {
            return false;
        }
        let found_id = if old_location.level == 0 {
            self.l0.slots[old_location.slot_index][old_location.vec_index].get_id()
        } else {
            self.l1.slots[old_location.slot_index][old_location.vec_index].get_id()
        };
        if found_id.raw() != task_id.raw() {
            return false;
        }
        let ghost pend = Set::<u64>::empty().insert(raw);
        proof {
            assert(self.entry(old_location).task_id.value() == raw);
            assert(self.layer_indexed(old_location.level, Set::empty()));
            assert(id_at(self.layer(old_location.level).slots@, old_location.slot_index as int, old_location.vec_index as int) == raw);
            assert(key_owner(self.entry(old_location).task_id.key()) == index_owner(self.task_index));
            Self::lemma_detach_ready(*self, *self, Set::empty(), pend, old_location);
        }
        let mut t = self.take_task(old_location, Ghost(pend));
        let ghost before = *self;
        t.update_delay(new_delay);
        match new_callback {
            Some(callback) => {
                t.update_callback(callback);
            },
            None => {},
        }
        let (new_level, ticks, new_rounds) = self.layer_of(new_delay);
        let (current_tick, slot_mask) = if new_level == 0 {
            (self.l0.current_tick, self.l0.slot_mask)
        } else {
            (self.l1.current_tick, self.l1.slot_mask)
        };
        let total_ticks = current_tick + ticks;
        let new_slot_index = (total_ticks as usize) & slot_mask;
        proof {
            lemma_slot_of_bound(total_ticks, self.layer(new_level).slot_count);
        }
        t.deadline_tick = total_ticks;
        t.rounds = new_rounds;
        self.relocate(new_level, new_slot_index, t, Ghost(pend));
        proof {
            let m = index_contents(self.task_index);
            let target = old(self).tasks().insert(raw, old(self).postponed(raw, new_delay, new_callback));
            assert(pend.remove(raw) =~= Set::empty());
            assert forall|r: u64| #[trigger] self.tasks().contains_key(r) implies self.tasks()[r] == target[r] by {
                if r != raw {
                    assert(!pend.contains(r));
                    assert(old_m.contains_key(r));
                }
            }
            assert(self.tasks() =~= target);
        }
        true
    }

    /// Postpones each listed task to its new delay, keeping its callback, in
    /// the order given; returns how many were in the wheel.
    pub fn postpone_batch(&mut self, updates: Vec<(TaskId, Duration)>) -> (r: usize)
        requires
            old(self).wf(),
            forall|i: int| 0 <= i < updates@.len() ==> old(self).owns((#[trigger] updates@[i]).0),
            forall|i: int|
                0 <= i < updates@.len() && old(self).tasks().contains_key((#[trigger] updates@[i]).0.value())
                    ==> old(self).can_place(updates@[i].1),
        ensures
            final(self).notices() == old(self).notices(),
            final(self).wf(),
            final(self).same_settings(*old(self)),
            final(self).l0_tick() == old(self).l0_tick(),
            final(self).l1_tick() == old(self).l1_tick(),
            final(self).reserved() == old(self).reserved(),
            final(self).index_slots() == old(self).index_slots(),
            final(self).tasks().dom() == old(self).tasks().dom(),
            r == old(self).postponed_count(updates@.map_values(|u: (TaskId, Duration)| u.0)),
            forall|raw: u64|
                #![trigger final(self).tasks()[raw]]
                final(self).tasks().contains_key(raw) ==> final(self).tasks()[raw].callback == old(self).tasks()[raw].callback
                    && final(self).tasks()[raw].interval == old(self).tasks()[raw].interval
                    && final(self).tasks()[raw].kind == old(self).tasks()[raw].kind,
            forall|raw: u64|
                #![trigger final(self).tasks()[raw]]
                final(self).tasks().contains_key(raw) && (forall|i: int|
                    0 <= i < updates@.len() ==> (#[trigger] updates@[i]).0.value() != raw) ==> final(self).tasks()[raw]
                    == old(self).tasks()[raw],
            forall|i: int|
                #![trigger updates@[i]]
                0 <= i < updates@.len() && old(self).tasks().contains_key(updates@[i].0.value()) && (forall|j: int|
                    i < j < updates@.len() ==> (#[trigger] updates@[j]).0.value() != updates@[i].0.value())
                    ==> final(self).tasks()[updates@[i].0.value()] == old(self).postponed(
                    updates@[i].0.value(),
                    updates@[i].1,
                    None,
                ),
    {
        let ghost uv = updates@;
        let ghost ids = uv.map_values(|u: (TaskId, Duration)| u.0);
        let mut postponed_count: usize = 0;
        proof {
            assert(updates@.len() == updates.len());
        }
        for item in it: updates
            invariant
                self.notices() == old(self).notices(),
                uv == it.seq(),
                uv.len() <= usize::MAX,
                ids == uv.map_values(|u: (TaskId, Duration)| u.0),
                old(self).wf(),
                forall|i: int| 0 <= i < uv.len() ==> old(self).owns((#[trigger] uv[i]).0),
                forall|i: int|
                    0 <= i < uv.len() && old(self).tasks().contains_key((#[trigger] uv[i]).0.value())
                        ==> old(self).can_place(uv[i].1),
                self.wf(),
                self.same_settings(*old(self)),
                self.l0_tick() == old(self).l0_tick(),
                self.l1_tick() == old(self).l1_tick(),
                self.reserved() == old(self).reserved(),
                self.index_slots() == old(self).index_slots(),
                self.tasks().dom() == old(self).tasks().dom(),
                postponed_count == old(self).postponed_count(ids.take(it.index() as int)),
                postponed_count <= it.index(),
                forall|raw: u64|
                    #![trigger self.tasks()[raw]]
                    self.tasks().contains_key(raw) ==> self.tasks()[raw].callback == old(self).tasks()[raw].callback
                        && self.tasks()[raw].interval == old(self).tasks()[raw].interval
                        && self.tasks()[raw].kind == old(self).tasks()[raw].kind,
                forall|raw: u64|
                    #![trigger self.tasks()[raw]]
                    self.tasks().contains_key(raw) && (forall|i: int|
                        0 <= i < it.index() ==> (#[trigger] uv[i]).0.value() != raw) ==> self.tasks()[raw]
                        == old(self).tasks()[raw],
                forall|i: int|
                    #![trigger uv[i]]
                    0 <= i < it.index() && old(self).tasks().contains_key(uv[i].0.value()) && (forall|j: int|
                        i < j < it.index() ==> (#[trigger] uv[j]).0.value() != uv[i].0.value())
                        ==> self.tasks()[uv[i].0.value()] == old(self).postponed(
                        uv[i].0.value(),
                        uv[i].1,
                        None,
                    ),
        {
            let ghost k = it.index() as int;
            let ghost before = *self;
            let (task_id, new_delay) = item;
            proof {
                assert(item == uv[k]);
                assert(self.can_place(new_delay) == old(self).can_place(new_delay));
            }
            let done = self.postpone(task_id, new_delay, None);
            proof {
                assert(ids.take(k + 1) =~= ids.take(k).push(task_id));
                assert(ids.take(k + 1).drop_last() =~= ids.take(k));
                assert(done == old(self).tasks().contains_key(task_id.value()));
                let raw = task_id.value();
                if done {
                    assert(before.postponed(raw, new_delay, None) == old(self).postponed(raw, new_delay, None)) by {
                        assert(before.tasks()[raw].callback == old(self).tasks()[raw].callback);
                        assert(before.tasks()[raw].interval == old(self).tasks()[raw].interval);
                        assert(before.tasks()[raw].kind == old(self).tasks()[raw].kind);
                    }
                }
                assert forall|i: int|
                    #![trigger uv[i]]
                    0 <= i < k + 1 && old(self).tasks().contains_key(uv[i].0.value()) && (forall|j: int|
                        i < j < k + 1 ==> (#[trigger] uv[j]).0.value() != uv[i].0.value())
                        implies self.tasks()[uv[i].0.value()] == old(self).postponed(
                        uv[i].0.value(),
                        uv[i].1,
                        None,
                    ) by {
                    if i < k {
                        assert(uv[k].0.value() != uv[i].0.value());
                    }
                }
            }
            if done {
                postponed_count = postponed_count + 1;
            }
        }
        proof {
            assert(ids.take(uv.len() as int) =~= ids);
        }
        postponed_count
    }

    /// How many of the identifiers `ids` name tasks of this wheel, counting
    /// each occurrence.
    pub open spec fn postponed_count(self, ids: Seq<TaskId>) -> nat
        decreases ids.len(),
    {
        if ids.len() == 0 {
            0
        } else {
            self.postponed_count(ids.drop_last()) + if self.tasks().contains_key(ids.last().value()) {
                1nat
            } else {
                0nat
            }
        }
    }
}

impl<C> Wheel<C> {
    /// Postpones each listed task to its new delay, replacing its callback by
    /// the given one if any, in the order given; returns how many were in the
    /// wheel.
    pub fn postpone_batch_with_callbacks(&mut self, updates: Vec<(TaskId, Duration, Option<C>)>) -> (r: usize)
        requires
            old(self).wf(),
            forall|i: int| 0 <= i < updates@.len() ==> old(self).owns((#[trigger] updates@[i]).0),
            forall|i: int|
                0 <= i < updates@.len() && old(self).tasks().contains_key((#[trigger] updates@[i]).0.value())
                    ==> old(self).can_place(updates@[i].1),
        ensures
            final(self).notices() == old(self).notices(),
            final(self).wf(),
            final(self).same_settings(*old(self)),
            final(self).l0_tick() == old(self).l0_tick(),
            final(self).l1_tick() == old(self).l1_tick(),
            final(self).reserved() == old(self).reserved(),
            final(self).index_slots() == old(self).index_slots(),
            final(self).tasks().dom() == old(self).tasks().dom(),
            r == old(self).postponed_count(updates@.map_values(|u: (TaskId, Duration, Option<C>)| u.0)),
            forall|raw: u64|
                #![trigger final(self).tasks()[raw]]
                final(self).tasks().contains_key(raw) ==> final(self).tasks()[raw].interval == old(self).tasks()[raw].interval
                    && final(self).tasks()[raw].kind == old(self).tasks()[raw].kind,
            forall|raw: u64|
                #![trigger final(self).tasks()[raw]]
                final(self).tasks().contains_key(raw) && (forall|i: int|
                    0 <= i < updates@.len() ==> (#[trigger] updates@[i]).0.value() != raw) ==> final(self).tasks()[raw]
                    == old(self).tasks()[raw],
            forall|i: int|
                #![trigger updates@[i]]
                0 <= i < updates@.len() && old(self).tasks().contains_key(updates@[i].0.value()) && (forall|j: int|
                    0 <= j < updates@.len() && j != i ==> (#[trigger] updates@[j]).0.value() != updates@[i].0.value())
                    ==> final(self).tasks()[updates@[i].0.value()] == old(self).postponed(
                    updates@[i].0.value(),
                    updates@[i].1,
                    updates@[i].2,
                ),
    {
        let ghost uv = updates@;
        let ghost ids = uv.map_values(|u: (TaskId, Duration, Option<C>)| u.0);
        let mut postponed_count: usize = 0;
        proof {
            assert(updates@.len() == updates.len());
        }
        for item in it: updates
            invariant
                self.notices() == old(self).notices(),
                uv == it.seq(),
                uv.len() <= usize::MAX,
                ids == uv.map_values(|u: (TaskId, Duration, Option<C>)| u.0),
                old(self).wf(),
                forall|i: int| 0 <= i < uv.len() ==> old(self).owns((#[trigger] uv[i]).0),
                forall|i: int|
                    0 <= i < uv.len() && old(self).tasks().contains_key((#[trigger] uv[i]).0.value())
                        ==> old(self).can_place(uv[i].1),
                self.wf(),
                self.same_settings(*old(self)),
                self.l0_tick() == old(self).l0_tick(),
                self.l1_tick() == old(self).l1_tick(),
                self.reserved() == old(self).reserved(),
                self.index_slots() == old(self).index_slots(),
                self.tasks().dom() == old(self).tasks().dom(),
                postponed_count == old(self).postponed_count(ids.take(it.index() as int)),
                postponed_count <= it.index(),
                forall|raw: u64|
                    #![trigger self.tasks()[raw]]
                    self.tasks().contains_key(raw) ==> self.tasks()[raw].interval == old(self).tasks()[raw].interval
                        && self.tasks()[raw].kind == old(self).tasks()[raw].kind,
                forall|raw: u64|
                    #![trigger self.tasks()[raw]]
                    self.tasks().contains_key(raw) && (forall|i: int|
                        0 <= i < it.index() ==> (#[trigger] uv[i]).0.value() != raw) ==> self.tasks()[raw]
                        == old(self).tasks()[raw],
                forall|i: int|
                    #![trigger uv[i]]
                    0 <= i < it.index() && old(self).tasks().contains_key(uv[i].0.value()) && (forall|j: int|
                        0 <= j < uv.len() && j != i ==> (#[trigger] uv[j]).0.value() != uv[i].0.value())
                        ==> self.tasks()[uv[i].0.value()] == old(self).postponed(
                        uv[i].0.value(),
                        uv[i].1,
                        uv[i].2,
                    ),
        {
            let ghost k = it.index() as int;
            let ghost before = *self;
            let (task_id, new_delay, new_callback) = item;
            proof {
                assert(item == uv[k]);
                assert(self.can_place(new_delay) == old(self).can_place(new_delay));
            }
            let done = self.postpone(task_id, new_delay, new_callback);
            proof {
                assert(ids.take(k + 1) =~= ids.take(k).push(task_id));
                assert(ids.take(k + 1).drop_last() =~= ids.take(k));
                let raw = task_id.value();
                if done && (forall|j: int| 0 <= j < uv.len() && j != k ==> (#[trigger] uv[j]).0.value() != raw) {
                    assert(before.tasks()[raw] == old(self).tasks()[raw]);
                    assert(before.postponed(raw, new_delay, new_callback) == old(self).postponed(raw, new_delay, new_callback));
                }
                assert forall|i: int|
                    #![trigger uv[i]]
                    0 <= i < k + 1 && old(self).tasks().contains_key(uv[i].0.value()) && (forall|j: int|
                        0 <= j < uv.len() && j != i ==> (#[trigger] uv[j]).0.value() != uv[i].0.value())
                        implies self.tasks()[uv[i].0.value()] == old(self).postponed(
                        uv[i].0.value(),
                        uv[i].1,
                        uv[i].2,
                    ) by {
                    if i < k {
                        assert(uv[k].0.value() != uv[i].0.value());
                    }
                }
            }
            if done {
                postponed_count = postponed_count + 1;
            }
        }
        proof {
            assert(ids.take(uv.len() as int) =~= ids);
        }
        postponed_count
    }
}

impl<C> Wheel<C> {
    /// The tasks after inserting `tasks` with `handles`, pair by pair in order.
    pub open spec fn batch_inserted(
        self,
        handles: Seq<TaskHandle>,
        tasks: Seq<TimerTaskWithCompletionNotifier<C>>,
    ) -> Map<u64, TaskView<C>>
        decreases handles.len(),
    {
        if handles.len() == 0 || tasks.len() == 0 {
            self.tasks()
        } else {
            let t = tasks.last();
            self.batch_inserted(handles.drop_last(), tasks.drop_last()).insert(
                crate::task::key_raw(handle_key(handles.last())),
                self.placed(t.delay_spec(), t.kind_spec(), t.delay_spec(), t.callback_spec()),
            )
        }
    }

    /// The identifier numbers that `handles` reserve.
    pub open spec fn handle_keys(handles: Seq<TaskHandle>) -> Set<u64> {
        handles.map_values(|h: TaskHandle| crate::task::key_raw(handle_key(h))).to_set()
    }

    /// Inserts the tasks with their reserved handles, pair by pair in order.
    /// Fails with `BatchLengthMismatch`, inserting nothing, when there are not
    /// as many handles as tasks.
    pub fn insert_batch(&mut self, handles: Vec<TaskHandle>, tasks: Vec<TimerTaskWithCompletionNotifier<C>>) -> (r: Result<(), TimerError>)
        requires
            old(self).wf(),
            handles@.len() == tasks@.len() ==> {
                &&& forall|i: int| 0 <= i < handles@.len() ==> old(self).handle_is_fresh(#[trigger] handles@[i])
                &&& forall|i: int, j: int|
                    0 <= i < j < handles@.len() ==> crate::task::key_raw(handle_key(#[trigger] handles@[i]))
                        != crate::task::key_raw(handle_key(#[trigger] handles@[j]))
                &&& forall|i: int| 0 <= i < tasks@.len() ==> old(self).can_place((#[trigger] tasks@[i]).delay_spec())
            },
        ensures
            final(self).notices() == old(self).notices(),
            final(self).wf(),
            final(self).same_settings(*old(self)),
            final(self).l0_tick() == old(self).l0_tick(),
            final(self).l1_tick() == old(self).l1_tick(),
            final(self).index_slots() == old(self).index_slots(),
            r is Err <==> handles@.len() != tasks@.len(),
            r is Err ==> r == Err::<(), TimerError>(
                TimerError::BatchLengthMismatch { handles_len: handles@.len() as usize, tasks_len: tasks@.len() as usize },
            ) && final(self).tasks() == old(self).tasks() && final(self).reserved() == old(self).reserved(),
            r is Ok ==> final(self).tasks() == old(self).batch_inserted(handles@, tasks@) && final(self).reserved()
                == old(self).reserved().difference(Self::handle_keys(handles@)),
    {
        if handles.len() != tasks.len() {
            return Err(TimerError::BatchLengthMismatch { handles_len: handles.len(), tasks_len: tasks.len() });
        }
        let ghost hv = handles@;
        let ghost tv = tasks@;
        let ghost f = |h: TaskHandle| crate::task::key_raw(handle_key(h));
        let mut tasks = tasks;
        let mut queue: Vec<TimerTaskWithCompletionNotifier<C>> = Vec::with_capacity(tasks.len());
        while tasks.len() > 0
            invariant
                self.notices() == old(self).notices(),
                tasks@ == tv.take(tasks@.len() as int),
                tasks@.len() + queue@.len() == tv.len(),
                forall|j: int| 0 <= j < queue@.len() ==> #[trigger] queue@[j] == tv[tv.len() - 1 - j],
            decreases tasks@.len(),
        {
            let t = tasks.pop().unwrap();
            queue.push(t);
            proof {
                assert(tasks@ =~= tv.take(tasks@.len() as int));
            }
        }
        proof {
            assert(hv.take(0).map_values(f).to_set() =~= Set::empty());
            assert(old(self).batch_inserted(hv.take(0), tv.take(0)) == old(self).tasks());
        }
        for handle in it: handles
            invariant
                self.notices() == old(self).notices(),
                hv == it.seq(),
                hv.len() == tv.len(),
                f == (|h: TaskHandle| crate::task::key_raw(handle_key(h))),
                queue@.len() == tv.len() - it.index(),
                forall|j: int| 0 <= j < queue@.len() ==> #[trigger] queue@[j] == tv[tv.len() - 1 - j],
                old(self).wf(),
                forall|i: int| 0 <= i < hv.len() ==> old(self).handle_is_fresh(#[trigger] hv[i]),
                forall|i: int, j: int|
                    0 <= i < j < hv.len() ==> crate::task::key_raw(handle_key(#[trigger] hv[i]))
                        != crate::task::key_raw(handle_key(#[trigger] hv[j])),
                forall|i: int| 0 <= i < tv.len() ==> old(self).can_place((#[trigger] tv[i]).delay_spec()),
                self.wf(),
                self.same_settings(*old(self)),
                self.l0_tick() == old(self).l0_tick(),
                self.l1_tick() == old(self).l1_tick(),
                self.index_slots() == old(self).index_slots(),
                self.tasks() == old(self).batch_inserted(hv.take(it.index() as int), tv.take(it.index() as int)),
                self.reserved() == old(self).reserved().difference(hv.take(it.index() as int).map_values(f).to_set()),
        {
            let ghost k = it.index() as int;
            let task = queue.pop().unwrap();
            proof {
                assert(handle == hv[k]);
                assert(task == tv[k]);
                let keys = hv.take(k).map_values(f);
                assert(!keys.to_set().contains(f(hv[k]))) by {
                    if keys.to_set().contains(f(hv[k])) {
                        assert(keys.contains(f(hv[k])));
                        let j = choose|j: int| 0 <= j < keys.len() && keys[j] == f(hv[k]);
                        assert(keys[j] == f(hv[j]));
                    }
                }
                assert(self.handle_is_fresh(handle));
                assert(self.can_place(task.delay_spec()) == old(self).can_place(task.delay_spec()));
            }
            let ghost before = *self;
            self.insert(handle, task);
            proof {
                let keys = hv.take(k).map_values(f);
                assert(hv.take(k + 1).map_values(f) =~= keys.push(f(hv[k])));
                keys.lemma_push_to_set_commute(f(hv[k]));
                assert(self.reserved() =~= old(self).reserved().difference(hv.take(k + 1).map_values(f).to_set()));
                assert(hv.take(k + 1).drop_last() =~= hv.take(k));
                assert(tv.take(k + 1).drop_last() =~= tv.take(k));
                assert(before.placed(task.delay_spec(), task.kind_spec(), task.delay_spec(), task.callback_spec())
                    == old(self).placed(task.delay_spec(), task.kind_spec(), task.delay_spec(), task.callback_spec()));
            }
        }
        proof {
            assert(hv.take(hv.len() as int) =~= hv);
            assert(tv.take(tv.len() as int) =~= tv);
        }
        Ok(())
    }
}

/// The positions in a list of pairs go down, highest first.
spec fn positions_desc(v: Seq<(TaskId, usize)>) -> bool {
    forall|i: int, j: int| 0 <= i < j < v.len() ==> v[i].1 >= v[j].1
}

/// Sorts pairs of an identifier and a slot position by position, highest first.
fn sort_by_position_desc(v: Vec<(TaskId, usize)>) -> (r: Vec<(TaskId, usize)>)
    ensures
        positions_desc(r@),
        forall|x: (TaskId, usize)| r@.contains(x) <==> v@.contains(x),
{
    let ghost orig = v@;
    let mut v = v;
    let mut out: Vec<(TaskId, usize)> = Vec::with_capacity(v.len());
    while v.len() > 0
        invariant
            positions_desc(out@),
            v@ == orig.take(v@.len() as int),
            v@.len() <= orig.len(),
            forall|x: (TaskId, usize)| out@.contains(x) <==> orig.skip(v@.len() as int).contains(x),
        decreases v@.len(),
    {
        let ghost k = v@.len() as int;
        let x = v.pop().unwrap();
        proof {
            assert(x == orig[k - 1]);
            assert(orig.skip(k - 1) =~= seq![x] + orig.skip(k));
            assert(v@ =~= orig.take(k - 1));
        }
        let mut pos: usize = 0;
        while pos < out.len() && out[pos].1 >= x.1
            invariant
                pos <= out@.len(),
                forall|i: int| 0 <= i < pos ==> out@[i].1 >= x.1,
            decreases out@.len() - pos,
        {
            pos = pos + 1;
        }
        let ghost before = out@;
        out.insert(pos, x);
        proof {
            assert(out@ == before.insert(pos as int, x));
            assert forall|i: int, j: int| 0 <= i < j < out@.len() implies out@[i].1 >= out@[j].1 by {
                if j < pos {
                } else if j == pos {
                } else if i < pos {
                    assert(out@[j] == before[j - 1]);
                    assert(before[pos as int].1 < x.1);
                } else if i == pos {
                    assert(out@[j] == before[j - 1]);
                    assert(before[pos as int].1 < x.1);
                } else {
                    assert(out@[i] == before[i - 1]);
                    assert(out@[j] == before[j - 1]);
                }
            }
            assert forall|y: (TaskId, usize)| out@.contains(y) <==> orig.skip(k - 1).contains(y) by {
                if out@.contains(y) {
                    let i = choose|i: int| 0 <= i < out@.len() && out@[i] == y;
                    if i < pos {
                        assert(before[i] == y);
                        assert(before.contains(y));
                    } else if i > pos {
                        assert(before[i - 1] == y);
                        assert(before.contains(y));
                    }
                    assert((seq![x] + orig.skip(k))[0] == x);
                    if y != x {
                        assert(orig.skip(k).contains(y));
                        let j = choose|j: int| 0 <= j < orig.skip(k).len() && orig.skip(k)[j] == y;
                        assert((seq![x] + orig.skip(k))[j + 1] == y);
                    }
                }
                let sk = orig.skip(k - 1);
                if sk.contains(y) {
                    let j = choose|j: int| 0 <= j < sk.len() && sk[j] == y;
                    if j == 0 {
                        assert(out@[pos as int] == x);
                    } else {
                        assert(orig.skip(k)[j - 1] == y);
                        assert(before.contains(y));
                        let i = choose|i: int| 0 <= i < before.len() && before[i] == y;
                        if i < pos {
                            assert(out@[i] == y);
                        } else {
                            assert(out@[i + 1] == y);
                        }
                    }
                }
            }
        }
    }
    proof {
        assert(orig.skip(0) =~= orig);
    }
    out
}

impl<C> Wheel<C> {
    /// Takes the task at `loc`, whose identifier is `task_id`, out of the wheel
    /// and reports `Cancelled` on its channel.
    #[verifier::spinoff_prover]
    fn remove_at(&mut self, task_id: TaskId, loc: TaskLocation)
        requires
            old(self).wf(),
            old(self).owns(task_id),
            index_contents(old(self).task_index).contains_key(task_id.value()),
            index_contents(old(self).task_index)[task_id.value()] == loc,
        ensures
            final(self).wf(),
            final(self).same_settings(*old(self)),
            final(self).l0.current_tick == old(self).l0.current_tick,
            final(self).l1.current_tick == old(self).l1.current_tick,
            final(self).reserved() == old(self).reserved(),
            final(self).index_slots() == old(self).index_slots(),
            final(self).tasks() == old(self).tasks().remove(task_id.value()),
            final(self).notices() == old(self).notices().push(
                old(self).notice_for(task_id.value(), TaskCompletion::Cancelled),
            ),
            forall|l: u8, sl: int|
                #![trigger final(self).layer(l).slots@[sl]]
                l <= 1 && 0 <= sl < final(self).layer(l).slots@.len() && !(l == loc.level && sl == loc.slot_index) ==> final(self).layer(l).slots@[sl] == old(
                    self,
                ).layer(l).slots@[sl],
            final(self).layer(0).slots@.len() == old(self).layer(0).slots@.len(),
            final(self).layer(1).slots@.len() == old(self).layer(1).slots@.len(),
            final(self).layer(loc.level).slots@[loc.slot_index as int]@ == old(self).layer(
                loc.level,
            ).slots@[loc.slot_index as int]@.update(
                loc.vec_index as int,
                old(self).layer(loc.level).slots@[loc.slot_index as int]@.last(),
            ).drop_last(),
    {
        let ghost raw = task_id.value();
        let ghost old_m = index_contents(self.task_index);
        proof {
            assert(old(self).valid_loc(loc));
            assert(self.entry(loc).task_id.value() == raw);
        }
        let _ = self.task_index.remove(task_id);
        proof {
            let m = index_contents(self.task_index);
            assert(m == old_m.remove(raw));
            assert forall|lv: u8| lv <= 1 implies #[trigger] self.layer_indexed_but(lv, Set::empty(), loc) by {
                assert(old(self).layer_indexed(lv, Set::empty()));
                let slots = self.layer(lv).slots@;
                assert forall|s: int, v: int|
                    0 <= s < slots.len() && 0 <= v < slots[s]@.len() && !(lv == loc.level && s
                        == loc.slot_index && v == loc.vec_index) implies #[trigger] m.contains_key(
                    id_at(slots, s, v),
                ) by {
                    assert(old_m.contains_key(id_at(slots, s, v)));
                    let here = TaskLocation { slot_index: s as usize, vec_index: v as usize, level: lv };
                    assert(self.layer(lv) == old(self).layer(lv));
                    assert(slots[s]@.len() == slots[s].len());
                    assert(slots.len() == self.layer(lv).slots.len());
                    assert(here != loc);
                    assert(old(self).valid_loc(here));
                    old(self).lemma_distinct_places(Set::empty(), here, loc);
                }
            }
            assert(self.layer_indexed_but(0, Set::empty(), loc));
            assert(self.layer_indexed_but(1, Set::empty(), loc));
        }
        let removed = self.take_task(loc, Ghost(Set::empty()));
        let note = report(Ghost(raw), removed.into_task_type(), TaskCompletion::Cancelled);
        proof {
            assert(self.tasks() =~= old(self).tasks().remove(raw)) by {
                assert forall|r: u64| #[trigger] self.tasks().contains_key(r) implies self.tasks()[r]
                    == old(self).tasks().remove(raw)[r] by {
                    assert(old_m.contains_key(r));
                }
            }
            assert(note@ == old(self).notice_for(raw, TaskCompletion::Cancelled));
        }
        let ghost pre = *self;
        self.notices = Ghost(self.notices@.push(note@));
        proof {
            Self::lemma_frame_notices(*self, pre);
        }
    }
}

/// The identifier numbers of a list of task identifiers.
pub open spec fn id_set(ids: Seq<TaskId>) -> Set<u64> {
    ids.map_values(|t: TaskId| t.value()).to_set()
}

/// The identifier numbers listed in the first `k` groups.
spec fn group_raws(groups: Seq<Vec<(TaskId, usize)>>, k: int) -> Set<u64> {
    Set::new(
        |raw: u64|
            exists|s: int, j: int|
                0 <= s < k && 0 <= j < groups[s]@.len() && (#[trigger] groups[s]@[j]).0.value() == raw,
    )
}

/// The identifier numbers of the first `j` pairs.
spec fn pair_raws(g: Seq<(TaskId, usize)>, j: int) -> Set<u64> {
    Set::new(|raw: u64| exists|i: int| 0 <= i < j && (#[trigger] g[i]).0.value() == raw)
}

impl<C> Wheel<C> {
    /// A task still sits where it sat if the entry at its place is the same:
    /// the index of a consistent wheel then points there.
    proof fn lemma_still_indexed(before: Self, after: Self, raw: u64, loc: TaskLocation)
        requires
            before.wf(),
            after.wf(),
            index_contents(before.task_index).contains_key(raw),
            index_contents(before.task_index)[raw] == loc,
            after.valid_loc(loc),
            after.entry(loc) == before.entry(loc),
        ensures
            index_contents(after.task_index).contains_key(raw),
            index_contents(after.task_index)[raw] == loc,
    {
        assert(before.valid_loc(loc));
        assert(before.entry(loc).task_id.value() == raw);
        assert(after.layer_indexed(loc.level, Set::empty()));
        assert(id_at(after.layer(loc.level).slots@, loc.slot_index as int, loc.vec_index as int) == raw);
    }

    /// Cancels, slot by slot of layer `level`, the tasks that each slot's group
    /// lists with their positions, from the highest position down so that no
    /// removal moves a task still to be removed; returns how many it took out.
    fn cancel_groups(&mut self, level: u8, groups: Vec<Vec<(TaskId, usize)>>) -> (r: usize)
        requires
            old(self).wf(),
            level <= 1,
            groups@.len() == old(self).layer(level).slots@.len(),
            forall|s: int, j: int|
                0 <= s < groups@.len() && 0 <= j < groups@[s]@.len() ==> {
                    let p = #[trigger] groups@[s]@[j];
                    &&& old(self).owns(p.0)
                    &&& index_contents(old(self).task_index).contains_key(p.0.value())
                    &&& index_contents(old(self).task_index)[p.0.value()] == (TaskLocation {
                        slot_index: s as usize,
                        vec_index: p.1,
                        level,
                    })
                },
        ensures
            final(self).wf(),
            final(self).same_settings(*old(self)),
            final(self).l0.current_tick == old(self).l0.current_tick,
            final(self).l1.current_tick == old(self).l1.current_tick,
            final(self).reserved() == old(self).reserved(),
            final(self).index_slots() == old(self).index_slots(),
            final(self).tasks() == old(self).tasks().remove_keys(group_raws(groups@, groups@.len() as int)),
            r == group_raws(groups@, groups@.len() as int).len(),
            final(self).notices().len() >= old(self).notices().len(),
            final(self).notices().subrange(0, old(self).notices().len() as int) == old(self).notices(),
            old(self).cancel_notices(
                final(self).notices().skip(old(self).notices().len() as int),
                group_raws(groups@, groups@.len() as int),
            ),
            group_raws(groups@, groups@.len() as int).subset_of(old(self).tasks().dom()),
            forall|l: u8, sl: int|
                #![trigger final(self).layer(l).slots@[sl]]
                l <= 1 && l != level && 0 <= sl < final(self).layer(l).slots@.len() ==> final(self).layer(l).slots@[sl]
                    == old(self).layer(l).slots@[sl],
            final(self).layer(0).slots@.len() == old(self).layer(0).slots@.len(),
            final(self).layer(1).slots@.len() == old(self).layer(1).slots@.len(),
    {
        let ghost gv = groups@;
        let ghost dom0 = old(self).tasks().dom();
        let mut cancelled: usize = 0;
        let mut slot_index: usize = 0;
        let ghost mut removed: Set<u64> = Set::empty();
        let ghost mut ns: Seq<Notice> = Seq::empty();
        proof {
            old(self).lemma_cancel_notices_empty();
            assert(old(self).notices() + ns =~= old(self).notices());
            assert(group_raws(gv, 0) =~= Set::empty());
            assert(old(self).tasks().remove_keys(Set::empty()) =~= old(self).tasks());
            assert(dom0 == index_contents(old(self).task_index).dom());
        }
        for tasks in it: groups
            invariant
                gv == it.seq(),
                slot_index == it.index(),
                level <= 1,
                gv.len() == old(self).layer(level).slots@.len(),
                dom0 == old(self).tasks().dom(),
                dom0 == index_contents(old(self).task_index).dom(),
                old(self).wf(),
                self.wf(),
                self.same_settings(*old(self)),
                self.l0.current_tick == old(self).l0.current_tick,
                self.l1.current_tick == old(self).l1.current_tick,
                self.reserved() == old(self).reserved(),
                self.index_slots() == old(self).index_slots(),
                removed == group_raws(gv, slot_index as int),
                removed.subset_of(dom0),
                self.notices() == old(self).notices() + ns,
                old(self).cancel_notices(ns, removed),
                self.tasks() == old(self).tasks().remove_keys(removed),
                cancelled == removed.len(),
                forall|s: int, j: int|
                    slot_index <= s < gv.len() && 0 <= j < gv[s]@.len() ==> {
                        let p = #[trigger] gv[s]@[j];
                        &&& old(self).owns(p.0)
                        &&& index_contents(self.task_index).contains_key(p.0.value())
                        &&& index_contents(self.task_index)[p.0.value()] == (TaskLocation {
                            slot_index: s as usize,
                            vec_index: p.1,
                            level,
                        })
                    },
                forall|l: u8, sl: int|
                    #![trigger self.layer(l).slots@[sl]]
                    l <= 1 && l != level && 0 <= sl < self.layer(l).slots@.len() ==> self.layer(l).slots@[sl]
                        == old(self).layer(l).slots@[sl],
                self.layer(0).slots@.len() == old(self).layer(0).slots@.len(),
                self.layer(1).slots@.len() == old(self).layer(1).slots@.len(),
        {
            let ghost s = slot_index as int;
            let ghost rs = removed;
            let ghost start = *self;
            proof {
                assert(tasks == gv[s]);
            }
            if tasks.len() > 0 {
                let sorted = sort_by_position_desc(tasks);
                let ghost g = sorted@;
                let mut j: usize = 0;
                proof {
                    assert(pair_raws(g, 0) =~= Set::empty());
                    assert(rs.union(pair_raws(g, 0)) =~= rs);
                    assert forall|i: int| 0 <= i < g.len() implies gv[s]@.contains(#[trigger] g[i]) by {
                        assert(g.contains(g[i]));
                    }
                }
                while j < sorted.len()
                    invariant
                        g == sorted@,
                        positions_desc(g),
                        forall|x: (TaskId, usize)| g.contains(x) <==> gv[s]@.contains(x),
                        s == slot_index,
                        0 <= s < gv.len(),
                        j <= g.len(),
                        level <= 1,
                        gv.len() == old(self).layer(level).slots@.len(),
                        dom0 == old(self).tasks().dom(),
                        dom0 == index_contents(old(self).task_index).dom(),
                        old(self).wf(),
                        self.wf(),
                        self.same_settings(*old(self)),
                        self.l0.current_tick == old(self).l0.current_tick,
                        self.l1.current_tick == old(self).l1.current_tick,
                        self.reserved() == old(self).reserved(),
                        self.index_slots() == old(self).index_slots(),
                        rs == group_raws(gv, s),
                        removed == rs.union(pair_raws(g, j as int)),
                        removed.subset_of(dom0),
                        self.notices() == old(self).notices() + ns,
                        old(self).cancel_notices(ns, removed),
                        self.tasks() == old(self).tasks().remove_keys(removed),
                        cancelled == removed.len(),
                        forall|i: int|
                            j <= i < g.len() ==> {
                                let p = #[trigger] g[i];
                                &&& old(self).owns(p.0)
                                &&& (removed.contains(p.0.value()) || (index_contents(self.task_index).contains_key(
                                    p.0.value(),
                                ) && index_contents(self.task_index)[p.0.value()] == (TaskLocation {
                                    slot_index: s as usize,
                                    vec_index: p.1,
                                    level,
                                })))
                            },
                        forall|s2: int, j2: int|
                            s < s2 < gv.len() && 0 <= j2 < gv[s2]@.len() ==> {
                                let p = #[trigger] gv[s2]@[j2];
                                &&& old(self).owns(p.0)
                                &&& index_contents(self.task_index).contains_key(p.0.value())
                                &&& index_contents(self.task_index)[p.0.value()] == (TaskLocation {
                                    slot_index: s2 as usize,
                                    vec_index: p.1,
                                    level,
                                })
                            },
                        forall|l: u8, sl: int|
                            #![trigger self.layer(l).slots@[sl]]
                            l <= 1 && !(l == level && sl == s) && 0 <= sl < self.layer(l).slots@.len() ==> self.layer(l).slots@[sl]
                                == start.layer(l).slots@[sl],
                        forall|l: u8, sl: int|
                            #![trigger start.layer(l).slots@[sl]]
                            l <= 1 && l != level && 0 <= sl < start.layer(l).slots@.len() ==> start.layer(l).slots@[sl]
                                == old(self).layer(l).slots@[sl],
                        self.layer(0).slots@.len() == old(self).layer(0).slots@.len(),
                        self.layer(1).slots@.len() == old(self).layer(1).slots@.len(),
                        start.layer(0).slots@.len() == old(self).layer(0).slots@.len(),
                        start.layer(1).slots@.len() == old(self).layer(1).slots@.len(),
                    decreases g.len() - j,
                {
                    let (task_id, vec_index) = sorted[j];
                    let ghost raw = task_id.value();
                    let ghost before = *self;
                    let ghost loc = TaskLocation { slot_index: slot_index, vec_index, level };
                    proof {
                        assert((task_id, vec_index) == g[j as int]);
                        assert(self.layer(0) == self.l0);
                        assert(self.layer(1) == self.l1);
                    }
                    let slot_len = if level == 0 {
                        self.l0.slots[slot_index].len()
                    } else {
                        self.l1.slots[slot_index].len()
                    };
                    let mut hit = false;
                    if vec_index < slot_len {
                        let found_id = if level == 0 {
                            self.l0.slots[slot_index][vec_index].get_id()
                        } else {
                            self.l1.slots[slot_index][vec_index].get_id()
                        };
                        if found_id.raw() == task_id.raw() {
                            proof {
                                assert(self.valid_loc(loc));
                                assert(self.layer_indexed(level, Set::empty()));
                                assert(id_at(self.layer(level).slots@, s, vec_index as int) == raw);
                                assert(index_contents(self.task_index)[raw] == loc);
                                assert(self.tasks().contains_key(raw));
                                assert(!removed.contains(raw));
                                assert(dom0.contains(raw));
                            }
                            proof {
                                assert(dom0.finite()) by {
                                    assert(index_wf(old(self).task_index));
                                }
                                vstd::set_lib::lemma_len_subset(removed.insert(raw), dom0);
                                assert(dom0.len() < u32::MAX) by {
                                    assert(index_wf(old(self).task_index));
                                }
                            }
                            self.remove_at(task_id, TaskLocation::new(level, slot_index, vec_index));
                            proof {
                                assert(before.tasks()[raw] == old(self).tasks()[raw]);
                                old(self).lemma_cancel_notices_push(ns, removed, raw);
                                let n = old(self).notice_for(raw, TaskCompletion::Cancelled);
                                assert(old(self).notices() + ns.push(n) =~= (old(self).notices() + ns).push(n));
                                ns = ns.push(n);
                            }
                            cancelled = cancelled + 1;
                            hit = true;
                        }
                    }
                    proof {
                        let ghost nr = removed.insert(raw);
                        if hit {
                            assert(removed.finite()) by {
                                vstd::set_lib::lemma_len_subset(removed, dom0);
                            }
                            vstd::set_lib::lemma_len_subset(nr, dom0);
                            assert(dom0.len() < u32::MAX) by {
                                assert(index_wf(old(self).task_index));
                            }
                            assert(self.tasks() =~= old(self).tasks().remove_keys(nr));
                            let bl = before.layer(level).slots@[s]@;
                            assert forall|i: int|
                                j + 1 <= i < g.len() implies {
                                    let p = #[trigger] g[i];
                                    &&& old(self).owns(p.0)
                                    &&& (nr.contains(p.0.value()) || (index_contents(self.task_index).contains_key(
                                        p.0.value(),
                                    ) && index_contents(self.task_index)[p.0.value()] == (TaskLocation {
                                        slot_index: s as usize,
                                        vec_index: p.1,
                                        level,
                                    })))
                                } by {
                                let p = g[i];
                                if !nr.contains(p.0.value()) {
                                    let ploc = TaskLocation { slot_index: s as usize, vec_index: p.1, level };
                                    assert(before.valid_loc(ploc));
                                    assert(before.entry(ploc).task_id.value() == p.0.value());
                                    assert(p.1 <= vec_index);
                                    assert(p.1 != vec_index);
                                    assert(self.layer(level).slots@[s]@[p.1 as int] == bl[p.1 as int]);
                                    Self::lemma_still_indexed(before, *self, p.0.value(), ploc);
                                }
                            }
                            assert forall|s2: int, j2: int|
                                s < s2 < gv.len() && 0 <= j2 < gv[s2]@.len() implies {
                                    let p = #[trigger] gv[s2]@[j2];
                                    &&& index_contents(self.task_index).contains_key(p.0.value())
                                    &&& index_contents(self.task_index)[p.0.value()] == (TaskLocation {
                                        slot_index: s2 as usize,
                                        vec_index: p.1,
                                        level,
                                    })
                                } by {
                                let p = gv[s2]@[j2];
                                let ploc = TaskLocation { slot_index: s2 as usize, vec_index: p.1, level };
                                assert(self.layer(level).slots@[s2] == before.layer(level).slots@[s2]);
                                Self::lemma_still_indexed(before, *self, p.0.value(), ploc);
                            }
                        } else {
                            assert(removed.contains(raw)) by {
                                if !removed.contains(raw) {
                                    assert(self.valid_loc(loc));
                                    assert(self.entry(loc).task_id.value() == raw);
                                }
                            }
                            assert(nr == removed);
                        }
                        assert(pair_raws(g, j + 1) =~= pair_raws(g, j as int).insert(raw));
                        assert(rs.union(pair_raws(g, j + 1)) =~= nr);
                        removed = nr;
                    }
                    j = j + 1;
                }
                proof {
                    assert(removed =~= group_raws(gv, s + 1)) by {
                        assert forall|raw: u64| removed.contains(raw) <==> group_raws(gv, s + 1).contains(raw) by {
                            if pair_raws(g, g.len() as int).contains(raw) {
                                let i = choose|i: int| 0 <= i < g.len() && (#[trigger] g[i]).0.value() == raw;
                                assert(g.contains(g[i]));
                                assert(gv[s]@.contains(g[i]));
                                let jj = choose|jj: int| 0 <= jj < gv[s]@.len() && gv[s]@[jj] == g[i];
                                assert(gv[s]@[jj].0.value() == raw);
                            }
                            if group_raws(gv, s + 1).contains(raw) && !rs.contains(raw) {
                                let (s3, j3) = choose|s3: int, j3: int|
                                    0 <= s3 < s + 1 && 0 <= j3 < gv[s3]@.len() && (#[trigger] gv[s3]@[j3]).0.value() == raw;
                                if s3 < s {
                                    assert(group_raws(gv, s).contains(raw));
                                } else {
                                    assert(gv[s]@.contains(gv[s]@[j3]));
                                    assert(g.contains(gv[s]@[j3]));
                                    let i = choose|i: int| 0 <= i < g.len() && g[i] == gv[s]@[j3];
                                    assert(pair_raws(g, g.len() as int).contains(raw));
                                }
                            }
                        }
                    }
                }
            } else {
                proof {
                    assert(group_raws(gv, s + 1) =~= group_raws(gv, s)) by {
                        assert forall|raw: u64| group_raws(gv, s + 1).contains(raw) implies group_raws(gv, s).contains(raw) by {
                            let (s3, j3) = choose|s3: int, j3: int|
                                0 <= s3 < s + 1 && 0 <= j3 < gv[s3]@.len() && (#[trigger] gv[s3]@[j3]).0.value() == raw;
                            assert(s3 != s);
                        }
                    }
                }
            }
            slot_index = slot_index + 1;
        }
        proof {
            assert(removed == group_raws(gv, gv.len() as int));
            let n0 = old(self).notices().len() as int;
            assert(self.notices().subrange(0, n0) =~= old(self).notices());
            assert(self.notices().skip(n0) =~= ns);
        }
        cancelled
    }
}

/// `n` empty groups.
fn empty_groups(n: usize) -> (r: Vec<Vec<(TaskId, usize)>>)
    ensures
        r@.len() == n,
        forall|s: int| 0 <= s < n ==> (#[trigger] r@[s])@.len() == 0,
{
    let mut groups: Vec<Vec<(TaskId, usize)>> = Vec::with_capacity(n);
    let mut i: usize = 0;
    while i < n
        invariant
            i <= n,
            groups@.len() == i,
            forall|s: int| 0 <= s < i ==> (#[trigger] groups@[s])@.len() == 0,
        decreases n - i,
    {
        groups.push(Vec::new());
        i = i + 1;
    }
    groups
}

impl<C> Wheel<C> {
    /// Cancels every listed task that is in the wheel; returns how many
    /// distinct tasks it cancelled. Each cancelled task's channel reports
    /// `Cancelled`. Up to the batch threshold the tasks are cancelled one by
    /// one; above it they are grouped by slot first.
    pub fn cancel_batch(&mut self, task_ids: &[TaskId]) -> (r: usize)
        requires
            old(self).wf(),
            forall|i: int| 0 <= i < task_ids@.len() ==> old(self).owns(#[trigger] task_ids@[i]),
        ensures
            final(self).wf(),
            final(self).same_settings(*old(self)),
            final(self).l0_tick() == old(self).l0_tick(),
            final(self).l1_tick() == old(self).l1_tick(),
            final(self).reserved() == old(self).reserved(),
            final(self).index_slots() == old(self).index_slots(),
            final(self).tasks() == old(self).tasks().remove_keys(id_set(task_ids@)),
            r == old(self).tasks().dom().intersect(id_set(task_ids@)).len(),
            final(self).notices().len() >= old(self).notices().len(),
            final(self).notices().subrange(0, old(self).notices().len() as int) == old(self).notices(),
            old(self).cancel_notices(
                final(self).notices().skip(old(self).notices().len() as int),
                old(self).tasks().dom().intersect(id_set(task_ids@)),
            ),
    {
        let ghost ids = task_ids@;
        let ghost f = |t: TaskId| t.value();
        let ghost dom0 = old(self).tasks().dom();
        proof {
            assert(dom0 == index_contents(old(self).task_index).dom());
            assert(dom0.finite()) by {
                assert(index_wf(old(self).task_index));
            }
        }
        let mut cancelled_count: usize = 0;
        let ghost n0 = old(self).notices().len() as int;
        if task_ids.len() <= self.batch_config.small_batch_threshold {
            let ghost mut ns: Seq<Notice> = Seq::empty();
            proof {
                old(self).lemma_cancel_notices_empty();
                assert(old(self).notices() + ns =~= old(self).notices());
                assert(ids.take(0).map_values(f).to_set() =~= Set::empty());
                assert(old(self).tasks().remove_keys(Set::empty()) =~= old(self).tasks());
                assert(dom0.intersect(Set::empty()) =~= Set::empty());
            }
            let mut i: usize = 0;
            while i < task_ids.len()
                invariant
                    i <= task_ids@.len(),
                    ids == task_ids@,
                    f == (|t: TaskId| t.value()),
                    dom0 == old(self).tasks().dom(),
                    dom0.finite(),
                    old(self).wf(),
                    forall|k: int| 0 <= k < ids.len() ==> old(self).owns(#[trigger] ids[k]),
                    self.wf(),
                    self.same_settings(*old(self)),
                    self.l0_tick() == old(self).l0_tick(),
                    self.l1_tick() == old(self).l1_tick(),
                    self.reserved() == old(self).reserved(),
                    self.index_slots() == old(self).index_slots(),
                    self.tasks() == old(self).tasks().remove_keys(ids.take(i as int).map_values(f).to_set()),
                    cancelled_count == dom0.intersect(ids.take(i as int).map_values(f).to_set()).len(),
                    cancelled_count <= i,
                    self.notices() == old(self).notices() + ns,
                    old(self).cancel_notices(ns, dom0.intersect(ids.take(i as int).map_values(f).to_set())),
                decreases task_ids@.len() - i,
            {
                let task_id = task_ids[i];
                let ghost before = *self;
                let ghost done = ids.take(i as int).map_values(f).to_set();
                let ghost raw = task_id.value();
                proof {
                    assert(ids.take(i + 1).map_values(f) =~= ids.take(i as int).map_values(f).push(raw));
                    ids.take(i as int).map_values(f).lemma_push_to_set_commute(raw);
                    assert(dom0.intersect(done).finite());
                }
                let hit = self.cancel(task_id);
                proof {
                    let nd = done.insert(raw);
                    assert(self.tasks() =~= old(self).tasks().remove_keys(nd));
                    if hit {
                        assert(!done.contains(raw));
                        assert(dom0.contains(raw));
                        assert(dom0.intersect(nd) =~= dom0.intersect(done).insert(raw));
                        assert(before.tasks()[raw] == old(self).tasks()[raw]);
                        old(self).lemma_cancel_notices_push(ns, dom0.intersect(done), raw);
                        let n = old(self).notice_for(raw, TaskCompletion::Cancelled);
                        assert(old(self).notices() + ns.push(n) =~= (old(self).notices() + ns).push(n));
                        ns = ns.push(n);
                    } else {
                        assert(dom0.intersect(nd) =~= dom0.intersect(done)) by {
                            if dom0.contains(raw) {
                                assert(done.contains(raw));
                            }
                        }
                    }
                }
                if hit {
                    cancelled_count = cancelled_count + 1;
                }
                i = i + 1;
            }
            proof {
                assert(ids.take(ids.len() as int) =~= ids);
                assert(self.notices().subrange(0, n0) =~= old(self).notices());
                assert(self.notices().skip(n0) =~= ns);
            }
            return cancelled_count;
        }
        let l0_slot_count = self.l0.slot_count;
        let l1_slot_count = self.l1.slot_count;
        let mut l0_tasks_by_slot = empty_groups(l0_slot_count);
        let mut l1_tasks_by_slot = empty_groups(l1_slot_count);
        let ghost m = index_contents(self.task_index);
        proof {
            assert(ids.take(0).map_values(f).to_set() =~= Set::empty());
        }
        let mut i: usize = 0;
        while i < task_ids.len()
            invariant
                i <= task_ids@.len(),
                ids == task_ids@,
                f == (|t: TaskId| t.value()),
                *self == *old(self),
                m == index_contents(self.task_index),
                self.wf(),
                forall|k: int| 0 <= k < ids.len() ==> old(self).owns(#[trigger] ids[k]),
                l0_tasks_by_slot@.len() == self.l0.slot_count,
                l1_tasks_by_slot@.len() == self.l1.slot_count,
                forall|s: int, j: int|
                    0 <= s < l0_tasks_by_slot@.len() && 0 <= j < l0_tasks_by_slot@[s]@.len() ==> {
                        let p = #[trigger] l0_tasks_by_slot@[s]@[j];
                        &&& self.owns(p.0)
                        &&& m.contains_key(p.0.value())
                        &&& m[p.0.value()] == (TaskLocation { slot_index: s as usize, vec_index: p.1, level: 0 })
                        &&& ids.take(i as int).map_values(f).to_set().contains(p.0.value())
                    },
                forall|s: int, j: int|
                    0 <= s < l1_tasks_by_slot@.len() && 0 <= j < l1_tasks_by_slot@[s]@.len() ==> {
                        let p = #[trigger] l1_tasks_by_slot@[s]@[j];
                        &&& self.owns(p.0)
                        &&& m.contains_key(p.0.value())
                        &&& m[p.0.value()] == (TaskLocation { slot_index: s as usize, vec_index: p.1, level: 1 })
                        &&& ids.take(i as int).map_values(f).to_set().contains(p.0.value())
                    },
                forall|raw: u64|
                    m.contains_key(raw) && #[trigger] ids.take(i as int).map_values(f).to_set().contains(raw) ==> if m[raw].level
                        == 0 {
                        group_raws(l0_tasks_by_slot@, l0_tasks_by_slot@.len() as int).contains(raw)
                    } else {
                        group_raws(l1_tasks_by_slot@, l1_tasks_by_slot@.len() as int).contains(raw)
                    },
            decreases task_ids@.len() - i,
        {
            let task_id = task_ids[i];
            let ghost raw = task_id.value();
            let ghost done = ids.take(i as int).map_values(f).to_set();
            let ghost g0 = l0_tasks_by_slot@;
            let ghost g1 = l1_tasks_by_slot@;
            proof {
                assert(ids.take(i + 1).map_values(f) =~= ids.take(i as int).map_values(f).push(raw));
                ids.take(i as int).map_values(f).lemma_push_to_set_commute(raw);
            }
            match self.task_index.get(task_id) {
                Some(location) => {
                    proof {
                        assert(self.valid_loc(location));
                    }
                    if location.level == 0 {
                        l0_tasks_by_slot[location.slot_index].push((task_id, location.vec_index));
                    } else {
                        l1_tasks_by_slot[location.slot_index].push((task_id, location.vec_index));
                    }
                    proof {
                        let ls = location.slot_index as int;
                        if location.level == 0 {
                            let nj = g0[ls]@.len() as int;
                            assert(l0_tasks_by_slot@[ls]@[nj] == (task_id, location.vec_index));
                            assert forall|rw: u64| #[trigger] group_raws(g0, g0.len() as int).contains(rw) implies group_raws(
                                l0_tasks_by_slot@,
                                g0.len() as int,
                            ).contains(rw) by {
                                let (s3, j3) = choose|s3: int, j3: int|
                                    0 <= s3 < g0.len() && 0 <= j3 < g0[s3]@.len() && (#[trigger] g0[s3]@[j3]).0.value() == rw;
                                if s3 == ls {
                                    assert(l0_tasks_by_slot@[s3]@[j3] == g0[s3]@[j3]);
                                } else {
                                    assert(l0_tasks_by_slot@[s3] == g0[s3]);
                                }
                            }
                            assert(group_raws(l0_tasks_by_slot@, g0.len() as int).contains(raw));
                        } else {
                            let nj = g1[ls]@.len() as int;
                            assert(l1_tasks_by_slot@[ls]@[nj] == (task_id, location.vec_index));
                            assert forall|rw: u64| #[trigger] group_raws(g1, g1.len() as int).contains(rw) implies group_raws(
                                l1_tasks_by_slot@,
                                g1.len() as int,
                            ).contains(rw) by {
                                let (s3, j3) = choose|s3: int, j3: int|
                                    0 <= s3 < g1.len() && 0 <= j3 < g1[s3]@.len() && (#[trigger] g1[s3]@[j3]).0.value() == rw;
                                if s3 == ls {
                                    assert(l1_tasks_by_slot@[s3]@[j3] == g1[s3]@[j3]);
                                } else {
                                    assert(l1_tasks_by_slot@[s3] == g1[s3]);
                                }
                            }
                            assert(group_raws(l1_tasks_by_slot@, g1.len() as int).contains(raw));
                        }
                    }
                },
                None => {},
            }
            i = i + 1;
        }
        let ghost g0 = l0_tasks_by_slot@;
        let ghost g1 = l1_tasks_by_slot@;
        proof {
            assert(ids.take(ids.len() as int) =~= ids);
            assert(self.layer(0) == self.l0);
            assert(self.layer(1) == self.l1);
        }
        let c0 = self.cancel_groups(0, l0_tasks_by_slot);
        let ghost mid = *self;
        proof {
            assert forall|s: int, j: int|
                0 <= s < g1.len() && 0 <= j < g1[s]@.len() implies {
                    let p = #[trigger] g1[s]@[j];
                    &&& mid.owns(p.0)
                    &&& index_contents(mid.task_index).contains_key(p.0.value())
                    &&& index_contents(mid.task_index)[p.0.value()] == (TaskLocation {
                        slot_index: s as usize,
                        vec_index: p.1,
                        level: 1,
                    })
                } by {
                let p = g1[s]@[j];
                let ploc = TaskLocation { slot_index: s as usize, vec_index: p.1, level: 1 };
                assert(old(self).valid_loc(ploc));
                assert(mid.layer(1).slots@[s] == old(self).layer(1).slots@[s]);
                Self::lemma_still_indexed(*old(self), mid, p.0.value(), ploc);
            }
        }
        let c1 = self.cancel_groups(1, l1_tasks_by_slot);
        proof {
            let p0 = group_raws(g0, g0.len() as int);
            let p1 = group_raws(g1, g1.len() as int);
            let want = dom0.intersect(id_set(ids));
            assert(p0.disjoint(p1)) by {
                assert forall|rw: u64| p0.contains(rw) implies !p1.contains(rw) by {
                    let (s3, j3) = choose|s3: int, j3: int|
                        0 <= s3 < g0.len() && 0 <= j3 < g0[s3]@.len() && (#[trigger] g0[s3]@[j3]).0.value() == rw;
                    if p1.contains(rw) {
                        let (s4, j4) = choose|s4: int, j4: int|
                            0 <= s4 < g1.len() && 0 <= j4 < g1[s4]@.len() && (#[trigger] g1[s4]@[j4]).0.value() == rw;
                    }
                }
            }
            assert(p0.union(p1) =~= want) by {
                assert forall|rw: u64| p0.union(p1).contains(rw) <==> want.contains(rw) by {
                    if p0.contains(rw) {
                        let (s3, j3) = choose|s3: int, j3: int|
                            0 <= s3 < g0.len() && 0 <= j3 < g0[s3]@.len() && (#[trigger] g0[s3]@[j3]).0.value() == rw;
                    }
                    if p1.contains(rw) {
                        let (s4, j4) = choose|s4: int, j4: int|
                            0 <= s4 < g1.len() && 0 <= j4 < g1[s4]@.len() && (#[trigger] g1[s4]@[j4]).0.value() == rw;
                    }
                }
            }
            vstd::set_lib::lemma_len_subset(p0, dom0);
            vstd::set_lib::lemma_len_subset(p1, dom0);
            vstd::set_lib::lemma_set_disjoint_lens(p0, p1);
            vstd::set_lib::lemma_len_subset(want, dom0);
            assert(dom0.len() < u32::MAX) by {
                assert(index_wf(old(self).task_index));
            }
            assert(self.tasks() =~= old(self).tasks().remove_keys(id_set(ids))) by {
                assert forall|rw: u64| #[trigger] old(self).tasks().contains_key(rw) && id_set(ids).contains(rw) implies p0.union(p1).contains(rw) by {
                    assert(want.contains(rw));
                }
            }
        }
        proof {
            let p0 = group_raws(g0, g0.len() as int);
            let p1 = group_raws(g1, g1.len() as int);
            let nm = mid.notices().len() as int;
            let ns0 = mid.notices().skip(n0);
            let ns1 = self.notices().skip(nm);
            assert(p0.disjoint(p1)) by {
                assert forall|rw: u64| p0.contains(rw) implies !p1.contains(rw) by {
                    let (s3, j3) = choose|s3: int, j3: int|
                        0 <= s3 < g0.len() && 0 <= j3 < g0[s3]@.len() && (#[trigger] g0[s3]@[j3]).0.value() == rw;
                    if p1.contains(rw) {
                        let (s4, j4) = choose|s4: int, j4: int|
                            0 <= s4 < g1.len() && 0 <= j4 < g1[s4]@.len() && (#[trigger] g1[s4]@[j4]).0.value() == rw;
                    }
                }
            }
            assert forall|raw: u64| #[trigger] p1.contains(raw) implies mid.tasks()[raw].kind == old(self).tasks()[raw].kind by {
                assert(!p0.contains(raw));
            }
            Self::lemma_cancel_notices_same_channels(mid, *old(self), ns1, p1);
            old(self).lemma_cancel_notices_concat(ns0, p0, ns1, p1);
            assert(self.notices().subrange(0, n0) =~= old(self).notices()) by {
                assert(self.notices().subrange(0, nm) == mid.notices());
                assert(mid.notices().subrange(0, n0) == old(self).notices());
            }
            assert(self.notices().skip(n0) =~= ns0 + ns1) by {
                assert(self.notices().subrange(0, nm) == mid.notices());
            }
            assert(p0.union(p1) =~= dom0.intersect(id_set(ids))) by {
                assert forall|rw: u64| p0.union(p1).contains(rw) <==> dom0.intersect(id_set(ids)).contains(rw) by {
                    if p0.contains(rw) {
                        let (s3, j3) = choose|s3: int, j3: int|
                            0 <= s3 < g0.len() && 0 <= j3 < g0[s3]@.len() && (#[trigger] g0[s3]@[j3]).0.value() == rw;
                    }
                    if p1.contains(rw) {
                        let (s4, j4) = choose|s4: int, j4: int|
                            0 <= s4 < g1.len() && 0 <= j4 < g1[s4]@.len() && (#[trigger] g1[s4]@[j4]).0.value() == rw;
                    }
                }
            }
        }
        cancelled_count = c0 + c1;
        cancelled_count
    }
}

impl<C: Clone> Wheel<C> {
    /// Advances the wheel by one L0 tick and returns the tasks that came due:
    /// those in the L0 slot of the new tick. Due one-shot tasks leave the wheel;
    /// due periodic tasks are placed again by their interval. Each due task's
    /// channel reports `Called`. Every `ratio` L0 ticks, L1 turns by one tick:
    /// the tasks of its new slot wait one round less or, with no round left, move
    /// down to L0.
    pub fn advance(&mut self) -> (r: Vec<WheelAdvanceResult<C>>)
        requires
            old(self).wf(),
            old(self).can_advance(),
        ensures
            final(self).wf(),
            final(self).same_settings(*old(self)),
            final(self).l0_tick() == old(self).l0_tick() + 1,
            final(self).l1_tick() == if old(self).l1_turns_next() {
                old(self).l1_tick() + 1
            } else {
                old(self).l1_tick() as int
            },
            final(self).reserved() == old(self).reserved(),
            final(self).index_slots() == old(self).index_slots(),
            final(self).notices() == old(self).notices() + r@.map_values(
                |e: WheelAdvanceResult<C>| old(self).notice_for(e.id.value(), TaskCompletion::Called),
            ),
            final(self).tasks().dom() == old(self).after_advance().dom(),
            forall|raw: u64|
                #![trigger final(self).tasks()[raw]]
                final(self).tasks().contains_key(raw) ==> final(self).tasks()[raw] == with_callback(
                    old(self).after_advance()[raw],
                    final(self).tasks()[raw].callback,
                ),
            forall|raw: u64|
                #![trigger final(self).tasks()[raw]]
                final(self).tasks().contains_key(raw) ==> if old(self).due_next().contains(raw) {
                    option_cloned(old(self).tasks()[raw].callback, final(self).tasks()[raw].callback)
                } else {
                    final(self).tasks()[raw].callback == old(self).tasks()[raw].callback
                },
            old(self).advance_step(*final(self)),
            r@.len() == old(self).due_next().len(),
            forall|i: int, j: int| 0 <= i < j < r@.len() ==> (#[trigger] r@[i]).id.value() != (#[trigger] r@[j]).id.value(),
            forall|i: int|
                0 <= i < r@.len() ==> old(self).due_next().contains((#[trigger] r@[i]).id.value())
                    && r@[i].callback == old(self).tasks()[r@[i].id.value()].callback
                    && final(self).owns(r@[i].id),
            forall|raw: u64| old(self).due_next().contains(raw) ==> exists|i: int| 0 <= i < r@.len() && (#[trigger] r@[i]).id.value() == raw,
    {
        let ghost v0 = self.tasks();
        let ghost due = self.due_next();
        self.l0.current_tick = self.l0.current_tick + 1;
        let ghost w0 = *self;
        let ghost m0 = index_contents(self.task_index);
        proof {
            assert(w0.tasks() == v0);
            assert(w0.consistent(Set::empty()));
        }
        let mut expired_tasks: Vec<WheelAdvanceResult<C>> = Vec::new();
        let l0_slot_index = (self.l0.current_tick as usize) & self.l0.slot_mask;
        proof {
            lemma_slot_of_bound(self.l0.current_tick, self.l0.slot_count);
            assert(l0_slot_index == old(self).next_l0_slot());
        }
        let mut periodic_tasks_to_reinsert: Vec<(TaskId, TimerTaskWithCompletionNotifier<C>)> = Vec::new();
        let ghost mut done: Set<u64> = Set::empty();
        let ghost mut pend: Set<u64> = Set::empty();
        let ghost mut ids: Seq<u64> = Seq::empty();
        let ghost mut pids: Seq<u64> = Seq::empty();
        let ghost mut ns: Seq<Notice> = Seq::empty();
        proof {
            assert(old(self).notices() + ns =~= old(self).notices());
        }
        while self.l0.slots[l0_slot_index].len() > 0
            invariant
                self.notices() == old(self).notices() + ns,
                ns.len() == ids.len(),
                forall|i: int| 0 <= i < ns.len() ==> #[trigger] ns[i] == old(self).notice_for(ids[i], TaskCompletion::Called),
                m0 == index_contents(w0.task_index),
                v0 == w0.tasks(),
                v0 == old(self).tasks(),
                due == old(self).due_next(),
                w0.shape(),
                w0.consistent(Set::empty()),
                w0.same_settings(*old(self)),
                w0.l0.current_tick == old(self).l0.current_tick + 1,
                w0.l1.current_tick == old(self).l1.current_tick,
                self.shape(),
                self.same_settings(w0),
                self.l0.current_tick == w0.l0.current_tick,
                self.l1.current_tick == w0.l1.current_tick,
                self.l1_capacity_ticks == w0.l1_capacity_ticks,
                self.l0_capacity_ms == w0.l0_capacity_ms,
                index_reserved(self.task_index) == index_reserved(w0.task_index),
                index_slot_count(self.task_index) == index_slot_count(w0.task_index),
                l0_slot_index < self.l0.slots@.len(),
                l0_slot_index == old(self).next_l0_slot(),
                self.consistent(pend),
                done.subset_of(due),
                forall|raw: u64| #[trigger] pend.contains(raw) <==> done.contains(raw) && v0[raw].interval is Some,
                forall|raw: u64| #[trigger] index_contents(self.task_index).contains_key(raw) <==> m0.contains_key(raw)
                    && !(done.contains(raw) && v0[raw].interval is None),
                forall|raw: u64|
                    #![trigger index_contents(self.task_index)[raw]]
                    m0.contains_key(raw) && !done.contains(raw) ==> self.entry(index_contents(self.task_index)[raw])
                        == w0.entry(m0[raw]) && index_contents(self.task_index)[raw].level == m0[raw].level
                        && index_contents(self.task_index)[raw].slot_index == m0[raw].slot_index,
                ids.len() == expired_tasks@.len(),
                ids.no_duplicates(),
                ids.to_set() == done,
                forall|i: int|
                    0 <= i < ids.len() ==> #[trigger] ids[i] == expired_tasks@[i].id.value()
                        && expired_tasks@[i].callback == v0[ids[i]].callback
                        && key_owner(expired_tasks@[i].id.key()) == index_owner(w0.task_index),
                pids.len() == periodic_tasks_to_reinsert@.len(),
                pids.no_duplicates(),
                pids.to_set() == pend,
                forall|i: int|
                    0 <= i < pids.len() ==> {
                        let (id, task) = #[trigger] periodic_tasks_to_reinsert@[i];
                        &&& pids[i] == id.value()
                        &&& key_owner(id.key()) == index_owner(w0.task_index)
                        &&& task.interval_spec() == v0[pids[i]].interval
                        &&& task.kind_spec() == v0[pids[i]].kind
                        &&& task.delay_spec() == v0[pids[i]].delay
                        &&& option_cloned(v0[pids[i]].callback, task.callback_spec())
                    },
            decreases self.l0.slots@[l0_slot_index as int]@.len(),
        {
            let ghost before = *self;
            let ghost mb = index_contents(self.task_index);
            let loc = TaskLocation::new(0, l0_slot_index, 0);
            let first_id = self.l0.slots[l0_slot_index][0].get_id();
            let is_periodic = self.l0.slots[l0_slot_index][0].task.is_periodic();
            let ghost x = first_id.value();
            proof {
                assert(self.layer(0) == self.l0);
                assert(slots_indexed(self.l0.slots@, 0, mb, pend, index_owner(self.task_index)));
                assert(id_at(self.l0.slots@, l0_slot_index as int, 0) == x);
                assert(mb.contains_key(x) && !pend.contains(x));
                assert(mb[x] == loc);
                assert(!done.contains(x));
                assert(m0.contains_key(x));
                assert(self.entry(mb[x]) == w0.entry(m0[x]));
                assert(w0.tasks()[x] == view_of(w0.entry(m0[x]), m0[x].level, m0[x].slot_index));
                assert(v0[x] == view_of(w0.entry(m0[x]), m0[x].level, m0[x].slot_index));
                assert(v0.contains_key(x));
                assert(due.contains(x));
            }
            if !is_periodic {
                let _ = self.task_index.remove(first_id);
            }
            let ghost np = if is_periodic {
                pend.insert(x)
            } else {
                pend
            };
            proof {
                Self::lemma_detach_ready(before, *self, pend, np, loc);
            }
            let t = self.take_task(loc, Ghost(np));
            let TimerTaskForWheel { task_id, task, .. } = t;
            let (task_type, delay, callback) = task.into_parts();
            proof {
                assert(task_id.value() == x);
                assert(callback == v0[x].callback);
            }
            let ghost kind = task_type;
            let note = match task_type {
                TaskTypeWithCompletionNotifier::Periodic { interval, completion_notifier } => {
                    let note = report_periodic(Ghost(x), interval, &completion_notifier, TaskCompletion::Called);
                    let kept = callback.clone();
                    let again = TimerTaskWithCompletionNotifier::from_parts(
                        TaskTypeWithCompletionNotifier::Periodic { interval, completion_notifier },
                        delay,
                        kept,
                    );
                    periodic_tasks_to_reinsert.push((task_id, again));
                    expired_tasks.push(WheelAdvanceResult { id: task_id, callback });
                    proof {
                        let old_p = pids;
                        old_p.lemma_push_to_set_commute(x);
                        pids = old_p.push(x);
                    }
                    note
                },
                TaskTypeWithCompletionNotifier::OneShot { completion_notifier } => {
                    let note = report_oneshot(Ghost(x), completion_notifier, TaskCompletion::Called);
                    expired_tasks.push(WheelAdvanceResult { id: task_id, callback });
                    note
                },
            };
            proof {
                assert(note@ == Notice { id: x, channel: kind, completion: TaskCompletion::Called });
                assert(kind == v0[x].kind);
                assert(note@ == old(self).notice_for(x, TaskCompletion::Called));
            }
            let ghost pre = *self;
            self.notices = Ghost(self.notices@.push(note@));
            proof {
                Self::lemma_frame_notices(*self, pre);
                assert(old(self).notices() + ns.push(note@) =~= (old(self).notices() + ns).push(note@));
                ns = ns.push(note@);
            }
            proof {
                let old_ids = ids;
                old_ids.lemma_push_to_set_commute(x);
                ids = old_ids.push(x);
                done = done.insert(x);
                pend = np;
            }
        }
        let ghost wd = *self;
        let ghost md = index_contents(self.task_index);
        proof {
            assert(done =~= due) by {
                assert forall|raw: u64| due.contains(raw) implies done.contains(raw) by {
                    if !done.contains(raw) {
                        assert(w0.tasks()[raw] == view_of(w0.entry(m0[raw]), m0[raw].level, m0[raw].slot_index));
                        assert(md.contains_key(raw));
                        assert(!pend.contains(raw));
                        assert(self.valid_loc(md[raw]));
                    }
                }
            }
        }
        let ghost pv = periodic_tasks_to_reinsert@;
        let ghost n = pv.len();
        proof {
            assert(pids.subrange(0, n as int) =~= pids);
        }
        for item in it: periodic_tasks_to_reinsert
            invariant
                self.notices() == old(self).notices() + ns,
                pv == it.seq(),
                n == pv.len(),
                m0 == index_contents(w0.task_index),
                md == index_contents(wd.task_index),
                v0 == w0.tasks(),
                v0 == old(self).tasks(),
                due == old(self).due_next(),
                done == due,
                old(self).can_advance(),
                w0.shape(),
                w0.consistent(Set::empty()),
                w0.same_settings(*old(self)),
                w0.l0.current_tick == old(self).l0.current_tick + 1,
                w0.l1.current_tick == old(self).l1.current_tick,
                self.shape(),
                self.same_settings(w0),
                self.l0.current_tick == w0.l0.current_tick,
                self.l1.current_tick == w0.l1.current_tick,
                self.l1_capacity_ticks == w0.l1_capacity_ticks,
                self.l0_capacity_ms == w0.l0_capacity_ms,
                index_reserved(self.task_index) == index_reserved(w0.task_index),
                index_slot_count(self.task_index) == index_slot_count(w0.task_index),
                forall|raw: u64| #[trigger] pend.contains(raw) <==> done.contains(raw) && v0[raw].interval is Some,
                forall|raw: u64| #[trigger] md.contains_key(raw) <==> m0.contains_key(raw)
                    && !(done.contains(raw) && v0[raw].interval is None),
                index_contents(self.task_index).dom() == md.dom(),
                self.consistent(pids.subrange(it.index() as int, n as int).to_set()),
                forall|raw: u64|
                    #![trigger index_contents(self.task_index)[raw]]
                    m0.contains_key(raw) && !done.contains(raw) ==> self.entry(index_contents(self.task_index)[raw])
                        == w0.entry(m0[raw]) && index_contents(self.task_index)[raw].level == m0[raw].level
                        && index_contents(self.task_index)[raw].slot_index == m0[raw].slot_index,
                forall|j: int|
                    #![trigger pids[j]]
                    0 <= j < it.index() ==> {
                        let loc = index_contents(self.task_index)[pids[j]];
                        let (id, task) = pv[j];
                        view_of(self.entry(loc), loc.level, loc.slot_index) == w0.placed(
                            task.interval_spec().unwrap(),
                            task.kind_spec(),
                            task.delay_spec(),
                            task.callback_spec(),
                        )
                    },
                pids.len() == n,
                pids.no_duplicates(),
                pids.to_set() == pend,
                forall|i: int|
                    0 <= i < pids.len() ==> {
                        let (id, task) = #[trigger] pv[i];
                        &&& pids[i] == id.value()
                        &&& key_owner(id.key()) == index_owner(w0.task_index)
                        &&& task.interval_spec() == v0[pids[i]].interval
                        &&& task.kind_spec() == v0[pids[i]].kind
                        &&& task.delay_spec() == v0[pids[i]].delay
                        &&& option_cloned(v0[pids[i]].callback, task.callback_spec())
                    },
        {
            let (task_id, task) = item;
            let ghost k = it.index() as int;
            proof {
                assert((task_id, task) == pv[k]);
                lemma_subrange_step(pids, k, n as int);
                lemma_suffix_members(pids, k, n as int);
                lemma_suffix_members(pids, k + 1, n as int);
                assert(pend.contains(pids[k]));
                assert(due.contains(pids[k]));
                assert(v0[pids[k]].interval is Some);
                assert(old(self).tasks()[pids[k]].interval is Some);
                assert(old(self).can_place_at(v0[pids[k]].interval.unwrap(), (old(self).l0_tick() + 1) as u64, old(self).l1_tick()));
            }
            let ghost before = *self;
            self.reinsert_periodic_task(task_id, task, Ghost(pids.subrange(k, n as int).to_set()));
            proof {
                let m = index_contents(self.task_index);
                let mb = index_contents(before.task_index);
                let rest = pids.subrange(k, n as int).to_set();
                assert forall|raw: u64|
                    #![trigger m[raw]]
                    m0.contains_key(raw) && !done.contains(raw) implies self.entry(m[raw]) == w0.entry(m0[raw])
                    && m[raw].level == m0[raw].level && m[raw].slot_index == m0[raw].slot_index by {
                    assert(!pend.contains(raw));
                    assert(!rest.contains(raw));
                    assert(mb.contains_key(raw));
                }
                assert forall|j: int|
                    #![trigger pids[j]]
                    0 <= j < k + 1 implies {
                        let loc = m[pids[j]];
                        let (id, task) = pv[j];
                        view_of(self.entry(loc), loc.level, loc.slot_index) == w0.placed(
                            task.interval_spec().unwrap(),
                            task.kind_spec(),
                            task.delay_spec(),
                            task.callback_spec(),
                        )
                    } by {
                    if j < k {
                        assert(!rest.contains(pids[j]));
                        assert(pids.contains(pids[j]));
                        assert(pend.contains(pids[j]));
                        assert(due.contains(pids[j]));
                        assert(v0.contains_key(pids[j]));
                        assert(m0.contains_key(pids[j]));
                        assert(md.contains_key(pids[j]));
                        assert(mb.contains_key(pids[j]));
                    }
                }
            }
        }
        let ghost wr = *self;
        let ghost vr = self.tasks();
        let ghost a0 = old(self).after_l0();
        proof {
            assert(pids.subrange(n as int, n as int).to_set() =~= Set::empty());
            assert(self.consistent(Set::empty()));
            let mr = index_contents(self.task_index);
            assert forall|raw: u64| #[trigger] vr.contains_key(raw) <==> a0.contains_key(raw) by {
                if a0.contains_key(raw) {
                    assert(v0.contains_key(raw));
                }
            }
            assert forall|raw: u64|
                #[trigger] vr.contains_key(raw) implies vr[raw] == with_callback(a0[raw], vr[raw].callback)
                && if due.contains(raw) {
                    option_cloned(v0[raw].callback, vr[raw].callback)
                } else {
                    vr[raw].callback == v0[raw].callback
                } by {
                assert(m0.contains_key(raw));
                assert(v0[raw] == view_of(w0.entry(m0[raw]), m0[raw].level, m0[raw].slot_index));
                if due.contains(raw) {
                    assert(pend.contains(raw));
                    assert(pids.contains(raw));
                    let j = choose|j: int| 0 <= j < pids.len() && pids[j] == raw;
                    assert(pids[j] == raw);
                    let (id, task) = pv[j];
                    let t = v0[raw];
                    assert(task.interval_spec() == t.interval);
                    assert(w0.placed(
                        task.interval_spec().unwrap(),
                        task.kind_spec(),
                        task.delay_spec(),
                        task.callback_spec(),
                    ) == with_callback(
                        old(self).placed_at(
                            t.interval.unwrap(),
                            (old(self).l0_tick() + 1) as u64,
                            old(self).l1_tick(),
                            t.kind,
                            t.delay,
                            t.callback,
                        ),
                        task.callback_spec(),
                    ));
                } else {
                    assert(!done.contains(raw));
                }
            }
        }
        if u64_is_multiple_of(self.l0.current_tick, self.l1_tick_ratio) {
            self.turn_l1();
            proof {
                let vf = self.tasks();
                let target = old(self).after_advance();
                let cur0 = (old(self).l0_tick() + 1) as u64;
                let cur1 = (old(self).l1_tick() + 1) as u64;
                assert(old(self).l1_turns_next());
                assert(target == old(self).after_turn(a0, cur0, cur1));
                assert(vf == wr.after_turn(vr, cur0, cur1));
                assert forall|raw: u64| #[trigger] vf.contains_key(raw) implies vf[raw] == with_callback(
                    target[raw],
                    vf[raw].callback,
                ) && vf[raw].callback == vr[raw].callback by {
                    assert(vr.contains_key(raw));
                    assert(a0.contains_key(raw));
                    assert(vr[raw] == with_callback(a0[raw], vr[raw].callback));
                }
            }
        } else {
            proof {
                assert(!old(self).l1_turns_next());
            }
        }
        proof {
            ids.unique_seq_to_set();
            assert forall|raw: u64| due.contains(raw) implies exists|i: int| 0 <= i < expired_tasks@.len() && (#[trigger] expired_tasks@[i]).id.value() == raw by {
                assert(ids.to_set().contains(raw));
                assert(ids.contains(raw));
                let i = choose|i: int| 0 <= i < ids.len() && ids[i] == raw;
                assert(expired_tasks@[i].id.value() == raw);
            }
            assert forall|i: int, j: int| 0 <= i < j < expired_tasks@.len() implies (#[trigger] expired_tasks@[i]).id.value() != (#[trigger] expired_tasks@[j]).id.value() by {
                assert(ids[i] == expired_tasks@[i].id.value());
                assert(ids[j] == expired_tasks@[j].id.value());
            }
            assert forall|i: int| 0 <= i < expired_tasks@.len() implies due.contains((#[trigger] expired_tasks@[i]).id.value()) by {
                assert(ids[i] == expired_tasks@[i].id.value());
                assert(ids.contains(ids[i]));
            }
            assert forall|raw: u64| #[trigger] self.tasks().contains_key(raw) implies self.tasks()[raw] == with_callback(
                old(self).after_advance()[raw],
                self.tasks()[raw].callback,
            ) by {
                assert(self.tasks()[raw] == with_callback(old(self).after_advance()[raw], self.tasks()[raw].callback));
            }
            assert(self.tasks().dom() == old(self).after_advance().dom());
            assert(old(self).advance_step(*self));
        }
        expired_tasks
    }
}

} // verus!

verus! {

impl<C> Wheel<C> {
    /// In a well-formed wheel no identifier is both reserved by a handle and
    /// held by a task.
    pub proof fn lemma_reserved_not_in_tasks(self)
        requires
            self.wf(),
        ensures
            self.reserved().disjoint(self.tasks().dom()),
    {
        assert(index_wf(self.task_index));
    }
}

} // verus!

verus! {

impl<C> Wheel<C> {
    /// Slots in L1.
    pub fn l1_slot_count(&self) -> (r: usize)
        ensures
            r == self.l1_slots(),
    {
        self.l1.slot_count
    }

    /// L0 ticks per L1 tick.
    pub fn l1_tick_ratio(&self) -> (r: u64)
        ensures
            r == self.ratio(),
    {
        self.l1_tick_ratio
    }

    /// Where the index places a task: its layer, slot and position, or `None`
    /// when the task is not in the wheel.
    pub fn task_location(&self, task_id: TaskId) -> (r: Option<TaskLocation>)
        requires
            self.wf(),
            self.owns(task_id),
        ensures
            r is Some <==> self.tasks().contains_key(task_id.value()),
            r matches Some(loc) ==> loc.level == self.tasks()[task_id.value()].level && loc.slot_index
                == self.tasks()[task_id.value()].slot,
    {
        self.task_index.get(task_id)
    }
}

/// Ticks that differ by less than the slot count, a power of two, fall in
/// different slots.
proof fn lemma_distinct_slots(x: u64, d: u64, m: usize)
    by (bit_vector)
    requires
        (((m + 1) as usize) & m) == 0,
        0 < d,
        d <= m,
        x + d <= 0xffff_ffff_ffff_ffff,
    ensures
        ((x as usize) & m) != ((((x + d) as u64) as usize) & m),
{
}

impl<C> Wheel<C> {
    /// The slot of a task placed in L0 with a delay of `t` ticks is reached by
    /// the advance to the tick `t` ticks ahead, and by none of the advances
    /// before it: a task in L0 comes due exactly when its delay has passed.
    pub proof fn law_l0_due_after_its_ticks(
        self,
        delay: Duration,
        kind: TaskTypeWithCompletionNotifier,
        callback: Option<C>,
        j: u64,
    )
        requires
            self.wf(),
            self.can_place(delay),
            self.layer_for(delay).0 == 0,
            1 <= j < self.layer_for(delay).1,
        ensures
            self.placed(delay, kind, delay, callback).level == 0,
            self.placed(delay, kind, delay, callback).slot == slot_of(
                (self.l0_tick() + self.layer_for(delay).1) as u64,
                self.l0_slots(),
            ),
            slot_of((self.l0_tick() + j) as u64, self.l0_slots()) != self.placed(
                delay,
                kind,
                delay,
                callback,
            ).slot,
    {
        let t = self.layer_for(delay).1;
        let ms = millis_u64(delay);
        let tick = self.l0_tick_ms();
        let n = self.l0_slots();
        assert(ms < self.l0_capacity());
        assert(self.l0_capacity() == n * tick) by {
            assert(self.l0_capacity_ms == self.l0.slot_count * self.l0.tick_duration_ms);
        }
        assert(t < n) by {
            assert(tick > 0);
            if ms / tick >= 1 {
                assert(ms / tick < n) by (nonlinear_arith)
                    requires
                        ms < n * tick,
                        tick > 0,
                ;
            }
        }
        lemma_distinct_slots((self.l0_tick() + j) as u64, (t - j) as u64, self.l0.slot_mask);
        assert(self.l0.slot_mask + 1 == n);
    }
}

impl<C> Wheel<C> {
    /// `next` is what `advance` makes of this wheel, as far as its settings,
    /// its ticks and its tasks go (the callbacks of due periodic tasks being
    /// clones).
    pub open spec fn advance_step(self, next: Self) -> bool {
        &&& next.same_settings(self)
        &&& next.l0_tick() == self.l0_tick() + 1
        &&& next.l1_tick() == if self.l1_turns_next() {
            self.l1_tick() + 1
        } else {
            self.l1_tick() as int
        }
        &&& next.tasks().dom() == self.after_advance().dom()
        &&& forall|raw: u64|
            #[trigger] next.tasks().contains_key(raw) ==> next.tasks()[raw] == with_callback(
                self.after_advance()[raw],
                next.tasks()[raw].callback,
            )
    }

    /// A delay placed in L0 is at most as many ticks as L0 has slots.
    proof fn lemma_l0_ticks_below_slots(self, delay: Duration)
        requires
            self.wf(),
            self.layer_for(delay).0 == 0,
        ensures
            self.layer_for(delay).1 <= self.l0_slots(),
            self.l0_slots() & ((self.l0_slots() - 1) as usize) == 0,
    {
        let ms = millis_u64(delay);
        let tick = self.l0_tick_ms();
        let n = self.l0_slots();
        assert(ms < self.l0_capacity());
        assert(self.l0_capacity() == n * tick) by {
            assert(self.l0_capacity_ms == self.l0.slot_count * self.l0.tick_duration_ms);
        }
        assert(tick > 0);
        assert(n > 0);
        if ms / tick >= 1 {
            assert(ms / tick < n) by (nonlinear_arith)
                requires
                    ms < n * tick,
                    tick > 0,
            ;
        }
        assert(self.l0.wf());
    }

    /// An L0 task due `k` ticks ahead keeps its place through the advances
    /// before the `k`-th: after `j` of them it is still in the wheel, in L0,
    /// in the same slot, and the L0 tick has gone up by `j`.
    proof fn lemma_l0_task_waits(ws: Seq<Self>, raw: u64, k: int, j: int)
        requires
            ws.len() == k,
            1 <= k <= ws[0].l0_slots(),
            ws[0].l0_slots() & ((ws[0].l0_slots() - 1) as usize) == 0,
            ws[0].tasks().contains_key(raw),
            ws[0].tasks()[raw].level == 0,
            ws[0].tasks()[raw].slot == slot_of((ws[0].l0_tick() + k) as u64, ws[0].l0_slots()),
            ws[0].l0_tick() + k <= u64::MAX,
            forall|i: int| 0 <= i < k - 1 ==> (#[trigger] ws[i]).advance_step(ws[i + 1]),
            0 <= j < k,
        ensures
            ws[j].tasks().contains_key(raw),
            ws[j].tasks()[raw].level == 0,
            ws[j].tasks()[raw].slot == ws[0].tasks()[raw].slot,
            ws[j].l0_tick() == ws[0].l0_tick() + j,
            ws[j].l0_slots() == ws[0].l0_slots(),
            j < k - 1 ==> !ws[j].due_next().contains(raw),
            j == k - 1 ==> ws[j].due_next().contains(raw),
        decreases j,
    {
        let n = ws[0].l0_slots();
        let t0 = ws[0].l0_tick();
        if j > 0 {
            Self::lemma_l0_task_waits(ws, raw, k, j - 1);
            let a = ws[j - 1];
            let b = ws[j];
            assert(a.advance_step(b));
            assert(!a.due_next().contains(raw));
            assert(a.after_l0().contains_key(raw));
            assert(a.after_l0()[raw] == a.tasks()[raw]);
            assert(a.after_advance().contains_key(raw));
            assert(a.after_advance()[raw] == a.tasks()[raw]);
            assert(b.tasks().contains_key(raw));
        }
        let w = ws[j];
        assert(w.next_l0_slot() == slot_of((t0 + j + 1) as u64, n));
        if j < k - 1 {
            lemma_distinct_slots((t0 + j + 1) as u64, (k - j - 1) as u64, (n - 1) as usize);
            assert(((n - 1) + 1) as usize == n);
            assert(w.tasks()[raw].slot != w.next_l0_slot());
        } else {
            assert(w.tasks()[raw].slot == w.next_l0_slot());
        }
    }

    /// A task placed in L0 with a delay of `k` ticks comes due exactly at the
    /// `k`-th advance after its placement: given the wheels `ws[0]` (just after
    /// the placement) to `ws[k - 1]`, each what `advance` makes of the one
    /// before, the task is in none of the due sets of the first `k - 1`
    /// advances and in that of the `k`-th, so that advance returns it.
    pub proof fn law_l0_task_comes_due_after_its_ticks(ws: Seq<Self>, raw: u64, delay: Duration)
        requires
            ws.len() == ws[0].layer_for(delay).1,
            ws[0].wf(),
            ws[0].can_place(delay),
            ws[0].layer_for(delay).0 == 0,
            ws[0].tasks().contains_key(raw),
            ws[0].tasks()[raw].level == 0,
            ws[0].tasks()[raw].slot == slot_of(
                (ws[0].l0_tick() + ws[0].layer_for(delay).1) as u64,
                ws[0].l0_slots(),
            ),
            forall|i: int| 0 <= i < ws.len() - 1 ==> (#[trigger] ws[i]).advance_step(ws[i + 1]),
        ensures
            forall|j: int| 0 <= j < ws.len() - 1 ==> !(#[trigger] ws[j]).due_next().contains(raw),
            ws[ws.len() - 1].due_next().contains(raw),
            ws[ws.len() - 1].l0_tick() == ws[0].l0_tick() + ws.len() - 1,
    {
        let k = ws[0].layer_for(delay).1 as int;
        ws[0].lemma_l0_ticks_below_slots(delay);
        assert(k >= 1);
        assert forall|j: int| 0 <= j < ws.len() - 1 implies !(#[trigger] ws[j]).due_next().contains(raw) by {
            Self::lemma_l0_task_waits(ws, raw, k, j);
        }
        Self::lemma_l0_task_waits(ws, raw, k, k - 1);
    }
}

impl<C> Wheel<C> {
    /// An advance takes out of the wheel exactly the one-shot tasks that come
    /// due at it: every other task, periodic tasks that came due included,
    /// stays pending under its identifier, and no task is added.
    pub proof fn law_advance_removes_due_oneshots(self, next: Self)
        requires
            self.advance_step(next),
        ensures
            forall|raw: u64|
                #[trigger] next.tasks().contains_key(raw) <==> self.tasks().contains_key(raw) && !(
                self.due_next().contains(raw) && self.tasks()[raw].interval is None),
    {
        assert forall|raw: u64|
            #[trigger] next.tasks().contains_key(raw) <==> self.tasks().contains_key(raw) && !(
            self.due_next().contains(raw) && self.tasks()[raw].interval is None) by {
            assert(next.tasks().contains_key(raw) <==> self.after_advance().contains_key(raw));
            assert(self.after_advance().contains_key(raw) <==> self.after_l0().contains_key(raw));
        }
    }
}

/// Ticks whole turns apart have the same slot.
proof fn lemma_slot_turns(x: u64, q: nat, n: usize)
    requires
        n > 0,
        n & ((n - 1) as usize) == 0,
        x + q * n <= u64::MAX,
    ensures
        slot_of((x + q * n) as u64, n) == slot_of(x, n),
    decreases q,
{
    if q > 0 {
        assert(x + (q - 1) * n <= x + q * n) by (nonlinear_arith)
            requires
                q > 0,
                n > 0,
        ;
        lemma_slot_turns(x, (q - 1) as nat, n);
        let y = (x + (q - 1) * n) as u64;
        assert(y + n == x + q * n) by (nonlinear_arith)
            requires
                y == x + (q - 1) * n,
        ;
        lemma_slot_turn_n(y, n);
        assert((y + n) as u64 == (x + q * n) as u64);
    } else {
        assert(q * n == 0) by (nonlinear_arith)
            requires
                q == 0,
        ;
        assert((x + q * n) as u64 == x);
    }
}

/// A tick one turn later has the same slot, for any width of `usize`.
proof fn lemma_slot_turn_n(y: u64, n: usize)
    requires
        n > 0,
        n & ((n - 1) as usize) == 0,
        y + n <= u64::MAX,
    ensures
        slot_of((y + n) as u64, n) == slot_of(y, n),
{
    let m = (n - 1) as usize;
    assert(((m + 1) as usize) == n);
    lemma_slot_turn_any(y, m);
}

/// A tick a full turn later has the same slot (any mask width).
proof fn lemma_slot_turn_any(x: u64, m: usize)
    by (bit_vector)
    requires
        (((m + 1) as usize) & m) == 0,
        ((m + 1) as usize) != 0,
        x + m + 1 <= 0xffff_ffff_ffff_ffff,
    ensures
        ((x as usize) & m) == ((((x + m + 1) as u64) as usize) & m),
{
}

/// Two ticks, the first not after the second, share a slot exactly when
/// they are whole turns apart.
proof fn lemma_same_slot(x: u64, d: u64, n: usize)
    requires
        n > 0,
        n & ((n - 1) as usize) == 0,
        x <= d,
    ensures
        (slot_of(x, n) == slot_of(d, n)) <==> ((d - x) as int) % (n as int) == 0,
{
    let q = ((d - x) as int) / (n as int);
    let r = ((d - x) as int) % (n as int);
    vstd::arithmetic::div_mod::lemma_fundamental_div_mod((d - x) as int, n as int);
    assert(d == x + r + q * n);
    assert(0 <= r < n);
    assert(q >= 0) by (nonlinear_arith)
        requires
            q == ((d - x) as int) / (n as int),
            n > 0,
            d - x >= 0,
    ;
    let xr = (x + r) as u64;
    lemma_slot_turns(xr, q as nat, n);
    assert((xr + q * n) as u64 == d);
    if r > 0 {
        lemma_distinct_slots(x, r as u64, (n - 1) as usize);
        assert(((n - 1) + 1) as usize == n);
    }
}

/// One tick less to a deadline `q` ticks away: the full turns left drop by
/// one exactly when `q` is a whole number of turns.
proof fn lemma_rounds_step(q: int, n: int)
    requires
        q >= 1,
        n > 0,
    ensures
        q % n == 0 ==> q / n >= 1 && (q - 1) / n == q / n - 1,
        q % n != 0 ==> (q - 1) / n == q / n,
{
    vstd::arithmetic::div_mod::lemma_fundamental_div_mod(q, n);
    let a = q / n;
    let b = q % n;
    assert(q == n * a + b);
    if b == 0 {
        assert(a >= 1) by (nonlinear_arith)
            requires
                q == n * a,
                q >= 1,
                n > 0,
        ;
        assert(q - 1 == (a - 1) * n + (n - 1)) by (nonlinear_arith)
            requires
                q == n * a + b,
                b == 0,
        ;
        vstd::arithmetic::div_mod::lemma_fundamental_div_mod_converse(q - 1, n, a - 1, n - 1);
    } else {
        assert(q - 1 == a * n + (b - 1)) by (nonlinear_arith)
            requires
                q == n * a + b,
        ;
        vstd::arithmetic::div_mod::lemma_fundamental_div_mod_converse(q - 1, n, a, b - 1);
    }
}

/// The L1 tick counts the whole L1 periods of the L0 tick: after one more
/// L0 tick, L1 turns exactly when the new L0 tick is a multiple of the ratio,
/// and the count still holds.
proof fn lemma_l1_tick_step(l0: int, l1: int, r: int)
    requires
        r > 0,
        l1 * r <= l0 < (l1 + 1) * r,
    ensures
        (l0 + 1) % r == 0 ==> l0 + 1 == (l1 + 1) * r,
        (l0 + 1) % r == 0 ==> (l1 + 1) * r <= l0 + 1 < (l1 + 2) * r,
        (l0 + 1) % r != 0 ==> l1 * r <= l0 + 1 < (l1 + 1) * r,
{
    vstd::arithmetic::div_mod::lemma_fundamental_div_mod(l0 + 1, r);
    let a = (l0 + 1) / r;
    let b = (l0 + 1) % r;
    assert(l0 + 1 == r * a + b);
    if b == 0 {
        assert(l0 + 1 == a * r) by (nonlinear_arith)
            requires
                l0 + 1 == r * a + b,
                b == 0,
        ;
        assert(a == l1 + 1) by (nonlinear_arith)
            requires
                l1 * r <= l0 < (l1 + 1) * r,
                l0 + 1 == a * r,
                r > 0,
        ;
        assert((l1 + 2) * r == (l1 + 1) * r + r) by (nonlinear_arith);
    } else {
        if l0 + 1 == (l1 + 1) * r {
            vstd::arithmetic::div_mod::lemma_fundamental_div_mod_converse(l0 + 1, r, l1 + 1, 0);
        }
        assert(l0 + 1 != (l1 + 1) * r);
    }
}

impl<C> Wheel<C> {
    /// The state of an L1 task waiting for its deadline `d` (an L1 tick),
    /// `j` advances after the first of the wheels `ws`.
    spec fn l1_task_waits_at(ws: Seq<Self>, raw: u64, d: int, j: int) -> bool {
        let w = ws[j];
        let x = w.l1_tick() as int;
        &&& w.same_settings(ws[0])
        &&& w.l0_tick() == ws[0].l0_tick() + j
        &&& x * w.ratio() <= w.l0_tick() < (x + 1) * w.ratio()
        &&& x < d
        &&& w.tasks().contains_key(raw)
        &&& w.tasks()[raw].level == 1
        &&& w.tasks()[raw].slot == ws[0].tasks()[raw].slot
        &&& w.tasks()[raw].deadline_tick == d
        &&& w.tasks()[raw].rounds == (d - x - 1) / (w.l1_slots() as int)
    }

    /// An L1 task stays in L1, one round less at each turn of L1 onto its
    /// slot, until L1 turns to its deadline; that turn, at L0 tick
    /// `d * ratio`, moves it to the L0 slot of the tick after.
    proof fn lemma_l1_task_waits(ws: Seq<Self>, raw: u64, d: int, j: int)
        requires
            ws[0].wf(),
            ws[0].tasks().contains_key(raw),
            ws[0].tasks()[raw].level == 1,
            ws[0].tasks()[raw].slot == slot_of(d as u64, ws[0].l1_slots()),
            ws[0].tasks()[raw].deadline_tick == d,
            ws[0].l1_tick() < d,
            ws[0].tasks()[raw].rounds == (d - ws[0].l1_tick() - 1) / (ws[0].l1_slots() as int),
            ws[0].l1_tick() * ws[0].ratio() <= ws[0].l0_tick() < (ws[0].l1_tick() + 1) * ws[0].ratio(),
            d * ws[0].ratio() + 1 <= u64::MAX,
            ws.len() == d * ws[0].ratio() - ws[0].l0_tick() + 1,
            forall|i: int| 0 <= i < ws.len() - 1 ==> (#[trigger] ws[i]).advance_step(ws[i + 1]),
            0 <= j < ws.len(),
        ensures
            j < ws.len() - 1 ==> Self::l1_task_waits_at(ws, raw, d, j),
            j == ws.len() - 1 ==> {
                &&& ws[j].same_settings(ws[0])
                &&& ws[j].l0_tick() == d * ws[0].ratio()
                &&& ws[j].tasks().contains_key(raw)
                &&& ws[j].tasks()[raw].level == 0
                &&& ws[j].tasks()[raw].slot == slot_of((d * ws[0].ratio() + 1) as u64, ws[0].l0_slots())
            },
        decreases j,
    {
        let r = ws[0].ratio() as int;
        let n1 = ws[0].l1_slots();
        let n = ws.len() - 1;
        assert(ws[0].shape());
        assert(r > 0);
        assert(n1 > 0 && n1 & ((n1 - 1) as usize) == 0) by {
            assert(ws[0].l1.wf());
        }
        if j == 0 {
            assert(d * r >= (ws[0].l1_tick() + 1) * r) by (nonlinear_arith)
                requires
                    ws[0].l1_tick() < d,
                    r > 0,
            ;
        } else {
            Self::lemma_l1_task_waits(ws, raw, d, j - 1);
            let a = ws[j - 1];
            let b = ws[j];
            assert(a.advance_step(b));
            let x = a.l1_tick() as int;
            let l0 = a.l0_tick() as int;
            assert(Self::l1_task_waits_at(ws, raw, d, j - 1));
            assert(a.ratio() == r);
            lemma_l1_tick_step(l0, x, r);
            let t = a.tasks()[raw];
            assert(!a.due_next().contains(raw));
            assert(a.after_l0().contains_key(raw));
            assert(a.after_l0()[raw] == t);
            assert(b.tasks().contains_key(raw));
            assert(l0 + 1 <= d * r);
            assert(((l0 + 1) as u64) as int == l0 + 1);
            assert(a.l1_turns_next() <==> (l0 + 1) % r == 0);
            if (l0 + 1) % r == 0 {
                let x1 = x + 1;
                let s1 = slot_of(x1 as u64, n1);
                assert(a.after_advance() == a.after_turn(a.after_l0(), (l0 + 1) as u64, x1 as u64));
                if x1 > d {
                    vstd::arithmetic::mul::lemma_mul_inequality(d + 1, x1, r);
                    assert((d + 1) * r == d * r + r) by (nonlinear_arith);
                }
                assert(x1 <= d);
                lemma_same_slot(x1 as u64, d as u64, n1);
                lemma_rounds_step(d - x - 1 + (if x1 == d { 1int } else { 0int }), n1 as int);
                if x1 == d {
                    assert(t.slot == s1);
                    assert(t.rounds == 0);
                    assert(l0 + 1 == d * r);
                    assert(j == n);
                } else {
                    lemma_rounds_step(d - x1, n1 as int);
                    assert(j < n) by (nonlinear_arith)
                        requires
                            l0 + 1 == (x + 1) * r,
                            x + 1 < d,
                            r > 0,
                            j == l0 + 1 - ws[0].l0_tick(),
                            n == d * r - ws[0].l0_tick(),
                    ;
                    if t.slot == s1 {
                        assert((d - x1) % (n1 as int) == 0);
                    } else {
                        assert((d - x1) % (n1 as int) != 0);
                    }
                }
            } else {
                assert(a.after_advance() == a.after_l0());
                assert(j < n) by (nonlinear_arith)
                    requires
                        l0 + 1 < (x + 1) * r,
                        x < d,
                        r > 0,
                        j == l0 + 1 - ws[0].l0_tick(),
                        n == d * r - ws[0].l0_tick(),
                ;
            }
        }
    }

    /// A task in L1 comes due at the advance after the one at which L1 turns
    /// to its deadline: given the wheels `ws[0]` to `ws[N]`, each what
    /// `advance` makes of the one before, where `N` advances bring the L0 tick
    /// to the task's deadline in L0 ticks, the task waits in L1 (so no advance
    /// before returns it) and is in the due set of `ws[N]`, so the next
    /// advance, to the L0 tick after its deadline, returns it. The task's
    /// record is as placement leaves it: its deadline `d` in L1 ticks, the slot
    /// of `d`, and the full turns of L1 between the first visit of that slot and
    /// `d` as its rounds; the L1 tick counts the whole L1 periods of the L0
    /// tick, as it does in every wheel that `Wheel::new` made.
    pub proof fn law_l1_task_comes_due_after_its_deadline(ws: Seq<Self>, raw: u64, d: int)
        requires
            ws[0].wf(),
            ws[0].tasks().contains_key(raw),
            ws[0].tasks()[raw].level == 1,
            ws[0].tasks()[raw].slot == slot_of(d as u64, ws[0].l1_slots()),
            ws[0].tasks()[raw].deadline_tick == d,
            ws[0].l1_tick() < d,
            ws[0].tasks()[raw].rounds == (d - ws[0].l1_tick() - 1) / (ws[0].l1_slots() as int),
            ws[0].l1_tick() * ws[0].ratio() <= ws[0].l0_tick() < (ws[0].l1_tick() + 1) * ws[0].ratio(),
            d * ws[0].ratio() + 1 <= u64::MAX,
            ws.len() == d * ws[0].ratio() - ws[0].l0_tick() + 1,
            forall|i: int| 0 <= i < ws.len() - 1 ==> (#[trigger] ws[i]).advance_step(ws[i + 1]),
        ensures
            forall|j: int| 0 <= j < ws.len() - 1 ==> !(#[trigger] ws[j]).due_next().contains(raw),
            ws[ws.len() - 1].due_next().contains(raw),
            ws[ws.len() - 1].l0_tick() == d * ws[0].ratio(),
    {
        let n = ws.len() - 1;
        assert(d * ws[0].ratio() >= (ws[0].l1_tick() + 1) * ws[0].ratio()) by (nonlinear_arith)
            requires
                ws[0].l1_tick() < d,
                ws[0].ratio() >= 0,
        ;
        assert forall|j: int| 0 <= j < ws.len() - 1 implies !(#[trigger] ws[j]).due_next().contains(raw) by {
            Self::lemma_l1_task_waits(ws, raw, d, j);
        }
        Self::lemma_l1_task_waits(ws, raw, d, n);
        let w = ws[n];
        assert(w.next_l0_slot() == slot_of((d * ws[0].ratio() + 1) as u64, ws[0].l0_slots()));
    }
}

impl<C> Wheel<C> {
    /// The L1 tick counts the whole L1 periods of the L0 tick: `Wheel::new`
    /// starts both at 0, and an advance keeps the count.
    pub proof fn law_advance_keeps_l1_count(self, next: Self)
        requires
            self.wf(),
            self.advance_step(next),
            self.l1_tick() * self.ratio() <= self.l0_tick() < (self.l1_tick() + 1) * self.ratio(),
            self.l0_tick() + 1 <= u64::MAX,
        ensures
            next.l1_tick() * next.ratio() <= next.l0_tick() < (next.l1_tick() + 1) * next.ratio(),
    {
        assert(self.shape());
        let r = self.ratio() as int;
        lemma_l1_tick_step(self.l0_tick() as int, self.l1_tick() as int, r);
        assert(((self.l0_tick() + 1) as u64) as int == self.l0_tick() + 1);
    }
}

impl<C> Wheel<C> {
    /// Every delay placed in L1 is placed to wait for its deadline: `t` L1
    /// ticks ahead, in the slot of that tick, with as rounds the full turns of
    /// L1 between its first visit of that slot and the deadline. That is the
    /// record that `law_l1_task_comes_due_after_its_deadline` takes, so a task
    /// placed in L1 comes due only when L1 reaches its deadline tick.
    pub proof fn law_l1_placement_waits_for_its_deadline(
        self,
        delay: Duration,
        kind: TaskTypeWithCompletionNotifier,
        task_delay: Duration,
        callback: Option<C>,
    )
        requires
            self.wf(),
            self.can_place(delay),
            self.layer_for(delay).0 == 1,
            (self.layer_for(delay).1 - 1) / (self.l1_slots() as int) <= u32::MAX,
        ensures
            self.layer_for(delay).1 >= 1,
            self.placed(delay, kind, task_delay, callback).level == 1,
            self.placed(delay, kind, task_delay, callback).deadline_tick == self.l1_tick() + self.layer_for(delay).1,
            self.placed(delay, kind, task_delay, callback).slot == slot_of(
                self.placed(delay, kind, task_delay, callback).deadline_tick,
                self.l1_slots(),
            ),
            self.placed(delay, kind, task_delay, callback).rounds == (self.placed(
                delay,
                kind,
                task_delay,
                callback,
            ).deadline_tick - self.l1_tick() - 1) / (self.l1_slots() as int),
    {
        let t = self.layer_for(delay).1;
        let n = self.l1_slots();
        assert(self.l1.wf());
        assert(n > 0);
        if t < n {
            assert((t - 1) / (n as int) == 0) by (nonlinear_arith)
                requires
                    1 <= t < n,
            ;
        }
    }

    /// A postponed task is placed as `insert` places a task of the same
    /// delay now, with its kind and its (possibly replaced) callback: the new
    /// delay counts from the current ticks, and in L1 the task waits for its
    /// deadline through the same rounds.
    pub proof fn law_postpone_places_like_insert(self, raw: u64, new_delay: Duration, new_callback: Option<C>)
        requires
            self.wf(),
            self.tasks().contains_key(raw),
            self.can_place(new_delay),
        ensures
            self.postponed(raw, new_delay, new_callback) == self.placed(
                new_delay,
                self.tasks()[raw].kind,
                new_delay,
                replaced_callback(self.tasks()[raw].callback, new_callback),
            ),
            self.layer_for(new_delay).0 == 1 && (self.layer_for(new_delay).1 - 1) / (self.l1_slots() as int)
                <= u32::MAX ==> self.postponed(raw, new_delay, new_callback).rounds == (self.postponed(
                raw,
                new_delay,
                new_callback,
            ).deadline_tick - self.l1_tick() - 1) / (self.l1_slots() as int),
    {
        if self.layer_for(new_delay).0 == 1 && (self.layer_for(new_delay).1 - 1) / (self.l1_slots() as int) <= u32::MAX {
            self.law_l1_placement_waits_for_its_deadline(
                new_delay,
                self.tasks()[raw].kind,
                new_delay,
                replaced_callback(self.tasks()[raw].callback, new_callback),
            );
        }
    }
}

} // verus!
