//! Laws of the timing wheel that relate several of its operations.

use crate::index::{handle_key, TaskHandle};
use crate::task::{key_raw, TaskCompletion, TaskId, TimerTaskWithCompletionNotifier};
use crate::wheel::{Notice, TaskView, Wheel, WheelAdvanceResult};
use std::time::Duration;
use vstd::prelude::*;

verus! {

/// A task inserted with a fresh handle and then cancelled by its identifier is
/// found by the cancellation, and the wheel holds the same tasks as before the
/// insertion.
pub proof fn law_cancel_after_insert<C>(
    w0: Wheel<C>,
    w1: Wheel<C>,
    w2: Wheel<C>,
    h: TaskHandle,
    task: TimerTaskWithCompletionNotifier<C>,
    found: bool,
)
    requires
        w0.wf(),
        w0.handle_is_fresh(h),
        w1.tasks() == w0.tasks().insert(
            key_raw(handle_key(h)),
            w0.placed(task.delay_spec(), task.kind_spec(), task.delay_spec(), task.callback_spec()),
        ),
        found == w1.tasks().contains_key(key_raw(handle_key(h))),
        w2.tasks() == w1.tasks().remove(key_raw(handle_key(h))),
    ensures
        found,
        w2.tasks() == w0.tasks(),
{
    w0.lemma_reserved_not_in_tasks();
    assert(!w0.tasks().contains_key(key_raw(handle_key(h))));
    assert(w2.tasks() =~= w0.tasks());
}

/// Cancelling the same task twice: the second cancellation finds nothing and
/// changes nothing.
pub proof fn law_cancel_twice<C>(w0: Wheel<C>, w1: Wheel<C>, w2: Wheel<C>, raw: u64, second: bool)
    requires
        w1.tasks() == w0.tasks().remove(raw),
        second == w1.tasks().contains_key(raw),
        w2.tasks() == w1.tasks().remove(raw),
    ensures
        !second,
        w2.tasks() == w1.tasks(),
{
    assert(w2.tasks() =~= w1.tasks());
}

/// Postponing keeps a task in the wheel under its identifier, so a later
/// cancellation by that identifier finds it and leaves the other tasks as
/// they were before the postponement.
pub proof fn law_cancel_after_postpone<C>(
    w0: Wheel<C>,
    w1: Wheel<C>,
    w2: Wheel<C>,
    raw: u64,
    v: TaskView<C>,
    postponed: bool,
    found: bool,
)
    requires
        postponed == w0.tasks().contains_key(raw),
        w1.tasks() == (if postponed {
            w0.tasks().insert(raw, v)
        } else {
            w0.tasks()
        }),
        found == w1.tasks().contains_key(raw),
        w2.tasks() == w1.tasks().remove(raw),
    ensures
        found == postponed,
        w2.tasks() == w0.tasks().remove(raw),
{
    assert(w2.tasks() =~= w0.tasks().remove(raw));
}

/// The tasks left, and the reports made, when the tasks numbered `raws` are
/// cancelled one at a time, in order, from the tasks `v`, each as
/// `Wheel::cancel` does it: a task in the wheel leaves it and its channel gets
/// `Cancelled`; a number not in the wheel changes nothing.
pub open spec fn cancel_each<C>(v: Map<u64, TaskView<C>>, raws: Seq<u64>) -> (Map<u64, TaskView<C>>, Seq<Notice>)
    decreases raws.len(),
{
    if raws.len() == 0 {
        (v, Seq::empty())
    } else {
        let (v1, ns1) = cancel_each(v, raws.drop_last());
        let raw = raws.last();
        if v1.contains_key(raw) {
            (
                v1.remove(raw),
                ns1.push(Notice { id: raw, channel: v1[raw].kind, completion: TaskCompletion::Cancelled }),
            )
        } else {
            (v1, ns1)
        }
    }
}

/// Cancelling a list of tasks one by one leaves the tasks that
/// `Wheel::cancel_batch` leaves (all but the listed ones), and reports
/// `Cancelled` exactly once to each listed task that was in the wheel, on its
/// channel, as `cancel_batch` does; only the order of the reports may differ.
pub proof fn law_cancel_each_is_cancel_batch<C>(w: Wheel<C>, raws: Seq<u64>)
    ensures
        cancel_each(w.tasks(), raws).0 == w.tasks().remove_keys(raws.to_set()),
        w.cancel_notices(cancel_each(w.tasks(), raws).1, w.tasks().dom().intersect(raws.to_set())),
    decreases raws.len(),
{
    let v = w.tasks();
    if raws.len() == 0 {
        assert(raws.to_set() =~= Set::empty());
        assert(v.remove_keys(Set::empty()) =~= v);
        assert(v.dom().intersect(Set::empty()) =~= Set::empty());
        w.lemma_cancel_notices_empty();
    } else {
        let p = raws.drop_last();
        let raw = raws.last();
        law_cancel_each_is_cancel_batch(w, p);
        assert(raws =~= p.push(raw));
        p.lemma_push_to_set_commute(raw);
        let (v1, ns1) = cancel_each(v, p);
        if v1.contains_key(raw) {
            assert(!p.to_set().contains(raw));
            assert(v1[raw] == v[raw]);
            w.lemma_cancel_notices_push(ns1, v.dom().intersect(p.to_set()), raw);
            assert(v.dom().intersect(raws.to_set()) =~= v.dom().intersect(p.to_set()).insert(raw));
            assert(v1.remove(raw) =~= v.remove_keys(raws.to_set()));
        } else {
            assert(v.dom().intersect(raws.to_set()) =~= v.dom().intersect(p.to_set()));
            assert(v1 =~= v.remove_keys(raws.to_set()));
        }
    }
}

/// A one-shot task is reported to once: the tasks that an advance reports
/// `Called` to come due at it, and those of them that are one-shot leave the
/// wheel with that report, so no later advance or cancellation can report to
/// them again.
pub proof fn law_oneshot_leaves_with_its_report<C>(w0: Wheel<C>, w1: Wheel<C>, r: Seq<WheelAdvanceResult<C>>)
    requires
        forall|i: int| 0 <= i < r.len() ==> w0.due_next().contains((#[trigger] r[i]).id.value()),
        w1.tasks().dom() == w0.after_advance().dom(),
    ensures
        forall|i: int|
            0 <= i < r.len() && w0.tasks()[(#[trigger] r[i]).id.value()].interval is None
                ==> !w1.tasks().contains_key(r[i].id.value()),
{
    assert forall|i: int|
        0 <= i < r.len() && w0.tasks()[(#[trigger] r[i]).id.value()].interval is None
            implies !w1.tasks().contains_key(r[i].id.value()) by {
        let raw = r[i].id.value();
        assert(w0.due_next().contains(raw));
        assert(!w0.after_l0().contains_key(raw));
        if w0.l1_turns_next() {
            assert(!w0.after_advance().contains_key(raw));
        }
    }
}

/// `b` is what `Wheel::insert` makes of `a` with the handle `h` and the task
/// `t`: same settings and ticks, and the task added, placed from the ticks.
pub open spec fn insert_step<C>(a: Wheel<C>, b: Wheel<C>, h: TaskHandle, t: TimerTaskWithCompletionNotifier<C>) -> bool {
    &&& b.same_settings(a)
    &&& b.l0_tick() == a.l0_tick()
    &&& b.l1_tick() == a.l1_tick()
    &&& b.tasks() == a.tasks().insert(
        key_raw(handle_key(h)),
        a.placed(t.delay_spec(), t.kind_spec(), t.delay_spec(), t.callback_spec()),
    )
}

/// After `j` single inserts the wheel holds what a batch insert of the first
/// `j` handles and tasks gives, with the first wheel's settings and ticks.
proof fn lemma_insert_each<C>(
    ws: Seq<Wheel<C>>,
    handles: Seq<TaskHandle>,
    tasks: Seq<TimerTaskWithCompletionNotifier<C>>,
    j: int,
)
    requires
        handles.len() == tasks.len(),
        ws.len() == handles.len() + 1,
        forall|i: int| 0 <= i < handles.len() ==> insert_step(#[trigger] ws[i], ws[i + 1], handles[i], tasks[i]),
        0 <= j <= handles.len(),
    ensures
        ws[j].tasks() == ws[0].batch_inserted(handles.take(j), tasks.take(j)),
        ws[j].same_settings(ws[0]),
        ws[j].l0_tick() == ws[0].l0_tick(),
        ws[j].l1_tick() == ws[0].l1_tick(),
    decreases j,
{
    if j == 0 {
        assert(handles.take(0).len() == 0);
    } else {
        lemma_insert_each(ws, handles, tasks, j - 1);
        assert(insert_step(ws[j - 1], ws[j], handles[j - 1], tasks[j - 1]));
        assert(handles.take(j).drop_last() =~= handles.take(j - 1));
        assert(tasks.take(j).drop_last() =~= tasks.take(j - 1));
        assert(handles.take(j).last() == handles[j - 1]);
        assert(tasks.take(j).last() == tasks[j - 1]);
    }
}

/// Inserting tasks one by one, each with its handle and in order, leaves the
/// tasks that `Wheel::insert_batch` leaves for the same handles and tasks:
/// every task placed from the same ticks.
pub proof fn law_insert_each_is_insert_batch<C>(
    ws: Seq<Wheel<C>>,
    handles: Seq<TaskHandle>,
    tasks: Seq<TimerTaskWithCompletionNotifier<C>>,
)
    requires
        handles.len() == tasks.len(),
        ws.len() == handles.len() + 1,
        forall|i: int| 0 <= i < handles.len() ==> insert_step(#[trigger] ws[i], ws[i + 1], handles[i], tasks[i]),
    ensures
        ws[handles.len() as int].tasks() == ws[0].batch_inserted(handles, tasks),
{
    let n = handles.len() as int;
    lemma_insert_each(ws, handles, tasks, n);
    assert(handles.take(n) =~= handles);
    assert(tasks.take(n) =~= tasks);
}

/// `b` is what `Wheel::postpone` makes of `a` for the identifier `id`, the
/// delay `d` and no new callback: same settings and ticks, and the task, if
/// there, placed again from the ticks with its callback.
pub open spec fn postpone_step<C>(a: Wheel<C>, b: Wheel<C>, id: TaskId, d: Duration) -> bool {
    &&& b.same_settings(a)
    &&& b.l0_tick() == a.l0_tick()
    &&& b.l1_tick() == a.l1_tick()
    &&& b.tasks() == if a.tasks().contains_key(id.value()) {
        a.tasks().insert(id.value(), a.postponed(id.value(), d, None))
    } else {
        a.tasks()
    }
}

/// After `j` single postponements: the same identifiers are in the wheel,
/// kinds and callbacks are kept, unlisted tasks are untouched, each listed
/// task that was there has the record of its last postponement so far, and
/// `j`'s count of found tasks is the batch's count of the first `j` updates.
proof fn lemma_postpone_each<C>(ws: Seq<Wheel<C>>, updates: Seq<(TaskId, Duration)>, j: int)
    requires
        ws.len() == updates.len() + 1,
        forall|i: int| 0 <= i < updates.len() ==> postpone_step(#[trigger] ws[i], ws[i + 1], updates[i].0, updates[i].1),
        0 <= j <= updates.len(),
    ensures
        ws[j].same_settings(ws[0]),
        ws[j].l0_tick() == ws[0].l0_tick(),
        ws[j].l1_tick() == ws[0].l1_tick(),
        ws[j].tasks().dom() == ws[0].tasks().dom(),
        forall|raw: u64|
            #![trigger ws[j].tasks()[raw]]
            ws[j].tasks().contains_key(raw) ==> ws[j].tasks()[raw].callback == ws[0].tasks()[raw].callback
                && ws[j].tasks()[raw].kind == ws[0].tasks()[raw].kind,
        forall|raw: u64|
            #![trigger ws[j].tasks()[raw]]
            ws[j].tasks().contains_key(raw) && (forall|i: int| 0 <= i < j ==> (#[trigger] updates[i]).0.value() != raw)
                ==> ws[j].tasks()[raw] == ws[0].tasks()[raw],
        forall|i: int|
            #![trigger updates[i]]
            0 <= i < j && ws[0].tasks().contains_key(updates[i].0.value()) && (forall|k: int|
                i < k < j ==> (#[trigger] updates[k]).0.value() != updates[i].0.value()) ==> ws[j].tasks()[updates[i].0.value()]
                == ws[0].postponed(updates[i].0.value(), updates[i].1, None),
    decreases j,
{
    if j > 0 {
        lemma_postpone_each(ws, updates, j - 1);
        let a = ws[j - 1];
        let b = ws[j];
        let (id, d) = updates[j - 1];
        let raw = id.value();
        assert(postpone_step(a, b, id, d));
        if a.tasks().contains_key(raw) {
            assert(a.postponed(raw, d, None) == ws[0].postponed(raw, d, None)) by {
                assert(a.tasks()[raw].callback == ws[0].tasks()[raw].callback);
                assert(a.tasks()[raw].kind == ws[0].tasks()[raw].kind);
            }
        }
        assert forall|i: int|
            #![trigger updates[i]]
            0 <= i < j && ws[0].tasks().contains_key(updates[i].0.value()) && (forall|k: int|
                i < k < j ==> (#[trigger] updates[k]).0.value() != updates[i].0.value()) implies b.tasks()[updates[i].0.value()]
                == ws[0].postponed(updates[i].0.value(), updates[i].1, None) by {
            if i < j - 1 {
                assert(updates[j - 1].0.value() != updates[i].0.value());
            }
        }
    }
}

/// Postponing tasks one by one, in order, with no new callback, leaves what
/// `Wheel::postpone_batch` leaves for the same updates: the same identifiers,
/// kinds and callbacks kept, unlisted tasks untouched, and each listed task
/// that was in the wheel placed by its last listed delay from the ticks. Each
/// single postponement finds its task exactly when the task was in the first
/// wheel, which is what the batch counts (`postponed_count`).
pub proof fn law_postpone_each_is_postpone_batch<C>(ws: Seq<Wheel<C>>, updates: Seq<(TaskId, Duration)>)
    requires
        ws.len() == updates.len() + 1,
        forall|i: int| 0 <= i < updates.len() ==> postpone_step(#[trigger] ws[i], ws[i + 1], updates[i].0, updates[i].1),
    ensures
        forall|i: int|
            0 <= i < updates.len() ==> (#[trigger] ws[i]).tasks().contains_key(updates[i].0.value())
                == ws[0].tasks().contains_key(updates[i].0.value()),
        ws[updates.len() as int].tasks().dom() == ws[0].tasks().dom(),
        forall|raw: u64|
            #![trigger ws[updates.len() as int].tasks()[raw]]
            ws[updates.len() as int].tasks().contains_key(raw) && (forall|i: int|
                0 <= i < updates.len() ==> (#[trigger] updates[i]).0.value() != raw) ==> ws[updates.len() as int].tasks()[raw]
                == ws[0].tasks()[raw],
        forall|i: int|
            #![trigger updates[i]]
            0 <= i < updates.len() && ws[0].tasks().contains_key(updates[i].0.value()) && (forall|k: int|
                i < k < updates.len() ==> (#[trigger] updates[k]).0.value() != updates[i].0.value())
                ==> ws[updates.len() as int].tasks()[updates[i].0.value()] == ws[0].postponed(
                updates[i].0.value(),
                updates[i].1,
                None,
            ),
{
    lemma_postpone_each(ws, updates, updates.len() as int);
    assert forall|i: int|
        0 <= i < updates.len() implies (#[trigger] ws[i]).tasks().contains_key(updates[i].0.value())
            == ws[0].tasks().contains_key(updates[i].0.value()) by {
        lemma_postpone_each(ws, updates, i);
    }
}

} // verus!
