//! Timer tasks, their identifiers and the channels that report how they end.

use crate::num::{is_power_of_two, NonZeroUsize};
use deferred_map::{DefaultKey, Key};
use lite_sync::oneshot::lite::State;
use lite_sync::spsc;
use std::time::Duration;
use vstd::prelude::*;

verus! {

const ONESHOT_PENDING: u8 = 0;

const ONESHOT_CALLED: u8 = 1;

const ONESHOT_CANCELLED: u8 = 2;

const ONESHOT_CLOSED: u8 = 3;

const ONESHOT_RECEIVER_CLOSED: u8 = 4;

/// How a task ended: its deadline came, or it was cancelled.
#[derive(Debug, Clone, Copy, PartialEq, Eq, Structural)]
pub enum TaskCompletion {
    /// The task's deadline came.
    Called,
    /// The task was cancelled.
    Cancelled,
}

/// The byte that stands for each completion in a one-shot channel.
pub open spec fn completion_code(c: TaskCompletion) -> u8 {
    match c {
        TaskCompletion::Called => 1,
        TaskCompletion::Cancelled => 2,
    }
}

/// Encoding a completion as a byte loses nothing: distinct completions have
/// distinct codes, and neither code is the pending, closed or
/// receiver-closed byte of the channel; so decoding gives back what was
/// encoded.
pub proof fn law_completion_code_round_trip(a: TaskCompletion, b: TaskCompletion)
    ensures
        completion_code(a) == completion_code(b) ==> a == b,
        completion_code(a) != 0 && completion_code(a) != 3 && completion_code(a) != 4,
{
}

impl State for TaskCompletion {
    fn to_u8(&self) -> (r: u8)
        ensures
            r == completion_code(*self),
    {
        match self {
            TaskCompletion::Called => ONESHOT_CALLED,
            TaskCompletion::Cancelled => ONESHOT_CANCELLED,
        }
    }

    fn from_u8(value: u8) -> (r: Option<Self>)
        ensures
            r matches Some(c) ==> completion_code(c) == value,
            r is None <==> value != 1 && value != 2,
    {
        if value == ONESHOT_CALLED {
            Some(TaskCompletion::Called)
        } else if value == ONESHOT_CANCELLED {
            Some(TaskCompletion::Cancelled)
        } else {
            None
        }
    }

    fn pending_value() -> (r: u8)
        ensures
            r == 0,
    {
        ONESHOT_PENDING
    }

    fn closed_value() -> (r: u8)
        ensures
            r == 3,
    {
        ONESHOT_CLOSED
    }

    fn receiver_closed_value() -> (r: u8)
        ensures
            r == 4,
    {
        ONESHOT_RECEIVER_CLOSED
    }
}

/// The number that a `DefaultKey` packs (generation and slot index).
pub uninterp spec fn key_raw(k: DefaultKey) -> u64;

/// The map that issued a `DefaultKey`.
pub uninterp spec fn key_owner(k: DefaultKey) -> u64;

/// Calls `Key::raw`, which returns the number that the key packs.
#[verifier::external_body]
fn default_key_raw(k: &DefaultKey) -> (r: u64)
    ensures
        r == key_raw(*k),
{
    k.raw()
}

/// Identifier of a timer task: the key that the wheel's index issued for it.
#[derive(Debug, Clone, Copy, PartialEq, Eq, Hash)]
pub struct TaskId(pub(crate) DefaultKey);

impl TaskId {
    /// The key inside.
    pub closed spec fn key(self) -> DefaultKey {
        self.0
    }

    /// The numeric value of the identifier.
    pub open spec fn value(self) -> u64 {
        key_raw(self.key())
    }

    /// The numeric value of the identifier.
    pub fn raw(&self) -> (r: u64)
        ensures
            r == self.value(),
    {
        default_key_raw(&self.0)
    }
}

/// Kind of a timer task.
#[derive(Clone, Debug)]
pub enum TaskType {
    /// Runs once.
    OneShot,
    /// Runs again every `interval`.
    Periodic {
        /// Time between runs.
        interval: Duration,
        /// Capacity of the channel that reports each run.
        buffer_size: NonZeroUsize,
    },
}

/// A timer task as users create it, before it enters a wheel.
pub struct TimerTask<C> {
    pub(crate) task_type: TaskType,
    pub(crate) delay: Duration,
    pub(crate) callback: Option<C>,
}

impl<C> TimerTask<C> {
    /// The kind of the task.
    pub closed spec fn kind(self) -> TaskType {
        self.task_type
    }

    /// The delay before the first run.
    pub closed spec fn first_delay(self) -> Duration {
        self.delay
    }

    /// The callback.
    pub closed spec fn task_callback(self) -> Option<C> {
        self.callback
    }

    /// A task that runs once, `delay` from when it is inserted.
    pub fn new_oneshot(delay: Duration, callback: Option<C>) -> (r: Self)
        ensures
            r.kind() is OneShot,
            r.first_delay() == delay,
            r.task_callback() == callback,
    {
        TimerTask { task_type: TaskType::OneShot, delay, callback }
    }

    /// A task that runs first after `initial_delay` and then every `interval`;
    /// its report channel holds `buffer_size` completions, 32 when none is given.
    pub fn new_periodic(
        initial_delay: Duration,
        interval: Duration,
        callback: Option<C>,
        buffer_size: Option<NonZeroUsize>,
    ) -> (r: Self)
        ensures
            r.first_delay() == initial_delay,
            r.task_callback() == callback,
            r.kind() matches TaskType::Periodic { interval: i, buffer_size: b } && i == interval
                && b.value() == (match buffer_size {
                Some(s) => s.value(),
                None => 32,
            }),
    {
        let size = match buffer_size {
            Some(s) => s,
            None => NonZeroUsize::new(32).unwrap(),
        };
        TimerTask {
            task_type: TaskType::Periodic { interval, buffer_size: size },
            delay: initial_delay,
            callback,
        }
    }

    /// The kind of the task.
    pub fn get_task_type(&self) -> (r: &TaskType)
        ensures
            *r == self.kind(),
    {
        &self.task_type
    }

    /// The interval of a periodic task; `None` for a one-shot task.
    pub fn get_interval(&self) -> (r: Option<Duration>)
        ensures
            r == interval_of(self.kind()),
    {
        match &self.task_type {
            TaskType::Periodic { interval, .. } => Some(*interval),
            TaskType::OneShot => None,
        }
    }
}

/// The interval of a task kind: `None` for a one-shot task.
pub open spec fn interval_of(t: TaskType) -> Option<Duration> {
    match t {
        TaskType::Periodic { interval, .. } => Some(interval),
        TaskType::OneShot => None,
    }
}

/// Where a task sits in the wheel: its layer, its slot, and its index in the slot.
#[derive(Debug, Clone, Copy, PartialEq, Eq, Structural)]
pub struct TaskLocation {
    /// Slot index.
    pub slot_index: usize,
    /// Index of the task in the slot's vector.
    pub vec_index: usize,
    /// Layer: 0 = L0 (lower), 1 = L1 (upper).
    pub level: u8,
}

impl TaskLocation {
    /// A location with the given layer, slot and index.
    pub fn new(level: u8, slot_index: usize, vec_index: usize) -> (r: Self)
        ensures
            r == (TaskLocation { slot_index, vec_index, level }),
    {
        TaskLocation { slot_index, vec_index, level }
    }
}

/// `lite_sync::spsc::Sender`: the sending half of a bounded single-producer channel.
#[verifier::external_type_specification]
#[verifier::external_body]
#[verifier::reject_recursive_types(T)]
pub struct ExSpscSender<T, const N: usize>(spsc::Sender<T, N>);

/// `lite_sync::spsc::Receiver`: the receiving half of a bounded single-producer channel.
#[verifier::external_type_specification]
#[verifier::external_body]
#[verifier::reject_recursive_types(T)]
pub struct ExSpscReceiver<T, const N: usize>(spsc::Receiver<T, N>);

/// `lite_sync::spsc::TryRecvError`: why a non-blocking receive got nothing.
#[verifier::external_type_specification]
#[verifier::external_body]
pub struct ExSpscTryRecvError(spsc::TryRecvError);

/// The sending half of a one-shot completion channel
/// (`lite_sync::oneshot::lite::Sender<TaskCompletion>`), kept behind this opaque
/// struct since that type is generic over an outside trait.
#[verifier::external_body]
pub struct OneShotNotifier {
    pub sender: lite_sync::oneshot::lite::Sender<TaskCompletion>,
}

/// The receiving half of a one-shot completion channel
/// (`lite_sync::oneshot::lite::Receiver<TaskCompletion>`); await `receiver` to
/// learn how the task ended.
#[verifier::external_body]
pub struct OneShotReceiver {
    pub receiver: lite_sync::oneshot::lite::Receiver<TaskCompletion>,
}

/// The notifier and the receiver are the two halves of one one-shot channel:
/// what the notifier sends, the receiver is the one to get.
pub uninterp spec fn oneshot_paired(s: OneShotNotifier, r: OneShotReceiver) -> bool;

/// Calls `lite_sync::oneshot::lite::channel`, which makes a sender and a
/// receiver sharing one fresh channel state; claimed: the two are paired.
#[verifier::external_body]
fn oneshot_channel() -> (r: (OneShotNotifier, OneShotReceiver))
    ensures
        oneshot_paired(r.0, r.1),
{
    let (sender, receiver) = lite_sync::oneshot::lite::channel();
    (OneShotNotifier { sender }, OneShotReceiver { receiver })
}

/// What a notifier did with a completion: the completion it handed to the
/// channel, and whether the channel took it (a closed or full channel gives
/// it back).
pub struct Handoff {
    pub completion: TaskCompletion,
    pub accepted: bool,
}

impl OneShotNotifier {
    /// Calls `Sender::send` with `completion` to report how the task ended.
    /// `send` gives the value back in `Err` when the receiver is closed or
    /// dropped. Claimed: the completion handed to `send` is `completion`;
    /// whether the channel took it is left open, as it rests on the receiver.
    #[verifier::external_body]
    pub fn notify(self, completion: TaskCompletion) -> (r: Handoff)
        ensures
            r.completion == completion,
    {
        match self.sender.send(completion) {
            Ok(()) => Handoff { completion, accepted: true },
            Err(v) => Handoff { completion: v, accepted: false },
        }
    }
}

/// Sending half of a periodic task's completion channel.
pub struct PeriodicCompletionNotifier(pub spsc::Sender<TaskCompletion, 32>);

/// Receiving half of a periodic task's completion channel.
pub struct PeriodicCompletionReceiver(pub spsc::Receiver<TaskCompletion, 32>);

/// The sender and the receiver are the two halves of one bounded channel:
/// what the sender sends, the receiver is the one to get.
pub uninterp spec fn periodic_paired(
    s: spsc::Sender<TaskCompletion, 32>,
    r: spsc::Receiver<TaskCompletion, 32>,
) -> bool;

/// The number of completions that a bounded channel holds, as
/// `Receiver::capacity` reports it; fixed when the channel is made.
pub uninterp spec fn periodic_capacity(r: spsc::Receiver<TaskCompletion, 32>) -> usize;

/// `c` is the capacity of a ring buffer asked for `n` slots: the smallest
/// power of two that is at least `n`.
pub open spec fn rounded_capacity(n: usize, c: usize) -> bool {
    is_power_of_two(c) && n <= c && c < 2 * n
}

/// Calls `lite_sync::spsc::channel` with the given capacity, which makes a
/// sender and a receiver sharing one ring buffer of `capacity` rounded up to a
/// power of two (`smallring`'s `RingBufCore::new`). Claimed: the two are
/// paired, and the receiver's capacity is that power of two. Capacities above
/// a quarter of the address space are left out: the rounding overflows or the
/// buffer's allocation fails there.
#[verifier::external_body]
fn periodic_channel(capacity: NonZeroUsize) -> (r: (PeriodicCompletionNotifier, PeriodicCompletionReceiver))
    requires
        capacity.value() <= usize::MAX / 4 + 1,
    ensures
        periodic_paired((r.0).0, (r.1).0),
        rounded_capacity(capacity.value(), periodic_capacity((r.1).0)),
{
    let (tx, rx) = spsc::channel(std::num::NonZeroUsize::new(capacity.value).unwrap());
    (PeriodicCompletionNotifier(tx), PeriodicCompletionReceiver(rx))
}

impl PeriodicCompletionNotifier {
    /// Calls `Sender::try_send` with `completion` to report one run. A full
    /// or closed channel gives the value back in `Err`. Claimed: the
    /// completion handed to `try_send` is `completion`; whether the channel
    /// took it is left open, as it rests on the receiver.
    #[verifier::external_body]
    pub fn notify(&self, completion: TaskCompletion) -> (r: Handoff)
        ensures
            r.completion == completion,
    {
        match self.0.try_send(completion) {
            Ok(()) => Handoff { completion, accepted: true },
            Err(spsc::TrySendError::Full(v)) => Handoff { completion: v, accepted: false },
            Err(spsc::TrySendError::Closed(v)) => Handoff { completion: v, accepted: false },
        }
    }
}

impl PeriodicCompletionReceiver {
    /// Calls `Receiver::try_recv`: the next reported completion, if one is there.
    #[verifier::external_body]
    pub fn try_recv(&mut self) -> Result<TaskCompletion, spsc::TryRecvError> {
        self.0.try_recv()
    }
}

/// The sending half of a task's completion channel.
pub enum CompletionNotifier {
    OneShot(OneShotNotifier),
    Periodic(PeriodicCompletionNotifier),
}

/// The receiving half of a task's completion channel.
pub enum CompletionReceiver {
    OneShot(OneShotReceiver),
    Periodic(PeriodicCompletionReceiver),
}

/// Kind of a task in the wheel, with the channel that reports its completions.
pub enum TaskTypeWithCompletionNotifier {
    /// Runs once.
    OneShot { completion_notifier: OneShotNotifier },
    /// Runs again every `interval`.
    Periodic { interval: Duration, completion_notifier: PeriodicCompletionNotifier },
}

/// The receiver gets what the task's notifier sends: the two are the halves
/// of one channel, of the task's kind.
pub open spec fn reports_to(kind: TaskTypeWithCompletionNotifier, rx: CompletionReceiver) -> bool {
    match kind {
        TaskTypeWithCompletionNotifier::OneShot { completion_notifier } => match rx {
            CompletionReceiver::OneShot(r) => oneshot_paired(completion_notifier, r),
            CompletionReceiver::Periodic(_) => false,
        },
        TaskTypeWithCompletionNotifier::Periodic { completion_notifier, .. } => match rx {
            CompletionReceiver::Periodic(r) => periodic_paired(completion_notifier.0, r.0),
            CompletionReceiver::OneShot(_) => false,
        },
    }
}

impl TaskTypeWithCompletionNotifier {
    /// The interval of a periodic task; `None` for a one-shot task.
    pub open spec fn interval_spec(self) -> Option<Duration> {
        match self {
            TaskTypeWithCompletionNotifier::Periodic { interval, .. } => Some(interval),
            TaskTypeWithCompletionNotifier::OneShot { .. } => None,
        }
    }

    /// The interval of a periodic task; `None` for a one-shot task.
    pub fn get_interval(&self) -> (r: Option<Duration>)
        ensures
            r == self.interval_spec(),
    {
        match self {
            TaskTypeWithCompletionNotifier::Periodic { interval, .. } => Some(*interval),
            TaskTypeWithCompletionNotifier::OneShot { .. } => None,
        }
    }
}

/// A timer task ready for the wheel: its kind with its completion channel, its
/// delay and its callback.
pub struct TimerTaskWithCompletionNotifier<C> {
    pub(crate) task_type: TaskTypeWithCompletionNotifier,
    pub(crate) delay: Duration,
    pub(crate) callback: Option<C>,
}

impl<C> TimerTaskWithCompletionNotifier<C> {
    /// The interval of a periodic task; `None` for a one-shot task.
    pub open spec fn interval_spec(self) -> Option<Duration> {
        self.kind_spec().interval_spec()
    }

    /// The delay before the task's first deadline.
    pub closed spec fn delay_spec(self) -> Duration {
        self.delay
    }

    /// The callback.
    pub closed spec fn callback_spec(self) -> Option<C> {
        self.callback
    }

    /// Makes the completion channel of a task and returns the task for the
    /// wheel with the receiving half: a one-shot channel for a one-shot task, a
    /// channel of `buffer_size` completions for a periodic one.
    pub fn from_timer_task(task: TimerTask<C>) -> (r: (Self, CompletionReceiver))
        requires
            task.kind() matches TaskType::Periodic { buffer_size, .. } ==> buffer_size.value() <= usize::MAX / 4 + 1,
        ensures
            r.0.interval_spec() == interval_of(task.kind()),
            r.0.delay_spec() == task.first_delay(),
            r.0.callback_spec() == task.task_callback(),
            r.1 is OneShot <==> task.kind() is OneShot,
            reports_to(r.0.kind_spec(), r.1),
            task.kind() matches TaskType::Periodic { buffer_size, .. } ==> (r.1 matches CompletionReceiver::Periodic(rx)
                && rounded_capacity(buffer_size.value(), periodic_capacity(rx.0))),
    {
        match task.task_type {
            TaskType::OneShot => {
                let (notifier, receiver) = oneshot_channel();
                (
                    TimerTaskWithCompletionNotifier {
                        task_type: TaskTypeWithCompletionNotifier::OneShot {
                            completion_notifier: notifier,
                        },
                        delay: task.delay,
                        callback: task.callback,
                    },
                    CompletionReceiver::OneShot(receiver),
                )
            },
            TaskType::Periodic { interval, buffer_size } => {
                let (notifier, receiver) = periodic_channel(buffer_size);
                (
                    TimerTaskWithCompletionNotifier {
                        task_type: TaskTypeWithCompletionNotifier::Periodic {
                            interval,
                            completion_notifier: notifier,
                        },
                        delay: task.delay,
                        callback: task.callback,
                    },
                    CompletionReceiver::Periodic(receiver),
                )
            },
        }
    }

    /// The kind of the task with its completion channel.
    pub fn into_task_type(self) -> (r: TaskTypeWithCompletionNotifier)
        ensures
            r == self.kind_spec(),
            r.interval_spec() == self.interval_spec(),
    {
        self.task_type
    }

    /// The interval of a periodic task; `None` for a one-shot task.
    pub fn get_interval(&self) -> (r: Option<Duration>)
        ensures
            r == self.interval_spec(),
    {
        self.task_type.get_interval()
    }
}

impl<C> TimerTaskWithCompletionNotifier<C> {
    /// The kind of the task with its channel.
    pub closed spec fn kind_spec(self) -> TaskTypeWithCompletionNotifier {
        self.task_type
    }

    /// A task for the wheel from its parts.
    pub fn from_parts(task_type: TaskTypeWithCompletionNotifier, delay: Duration, callback: Option<C>) -> (r: Self)
        ensures
            r.kind_spec() == task_type,
            r.interval_spec() == task_type.interval_spec(),
            r.delay_spec() == delay,
            r.callback_spec() == callback,
    {
        TimerTaskWithCompletionNotifier { task_type, delay, callback }
    }

    /// The task's parts: its kind with its channel, its delay and its callback.
    pub fn into_parts(self) -> (r: (TaskTypeWithCompletionNotifier, Duration, Option<C>))
        ensures
            r.0 == self.kind_spec(),
            r.0.interval_spec() == self.interval_spec(),
            r.1 == self.delay_spec(),
            r.2 == self.callback_spec(),
    {
        (self.task_type, self.delay, self.callback)
    }

    /// The delay before the task's first deadline.
    pub fn delay(&self) -> (r: Duration)
        ensures
            r == self.delay_spec(),
    {
        self.delay
    }

    /// Whether the task is periodic.
    pub fn is_periodic(&self) -> (r: bool)
        ensures
            r == self.interval_spec().is_some(),
    {
        match &self.task_type {
            TaskTypeWithCompletionNotifier::Periodic { .. } => true,
            TaskTypeWithCompletionNotifier::OneShot { .. } => false,
        }
    }

    /// Replaces the delay.
    pub fn set_delay(&mut self, delay: Duration)
        ensures
            final(self).delay_spec() == delay,
            final(self).kind_spec() == old(self).kind_spec(),
            final(self).interval_spec() == old(self).interval_spec(),
            final(self).callback_spec() == old(self).callback_spec(),
    {
        self.delay = delay;
    }

    /// Replaces the callback.
    pub fn set_callback(&mut self, callback: C)
        ensures
            final(self).callback_spec() == Some(callback),
            final(self).kind_spec() == old(self).kind_spec(),
            final(self).interval_spec() == old(self).interval_spec(),
            final(self).delay_spec() == old(self).delay_spec(),
    {
        self.callback = Some(callback);
    }
}

} // verus!
