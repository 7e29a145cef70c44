use std::collections::HashSet;
use std::time::Duration;
use veloq::config::{BatchConfig, WheelConfig};
use veloq::error::TimerError;
use veloq::num::NonZeroUsize;
use veloq::task::{
    CompletionReceiver, TaskCompletion, TaskId, TaskTypeWithCompletionNotifier, TimerTask, TimerTaskWithCompletionNotifier,
};
use veloq::wheel::Wheel;

fn default_wheel() -> Wheel<u32> {
    Wheel::new(WheelConfig::default(), BatchConfig::default())
}

fn insert_oneshot(wheel: &mut Wheel<u32>, delay: Duration, callback: u32) -> (TaskId, CompletionReceiver) {
    let task = TimerTask::new_oneshot(delay, Some(callback));
    let (task_with_notifier, rx) = TimerTaskWithCompletionNotifier::from_timer_task(task);
    let handle = wheel.allocate_handle();
    let task_id = handle.task_id();
    wheel.insert(handle, task_with_notifier);
    (task_id, rx)
}

#[test]
fn test_wheel_creation() {
    let wheel = default_wheel();
    assert_eq!(wheel.slot_count(), 512);
    assert_eq!(wheel.current_tick(), 0);
    assert!(wheel.is_empty());
}

#[test]
fn test_hierarchical_wheel_creation() {
    let config = WheelConfig::default();
    let wheel: Wheel<u32> = Wheel::new(config, BatchConfig::default());
    assert_eq!(wheel.slot_count(), 512);
    assert_eq!(wheel.current_tick(), 0);
    assert!(wheel.is_empty());
    assert_eq!(wheel.l1_slot_count(), 64);
    assert_eq!(wheel.l1_tick_ratio(), 100);
}

#[test]
fn test_layer_determination() {
    let wheel = default_wheel();

    let (level, _, rounds) = wheel.determine_layer(Duration::from_millis(100));
    assert_eq!(level, 0);
    assert_eq!(rounds, 0);

    let (level, _, rounds) = wheel.determine_layer(Duration::from_secs(10));
    assert_eq!(level, 1);
    assert_eq!(rounds, 0);

    let (level, _, rounds) = wheel.determine_layer(Duration::from_secs(120));
    assert_eq!(level, 1);
    assert!(rounds > 0);
}

#[test]
fn test_hierarchical_insert_and_advance() {
    let mut wheel = default_wheel();
    let (task_id, _rx) = insert_oneshot(&mut wheel, Duration::from_millis(100), 1);

    let location = wheel.task_location(task_id).unwrap();
    assert_eq!(location.level, 0);

    for _ in 0..10 {
        let expired = wheel.advance();
        if !expired.is_empty() {
            assert_eq!(expired.len(), 1);
            assert_eq!(expired[0].id, task_id);
            return;
        }
    }
    panic!("Task should have expired");
}

#[test]
fn test_cross_layer_cancel() {
    let mut wheel = default_wheel();
    let (task_id1, _rx1) = insert_oneshot(&mut wheel, Duration::from_millis(100), 1);
    let (task_id2, _rx2) = insert_oneshot(&mut wheel, Duration::from_secs(10), 2);

    assert_eq!(wheel.task_location(task_id1).unwrap().level, 0);
    assert_eq!(wheel.task_location(task_id2).unwrap().level, 1);

    assert!(wheel.cancel(task_id1));
    assert!(wheel.task_location(task_id1).is_none());

    assert!(wheel.cancel(task_id2));
    assert!(wheel.task_location(task_id2).is_none());

    assert!(wheel.is_empty());
}

#[test]
fn test_delay_to_ticks() {
    let wheel = default_wheel();
    assert_eq!(wheel.delay_to_ticks(Duration::from_millis(100)), 10);
    assert_eq!(wheel.delay_to_ticks(Duration::from_millis(50)), 5);
    assert_eq!(wheel.delay_to_ticks(Duration::from_millis(1)), 1);
}

#[test]
fn test_minimum_delay() {
    let mut wheel = default_wheel();
    let (task_id, _rx) = insert_oneshot(&mut wheel, Duration::from_millis(1), 1);

    let expired = wheel.advance();
    assert_eq!(expired.len(), 1, "Minimum delay task should be triggered after 1 tick");
    assert_eq!(expired[0].id, task_id);
}

#[test]
fn test_advance_empty_slots() {
    let mut wheel = default_wheel();
    for _ in 0..100 {
        let expired = wheel.advance();
        assert!(expired.is_empty(), "Empty slots should not return any tasks");
    }
    assert_eq!(wheel.current_tick(), 100, "current_tick should correctly increment");
}

#[test]
fn test_slot_boundary() {
    let mut wheel = default_wheel();
    let (task_id_1, _rx1) = insert_oneshot(&mut wheel, Duration::from_millis(10), 1);
    let (task_id_2, _rx2) = insert_oneshot(&mut wheel, Duration::from_millis(5110), 2);

    let expired = wheel.advance();
    assert_eq!(expired.len(), 1, "First task should trigger on tick 1");
    assert_eq!(expired[0].id, task_id_1);

    let mut triggered = false;
    for i in 0..510 {
        let expired = wheel.advance();
        if !expired.is_empty() {
            assert_eq!(expired.len(), 1, "The {}th advance should trigger the second task", i + 2);
            assert_eq!(expired[0].id, task_id_2);
            triggered = true;
            break;
        }
    }
    assert!(triggered, "Second task should trigger on tick 511");
    assert!(wheel.is_empty(), "All tasks should have been triggered");
}

#[test]
fn test_task_id_uniqueness() {
    let mut wheel = default_wheel();
    let mut task_ids = HashSet::new();
    for i in 0..100 {
        let (task_id, _rx) = insert_oneshot(&mut wheel, Duration::from_millis(100), i);
        assert!(task_ids.insert(task_id), "TaskId should be unique");
    }
    assert_eq!(task_ids.len(), 100);
}

#[test]
fn insert_then_cancel_restores_the_wheel() {
    let mut wheel = default_wheel();
    let (task_id, rx) = insert_oneshot(&mut wheel, Duration::from_millis(300), 7);
    assert!(!wheel.is_empty());
    assert!(wheel.cancel(task_id));
    assert!(wheel.is_empty());
    match rx {
        CompletionReceiver::OneShot(mut r) => assert_eq!(r.receiver.try_recv().ok(), Some(TaskCompletion::Cancelled)),
        CompletionReceiver::Periodic(_) => panic!("expected a one-shot channel"),
    }
}

#[test]
fn cancel_twice_finds_nothing_the_second_time() {
    let mut wheel = default_wheel();
    let (task_id, _rx) = insert_oneshot(&mut wheel, Duration::from_millis(300), 7);
    assert!(wheel.cancel(task_id));
    assert!(!wheel.cancel(task_id));
}

#[test]
fn due_task_reports_called_and_its_callback() {
    let mut wheel = default_wheel();
    let (task_id, rx) = insert_oneshot(&mut wheel, Duration::from_millis(20), 42);
    assert!(wheel.advance().is_empty());
    let expired = wheel.advance();
    assert_eq!(expired.len(), 1);
    assert_eq!(expired[0].id, task_id);
    assert_eq!(expired[0].callback, Some(42));
    assert!(wheel.is_empty());
    match rx {
        CompletionReceiver::OneShot(mut r) => assert_eq!(r.receiver.try_recv().ok(), Some(TaskCompletion::Called)),
        CompletionReceiver::Periodic(_) => panic!("expected a one-shot channel"),
    }
}

#[test]
fn periodic_task_fires_every_interval_and_stays() {
    let mut wheel = default_wheel();
    let task = TimerTask::new_periodic(
        Duration::from_millis(10),
        Duration::from_millis(30),
        Some(5u32),
        Some(NonZeroUsize::new(8).unwrap()),
    );
    let (task_with_notifier, rx) = TimerTaskWithCompletionNotifier::from_timer_task(task);
    let handle = wheel.allocate_handle();
    let task_id = handle.task_id();
    wheel.insert(handle, task_with_notifier);

    let expired = wheel.advance();
    assert_eq!(expired.len(), 1);
    assert_eq!(expired[0].id, task_id);
    assert!(!wheel.is_empty());
    assert!(wheel.advance().is_empty());
    assert!(wheel.advance().is_empty());
    let expired = wheel.advance();
    assert_eq!(expired.len(), 1);
    assert_eq!(expired[0].callback, Some(5));
    match rx {
        CompletionReceiver::Periodic(mut r) => {
            assert_eq!(r.try_recv().ok(), Some(TaskCompletion::Called));
            assert_eq!(r.try_recv().ok(), Some(TaskCompletion::Called));
            assert!(r.try_recv().is_err());
        }
        CompletionReceiver::OneShot(_) => panic!("expected a periodic channel"),
    }
    assert!(wheel.cancel(task_id));
    assert!(wheel.is_empty());
}

#[test]
fn l1_task_moves_down_and_fires_after_its_delay() {
    let mut wheel = default_wheel();
    let (task_id, _rx) = insert_oneshot(&mut wheel, Duration::from_secs(10), 9);
    assert_eq!(wheel.task_location(task_id).unwrap().level, 1);
    for _ in 0..1000 {
        assert!(wheel.advance().is_empty());
    }
    assert_eq!(wheel.task_location(task_id).unwrap().level, 0);
    let expired = wheel.advance();
    assert_eq!(expired.len(), 1);
    assert_eq!(expired[0].id, task_id);
    assert_eq!(wheel.current_tick(), 1001);
}

#[test]
fn long_task_waits_its_rounds_in_l1() {
    let mut wheel = default_wheel();
    let (task_id, _rx) = insert_oneshot(&mut wheel, Duration::from_secs(70), 3);
    let (level, ticks, rounds) = wheel.determine_layer(Duration::from_secs(70));
    assert_eq!((level, ticks, rounds), (1, 70, 1));
    for _ in 0..6400 {
        assert!(wheel.advance().is_empty());
    }
    assert_eq!(wheel.task_location(task_id).unwrap().level, 1);
}

#[test]
fn postpone_keeps_the_identifier() {
    let mut wheel = default_wheel();
    let (task_id, _rx) = insert_oneshot(&mut wheel, Duration::from_millis(20), 1);
    assert!(wheel.postpone(task_id, Duration::from_millis(50), Some(2)));
    for _ in 0..4 {
        assert!(wheel.advance().is_empty());
    }
    let expired = wheel.advance();
    assert_eq!(expired.len(), 1);
    assert_eq!(expired[0].id, task_id);
    assert_eq!(expired[0].callback, Some(2));
    assert!(!wheel.postpone(task_id, Duration::from_millis(50), None));
}

#[test]
fn postpone_moves_between_layers() {
    let mut wheel = default_wheel();
    let (task_id, _rx) = insert_oneshot(&mut wheel, Duration::from_millis(20), 1);
    assert_eq!(wheel.task_location(task_id).unwrap().level, 0);
    assert!(wheel.postpone(task_id, Duration::from_secs(20), None));
    assert_eq!(wheel.task_location(task_id).unwrap().level, 1);
    assert!(wheel.cancel(task_id));
}

#[test]
fn postpone_batch_counts_the_tasks_found() {
    let mut wheel = default_wheel();
    let (a, _ra) = insert_oneshot(&mut wheel, Duration::from_millis(20), 1);
    let (b, _rb) = insert_oneshot(&mut wheel, Duration::from_millis(30), 2);
    assert!(wheel.cancel(b));
    let n = wheel.postpone_batch(vec![(a, Duration::from_millis(40)), (b, Duration::from_millis(40))]);
    assert_eq!(n, 1);
    let n = wheel.postpone_batch_with_callbacks(vec![(a, Duration::from_millis(10), Some(9))]);
    assert_eq!(n, 1);
    let expired = wheel.advance();
    assert_eq!(expired.len(), 1);
    assert_eq!(expired[0].callback, Some(9));
}

#[test]
fn insert_batch_rejects_mismatched_lengths() {
    let mut wheel = default_wheel();
    let handles = wheel.allocate_handles(2);
    let task = TimerTask::new_oneshot(Duration::from_millis(10), Some(1u32));
    let (t, _rx) = TimerTaskWithCompletionNotifier::from_timer_task(task);
    match wheel.insert_batch(handles, vec![t]) {
        Err(TimerError::BatchLengthMismatch { handles_len, tasks_len }) => {
            assert_eq!(handles_len, 2);
            assert_eq!(tasks_len, 1);
        }
        _ => panic!("expected BatchLengthMismatch"),
    }
    assert!(wheel.is_empty());
}

#[test]
fn insert_batch_inserts_each_pair() {
    let mut wheel = default_wheel();
    let handles = wheel.allocate_handles(3);
    let ids: Vec<TaskId> = handles.iter().map(|h| h.task_id()).collect();
    let mut tasks = Vec::new();
    let mut receivers = Vec::new();
    for i in 0..3u32 {
        let task = TimerTask::new_oneshot(Duration::from_millis(10 * (i as u64 + 1)), Some(i));
        let (t, rx) = TimerTaskWithCompletionNotifier::from_timer_task(task);
        tasks.push(t);
        receivers.push(rx);
    }
    assert!(wheel.insert_batch(handles, tasks).is_ok());
    for i in 0..3 {
        let expired = wheel.advance();
        assert_eq!(expired.len(), 1);
        assert_eq!(expired[0].id, ids[i]);
        assert_eq!(expired[0].callback, Some(i as u32));
    }
    assert!(wheel.is_empty());
}

#[test]
fn cancel_batch_small_counts_distinct_tasks() {
    let mut wheel = default_wheel();
    let (a, _ra) = insert_oneshot(&mut wheel, Duration::from_millis(20), 1);
    let (b, _rb) = insert_oneshot(&mut wheel, Duration::from_secs(20), 2);
    let (c, _rc) = insert_oneshot(&mut wheel, Duration::from_millis(40), 3);
    let n = wheel.cancel_batch(&[a, b, a]);
    assert_eq!(n, 2);
    assert!(wheel.task_location(c).is_some());
    assert!(wheel.task_location(a).is_none());
    assert!(wheel.task_location(b).is_none());
}

#[test]
fn cancel_batch_large_groups_by_slot() {
    let mut wheel = default_wheel();
    let mut ids = Vec::new();
    let mut receivers = Vec::new();
    for i in 0..30u32 {
        let delay = if i % 3 == 0 {
            Duration::from_secs(10 + (i as u64 % 2))
        } else {
            Duration::from_millis(20 + 10 * (i as u64 % 4))
        };
        let (id, rx) = insert_oneshot(&mut wheel, delay, i);
        ids.push(id);
        receivers.push(rx);
    }
    let mut to_cancel: Vec<TaskId> = ids.iter().step_by(2).copied().collect();
    to_cancel.push(ids[0]);
    to_cancel.push(ids[2]);
    let n = wheel.cancel_batch(&to_cancel);
    assert_eq!(n, 15);
    for (i, id) in ids.iter().enumerate() {
        assert_eq!(wheel.task_location(*id).is_some(), i % 2 == 1);
    }
    let n = wheel.cancel_batch(&ids);
    assert_eq!(n, 15);
    assert!(wheel.is_empty());
}

#[test]
fn cancel_batch_large_of_absent_tasks_cancels_nothing() {
    let mut wheel = default_wheel();
    let mut ids = Vec::new();
    for i in 0..12u32 {
        let (id, _rx) = insert_oneshot(&mut wheel, Duration::from_millis(30), i);
        ids.push(id);
    }
    assert_eq!(wheel.cancel_batch(&ids), 12);
    assert_eq!(wheel.cancel_batch(&ids), 0);
}

#[test]
fn task_of_one_full_l1_turn_fires_after_its_delay() {
    let mut wheel = default_wheel();
    let (task_id, _rx) = insert_oneshot(&mut wheel, Duration::from_secs(64), 5);
    assert_eq!(wheel.determine_layer(Duration::from_secs(64)), (1, 64, 0));
    for _ in 0..6400 {
        assert!(wheel.advance().is_empty());
    }
    let expired = wheel.advance();
    assert_eq!(wheel.current_tick(), 6401);
    assert_eq!(expired.len(), 1);
    assert_eq!(expired[0].id, task_id);
}

#[test]
fn task_of_two_full_l1_turns_waits_one_round() {
    let wheel = default_wheel();
    assert_eq!(wheel.determine_layer(Duration::from_secs(128)), (1, 128, 1));
    assert_eq!(wheel.determine_layer(Duration::from_secs(129)), (1, 129, 2));
}

#[test]
fn cancel_batch_reports_cancelled_to_each_cancelled_task() {
    let mut wheel = default_wheel();
    let mut ids = Vec::new();
    let mut receivers = Vec::new();
    for k in 0..12u32 {
        let (id, rx) = insert_oneshot(&mut wheel, Duration::from_millis(20 + 10 * k as u64), k);
        ids.push(id);
        receivers.push(rx);
    }
    let long = insert_oneshot(&mut wheel, Duration::from_secs(30), 99);
    ids.push(long.0);
    receivers.push(long.1);
    ids.push(ids[0]);
    assert_eq!(wheel.cancel_batch(&ids), 13);
    assert!(wheel.is_empty());
    for rx in receivers {
        match rx {
            CompletionReceiver::OneShot(mut r) => assert_eq!(r.receiver.try_recv().ok(), Some(TaskCompletion::Cancelled)),
            CompletionReceiver::Periodic(_) => panic!("expected a one-shot channel"),
        }
    }
}

#[test]
fn postpone_reports_nothing() {
    let mut wheel = default_wheel();
    let (task_id, rx) = insert_oneshot(&mut wheel, Duration::from_millis(20), 1);
    assert!(wheel.postpone(task_id, Duration::from_millis(100), None));
    match rx {
        CompletionReceiver::OneShot(mut r) => {
            assert!(r.receiver.try_recv().is_err());
            assert!(wheel.cancel(task_id));
            assert_eq!(r.receiver.try_recv().ok(), Some(TaskCompletion::Cancelled));
        }
        CompletionReceiver::Periodic(_) => panic!("expected a one-shot channel"),
    }
}

#[test]
fn periodic_channel_holds_the_buffer_size_rounded_up() {
    let task: TimerTask<u32> =
        TimerTask::new_periodic(Duration::from_millis(10), Duration::from_millis(10), None, NonZeroUsize::new(5));
    let (_task, rx) = TimerTaskWithCompletionNotifier::from_timer_task(task);
    match rx {
        CompletionReceiver::Periodic(r) => assert_eq!(r.0.capacity(), 8),
        CompletionReceiver::OneShot(_) => panic!("expected a periodic channel"),
    }
}

#[test]
fn notify_hands_over_the_completion_it_is_given() {
    let task: TimerTask<u32> = TimerTask::new_oneshot(Duration::from_millis(10), None);
    let (task, rx) = TimerTaskWithCompletionNotifier::from_timer_task(task);
    let (kind, _, _) = task.into_parts();
    match (kind, rx) {
        (TaskTypeWithCompletionNotifier::OneShot { completion_notifier }, CompletionReceiver::OneShot(mut r)) => {
            let handed = completion_notifier.notify(TaskCompletion::Cancelled);
            assert_eq!(handed.completion, TaskCompletion::Cancelled);
            assert!(handed.accepted);
            assert_eq!(r.receiver.try_recv().ok(), Some(TaskCompletion::Cancelled));
        }
        _ => panic!("expected one-shot halves"),
    }
    let task: TimerTask<u32> = TimerTask::new_oneshot(Duration::from_millis(10), None);
    let (task, rx) = TimerTaskWithCompletionNotifier::from_timer_task(task);
    drop(rx);
    let (kind, _, _) = task.into_parts();
    match kind {
        TaskTypeWithCompletionNotifier::OneShot { completion_notifier } => {
            let handed = completion_notifier.notify(TaskCompletion::Called);
            assert_eq!(handed.completion, TaskCompletion::Called);
            assert!(!handed.accepted);
        }
        _ => panic!("expected a one-shot notifier"),
    }
}
