use std::time::Duration;
use veloq::blocking::{Admission, ThreadPool, ThreadPoolError};
use veloq::context::yield_now;
use veloq::open_options::{libc_flag_values, OpenOptions};

#[test]
fn pool_decides_in_order() {
    let pool = ThreadPool::new(1, 2, 1, Duration::from_secs(1));
    assert_eq!(pool.decide(1, 2, 5), Ok(Admission::WakeIdle));
    assert_eq!(pool.decide(0, 1, 0), Ok(Admission::SpawnWorker));
    assert_eq!(pool.decide(0, 2, 0), Ok(Admission::Enqueue));
    assert_eq!(pool.decide(0, 2, 1), Err(ThreadPoolError::Overloaded));
}

#[test]
fn backpressure_with_one_worker_and_one_slot() {
    let pool = ThreadPool::new(1, 1, 1, Duration::from_secs(1));
    assert_eq!(pool.decide(0, 0, 0), Ok(Admission::SpawnWorker));
    assert_eq!(pool.decide(0, 1, 0), Ok(Admission::Enqueue));
    assert_eq!(pool.decide(0, 1, 1), Err(ThreadPoolError::Overloaded));
}

#[test]
fn only_workers_above_the_core_retire() {
    let pool = ThreadPool::new(2, 4, 8, Duration::from_millis(50));
    assert!(pool.should_retire(true, true, 3));
    assert!(!pool.should_retire(true, true, 2));
    assert!(!pool.should_retire(false, true, 3));
    assert!(!pool.should_retire(true, false, 3));
    assert_eq!(pool.core_threads(), 2);
    assert_eq!(pool.max_threads(), 4);
    assert_eq!(pool.queue_capacity(), 8);
    assert_eq!(pool.keep_alive(), Duration::from_millis(50));
}

#[test]
fn yield_is_pending_once_then_ready() {
    let mut y = yield_now();
    assert!(!y.poll_step());
    assert!(y.poll_step());
    assert!(y.poll_step());
}

#[test]
fn unix_flags_of_options() {
    let mut o = OpenOptions::new();
    o.read(true);
    assert_eq!(o.unix_flags().0, libc::O_RDONLY);
    let mut o = OpenOptions::new();
    o.write(true).create(true).truncate(true);
    assert_eq!(o.unix_flags().0, libc::O_WRONLY | libc::O_CREAT | libc::O_TRUNC);
    let mut o = OpenOptions::new();
    o.append(true).create_new(true);
    assert_eq!(o.unix_flags().0, libc::O_WRONLY | libc::O_APPEND | libc::O_EXCL | libc::O_CREAT);
    let mut o = OpenOptions::new();
    o.read(true).write(true);
    assert_eq!(o.unix_flags().0, libc::O_RDWR);
    let v = libc_flag_values();
    assert_eq!(v.creat, libc::O_CREAT);
    assert_eq!(v.rdwr, libc::O_RDWR);
}

#[test]
fn libc_flag_values_are_the_platform_flags() {
    let v = libc_flag_values();
    assert_eq!(v.rdonly, libc::O_RDONLY);
    assert_eq!(v.wronly, libc::O_WRONLY);
    assert_eq!(v.append, libc::O_APPEND);
    assert_eq!(v.excl, libc::O_EXCL);
    assert_eq!(v.trunc, libc::O_TRUNC);
    assert!(v.wronly != 0 && v.rdwr != 0 && v.append != 0);
    assert!(v.creat != 0 && v.excl != 0 && v.trunc != 0);
}

#[test]
fn windows_params_of_options() {
    let o = OpenOptions::new();
    assert_eq!(o.windows_params(), (0, 3));
    let mut o = OpenOptions::new();
    o.read(true).write(true).create(true).truncate(true);
    assert_eq!(o.windows_params(), (0xC000_0000u32 as i32, 2));
    let mut o = OpenOptions::new();
    o.append(true).create(true);
    assert_eq!(o.windows_params(), (4, 4));
    let mut o = OpenOptions::new();
    o.write(true).create_new(true).mode(0o600);
    assert_eq!(o.windows_params(), (0x4000_0000, 1));
    let mut o = OpenOptions::new();
    o.truncate(true);
    assert_eq!(o.windows_params(), (0, 5));
}
