use std::time::Duration;
use veloq::config::{BatchConfig, ServiceConfig, TimerConfig, WheelConfig};
use veloq::error::TimerError;
use veloq::num::NonZeroUsize;

#[test]
fn test_wheel_config_default() {
    let config = WheelConfig::default();
    assert_eq!(config.l0_tick_duration, Duration::from_millis(10));
    assert_eq!(config.l0_slot_count, 512);
    assert_eq!(config.l1_tick_duration, Duration::from_secs(1));
    assert_eq!(config.l1_slot_count, 64);
}

#[test]
fn test_wheel_config_builder() {
    let config = WheelConfig::builder()
        .l0_tick_duration(Duration::from_millis(20))
        .l0_slot_count(1024)
        .l1_tick_duration(Duration::from_secs(2))
        .l1_slot_count(128)
        .build()
        .unwrap();

    assert_eq!(config.l0_tick_duration, Duration::from_millis(20));
    assert_eq!(config.l0_slot_count, 1024);
    assert_eq!(config.l1_tick_duration, Duration::from_secs(2));
    assert_eq!(config.l1_slot_count, 128);
}

#[test]
fn test_wheel_config_validation_zero_tick() {
    let result = WheelConfig::builder().l0_tick_duration(Duration::ZERO).build();

    assert!(result.is_err());
}

#[test]
fn test_wheel_config_validation_invalid_slot_count() {
    let result = WheelConfig::builder().l0_slot_count(100).build();

    assert!(result.is_err());
}

#[test]
fn test_service_config_builder() {
    let config = ServiceConfig::builder()
        .command_channel_capacity(NonZeroUsize::new(1024).unwrap())
        .timeout_channel_capacity(NonZeroUsize::new(2000).unwrap())
        .build();

    assert_eq!(config.command_channel_capacity, NonZeroUsize::new(1024).unwrap());
    assert_eq!(config.timeout_channel_capacity, NonZeroUsize::new(2000).unwrap());
}

#[test]
fn test_batch_config_default() {
    let config = BatchConfig::default();
    assert_eq!(config.small_batch_threshold, 10);
}

#[test]
fn test_timer_config_default() {
    let config = TimerConfig::default();
    assert_eq!(config.wheel.l0_slot_count, 512);
    assert_eq!(config.service.command_channel_capacity, NonZeroUsize::new(512).unwrap());
    assert_eq!(config.batch.small_batch_threshold, 10);
}

#[test]
fn test_timer_config_builder() {
    let config = TimerConfig::builder()
        .command_channel_capacity(NonZeroUsize::new(1024).unwrap())
        .timeout_channel_capacity(NonZeroUsize::new(2000).unwrap())
        .small_batch_threshold(20)
        .build()
        .unwrap();

    assert_eq!(config.service.command_channel_capacity, NonZeroUsize::new(1024).unwrap());
    assert_eq!(config.service.timeout_channel_capacity, NonZeroUsize::new(2000).unwrap());
    assert_eq!(config.batch.small_batch_threshold, 20);
}

#[test]
fn test_hierarchical_config_validation() {
    let result = WheelConfig::builder()
        .l0_tick_duration(Duration::from_millis(10))
        .l0_slot_count(512)
        .l1_tick_duration(Duration::from_millis(15))
        .l1_slot_count(64)
        .build();

    assert!(result.is_err());

    let result = WheelConfig::builder()
        .l0_tick_duration(Duration::from_millis(10))
        .l0_slot_count(512)
        .l1_tick_duration(Duration::from_secs(1))
        .l1_slot_count(64)
        .build();

    assert!(result.is_ok());
}

#[test]
fn test_wheel_invalid_slot_count() {
    let result = WheelConfig::builder().l0_slot_count(100).build();
    assert!(result.is_err());
    if let Err(TimerError::InvalidSlotCount { slot_count, reason }) = result {
        assert_eq!(slot_count, 100);
        assert_eq!(reason, "L0 layer slot count must be power of 2");
    } else {
        panic!("Expected InvalidSlotCount error");
    }
}

#[test]
fn config_error_for_each_rule() {
    match WheelConfig::builder().l0_tick_duration(Duration::ZERO).build() {
        Err(TimerError::InvalidConfiguration { field, reason }) => {
            assert_eq!(field, "l0_tick_duration");
            assert_eq!(reason, "L0 layer tick duration must be greater than 0");
        }
        _ => panic!("expected InvalidConfiguration"),
    }
    match WheelConfig::builder().l0_slot_count(0).build() {
        Err(TimerError::InvalidSlotCount { slot_count, reason }) => {
            assert_eq!(slot_count, 0);
            assert_eq!(reason, "L0 layer slot count must be greater than 0");
        }
        _ => panic!("expected InvalidSlotCount"),
    }
    match WheelConfig::builder().l1_tick_duration(Duration::ZERO).build() {
        Err(TimerError::InvalidConfiguration { field, reason }) => {
            assert_eq!(field, "l1_tick_duration");
            assert_eq!(reason, "L1 layer tick duration must be greater than 0");
        }
        _ => panic!("expected InvalidConfiguration"),
    }
    match WheelConfig::builder().l1_slot_count(0).build() {
        Err(TimerError::InvalidSlotCount { slot_count, reason }) => {
            assert_eq!(slot_count, 0);
            assert_eq!(reason, "L1 layer slot count must be greater than 0");
        }
        _ => panic!("expected InvalidSlotCount"),
    }
    match WheelConfig::builder().l1_slot_count(48).build() {
        Err(TimerError::InvalidSlotCount { slot_count, reason }) => {
            assert_eq!(slot_count, 48);
            assert_eq!(reason, "L1 layer slot count must be power of 2");
        }
        _ => panic!("expected InvalidSlotCount"),
    }
    match WheelConfig::builder().l1_tick_duration(Duration::from_millis(15)).build() {
        Err(TimerError::InvalidConfiguration { field, reason }) => {
            assert_eq!(field, "l1_tick_duration");
            assert_eq!(
                reason,
                "L1 tick duration (15 ms) must be an integer multiple of L0 tick duration (10 ms)"
            );
        }
        _ => panic!("expected InvalidConfiguration"),
    }
}

#[test]
fn non_zero_count_rejects_zero() {
    assert!(NonZeroUsize::new(0).is_none());
    assert_eq!(NonZeroUsize::new(7).unwrap().get(), 7);
}

#[test]
fn ticks_must_be_exact_multiples_of_at_least_one_millisecond() {
    let result = WheelConfig::builder()
        .l0_tick_duration(Duration::from_millis(1))
        .l1_tick_duration(Duration::from_micros(1500))
        .build();
    match result {
        Err(TimerError::InvalidConfiguration { field, reason }) => {
            assert_eq!(field, "l1_tick_duration");
            assert_eq!(reason, "L1 tick duration (1 ms) must be an integer multiple of L0 tick duration (1 ms)");
        }
        _ => panic!("expected InvalidConfiguration"),
    }
    let result = WheelConfig::builder()
        .l0_tick_duration(Duration::from_micros(500))
        .l1_tick_duration(Duration::from_micros(500))
        .build();
    match result {
        Err(TimerError::InvalidConfiguration { field, reason }) => {
            assert_eq!(field, "l0_tick_duration");
            assert_eq!(reason, "L0 tick duration must be at least 1 ms and at most u64::MAX ms");
        }
        _ => panic!("expected InvalidConfiguration"),
    }
    let result = WheelConfig::builder()
        .l0_tick_duration(Duration::from_millis(3))
        .l1_tick_duration(Duration::from_secs(u64::MAX))
        .build();
    match result {
        Err(TimerError::InvalidConfiguration { field, reason }) => {
            assert_eq!(field, "l1_tick_duration");
            assert_eq!(reason, "L1 tick duration must be at least 1 ms and at most u64::MAX ms");
        }
        _ => panic!("expected InvalidConfiguration"),
    }
    let result = WheelConfig::builder()
        .l0_tick_duration(Duration::from_micros(1500))
        .l1_tick_duration(Duration::from_millis(3))
        .build();
    assert!(result.is_ok());
    let result = WheelConfig::builder()
        .l0_tick_duration(Duration::from_millis(3))
        .l1_tick_duration(Duration::from_millis(3000))
        .build();
    assert!(result.is_ok());
}

#[test]
fn l0_span_must_fit_in_64_bits() {
    let result = WheelConfig::builder()
        .l0_tick_duration(Duration::from_millis(1 << 30))
        .l0_slot_count(1 << 40)
        .l1_tick_duration(Duration::from_millis(1 << 31))
        .build();
    match result {
        Err(TimerError::InvalidConfiguration { field, reason }) => {
            assert_eq!(field, "l0_slot_count");
            assert_eq!(reason, "L0 layer span (slot count times tick duration) must fit in 64 bits of milliseconds");
        }
        _ => panic!("expected InvalidConfiguration"),
    }
}

#[test]
fn built_config_gives_a_wheel() {
    let config = WheelConfig::builder()
        .l0_tick_duration(Duration::from_millis(3))
        .l0_slot_count(8)
        .l1_tick_duration(Duration::from_millis(3000))
        .l1_slot_count(4)
        .build()
        .unwrap();
    let wheel: veloq::wheel::Wheel<u32> = veloq::wheel::Wheel::new(config, BatchConfig::default());
    assert_eq!(wheel.slot_count(), 8);
    assert_eq!(wheel.current_tick(), 0);
    assert!(wheel.is_empty());
    assert_eq!(wheel.l1_tick_ratio(), 1000);
}

#[test]
fn fractional_millisecond_ticks_give_a_wheel() {
    let config = WheelConfig::builder()
        .l0_tick_duration(Duration::from_micros(1500))
        .l1_tick_duration(Duration::from_millis(3))
        .build()
        .unwrap();
    let wheel: veloq::wheel::Wheel<u32> = veloq::wheel::Wheel::new(config, BatchConfig::default());
    assert_eq!(wheel.l1_tick_ratio(), 3);
    assert_eq!(wheel.tick_duration(), Duration::from_micros(1500));
}
