//! Configuration of the timing wheel, its service and its batch operations,
//! with builders that validate what they build.

use crate::error::TimerError;
use crate::num::{is_power_of_two, usize_is_power_of_two, NonZeroUsize};
use crate::time::{duration_as_nanos, duration_from_millis, duration_from_secs, duration_is_zero, duration_millis_in_u64, duration_nanos, millis_in_u64, millis_of};
use std::time::Duration;
use vstd::prelude::*;

verus! {

/// Configuration of the two layers of the timing wheel.
#[derive(Debug, Clone)]
pub struct WheelConfig {
    /// Duration of each tick in the lower layer (L0).
    pub l0_tick_duration: Duration,
    /// Number of slots in L0; a power of two.
    pub l0_slot_count: usize,
    /// Duration of each tick in the upper layer (L1).
    pub l1_tick_duration: Duration,
    /// Number of slots in L1; a power of two.
    pub l1_slot_count: usize,
}

/// 10 ms in nanoseconds: the default L0 tick.
pub open spec fn default_l0_tick_nanos() -> nat {
    10_000_000
}

/// 1 s in nanoseconds: the default L1 tick.
pub open spec fn default_l1_tick_nanos() -> nat {
    1_000_000_000
}

impl Default for WheelConfig {
    fn default() -> (r: Self)
        ensures
            duration_nanos(r.l0_tick_duration) == default_l0_tick_nanos(),
            r.l0_slot_count == 512,
            duration_nanos(r.l1_tick_duration) == default_l1_tick_nanos(),
            r.l1_slot_count == 64,
    {
        WheelConfig {
            l0_tick_duration: duration_from_millis(10),
            l0_slot_count: 512,
            l1_tick_duration: duration_from_secs(1),
            l1_slot_count: 64,
        }
    }
}

impl WheelConfig {
    /// A builder that starts from the default configuration.
    pub fn builder() -> (r: WheelConfigBuilder)
        ensures
            duration_nanos(r.l0_tick()) == default_l0_tick_nanos(),
            r.l0_slots() == 512,
            duration_nanos(r.l1_tick()) == default_l1_tick_nanos(),
            r.l1_slots() == 64,
    {
        WheelConfigBuilder::default()
    }

    /// What `WheelConfigBuilder::build` accepts: positive ticks, slot counts that
    /// are powers of two, ticks of at least 1 ms whose millisecond counts fit in
    /// 64 bits, an L1 tick that is an exact whole multiple of the L0 tick, and
    /// an L0 span (slots times tick) that fits in 64 bits of milliseconds.
    pub open spec fn is_valid(self) -> bool {
        &&& duration_nanos(self.l0_tick_duration) != 0
        &&& self.l0_slot_count != 0
        &&& is_power_of_two(self.l0_slot_count)
        &&& duration_nanos(self.l1_tick_duration) != 0
        &&& self.l1_slot_count != 0
        &&& is_power_of_two(self.l1_slot_count)
        &&& millis_in_u64(self.l0_tick_duration)
        &&& millis_in_u64(self.l1_tick_duration)
        &&& duration_nanos(self.l1_tick_duration) % duration_nanos(self.l0_tick_duration) == 0
        &&& self.l0_slot_count * millis_of(self.l0_tick_duration) <= u64::MAX
    }
}

/// Builder of a `WheelConfig`.
#[derive(Debug, Clone)]
pub struct WheelConfigBuilder {
    l0_tick_duration: Duration,
    l0_slot_count: usize,
    l1_tick_duration: Duration,
    l1_slot_count: usize,
}

impl Default for WheelConfigBuilder {
    fn default() -> (r: Self)
        ensures
            duration_nanos(r.l0_tick()) == default_l0_tick_nanos(),
            r.l0_slots() == 512,
            duration_nanos(r.l1_tick()) == default_l1_tick_nanos(),
            r.l1_slots() == 64,
    {
        WheelConfigBuilder {
            l0_tick_duration: duration_from_millis(10),
            l0_slot_count: 512,
            l1_tick_duration: duration_from_secs(1),
            l1_slot_count: 64,
        }
    }
}

/// The decimal digit for `d`, below ten.
pub open spec fn digit_char(d: nat) -> char {
    (48 + d) as char
}

/// The decimal digits of `n`, most significant first, with no leading zero:
/// how `format!` writes an unsigned integer.
pub open spec fn decimal(n: nat) -> Seq<char>
    decreases n,
{
    if n < 10 {
        seq![digit_char(n)]
    } else {
        decimal(n / 10).push(digit_char(n % 10))
    }
}

/// The message of the error for an L1 tick that is not a multiple of the L0 tick.
pub open spec fn tick_multiple_message(l1_ms: u64, l0_ms: u64) -> Seq<char> {
    "L1 tick duration ("@ + decimal(l1_ms as nat) + " ms) must be an integer multiple of L0 tick duration ("@
        + decimal(l0_ms as nat) + " ms)"@
}

/// A tick that is an exact whole multiple of a shorter one holds at least as
/// many whole milliseconds.
pub(crate) proof fn lemma_multiple_millis(l0: Duration, l1: Duration)
    requires
        duration_nanos(l0) != 0,
        duration_nanos(l1) != 0,
        duration_nanos(l1) % duration_nanos(l0) == 0,
    ensures
        millis_of(l0) <= millis_of(l1),
{
    let a = duration_nanos(l0) as int;
    let b = duration_nanos(l1) as int;
    vstd::arithmetic::div_mod::lemma_fundamental_div_mod(b, a);
    assert(b == a * (b / a));
    assert(b / a >= 1) by (nonlinear_arith)
        requires
            a > 0,
            b > 0,
            b == a * (b / a),
    ;
    assert(a <= b) by (nonlinear_arith)
        requires
            a > 0,
            b / a >= 1,
            b == a * (b / a),
    ;
    vstd::arithmetic::div_mod::lemma_div_is_ordered(a, b, 1_000_000);
}

/// Writes the message of the error for an L1 tick that is not a multiple of the
/// L0 tick, with `format!`.
#[verifier::external_body]
fn tick_multiple_reason(l1_ms: u64, l0_ms: u64) -> (r: String)
    ensures
        r@ == tick_multiple_message(l1_ms, l0_ms),
{
    format!(
        "L1 tick duration ({} ms) must be an integer multiple of L0 tick duration ({} ms)",
        l1_ms,
        l0_ms
    )
}

impl WheelConfigBuilder {
    /// The L0 tick set so far.
    pub closed spec fn l0_tick(self) -> Duration {
        self.l0_tick_duration
    }

    /// The L0 slot count set so far.
    pub closed spec fn l0_slots(self) -> usize {
        self.l0_slot_count
    }

    /// The L1 tick set so far.
    pub closed spec fn l1_tick(self) -> Duration {
        self.l1_tick_duration
    }

    /// The L1 slot count set so far.
    pub closed spec fn l1_slots(self) -> usize {
        self.l1_slot_count
    }

    /// The builder holds the default settings.
    pub open spec fn is_default(self) -> bool {
        &&& duration_nanos(self.l0_tick()) == default_l0_tick_nanos()
        &&& self.l0_slots() == 512
        &&& duration_nanos(self.l1_tick()) == default_l1_tick_nanos()
        &&& self.l1_slots() == 64
    }

    /// The configuration that this builder holds.
    pub open spec fn config(self) -> WheelConfig {
        WheelConfig {
            l0_tick_duration: self.l0_tick(),
            l0_slot_count: self.l0_slots(),
            l1_tick_duration: self.l1_tick(),
            l1_slot_count: self.l1_slots(),
        }
    }

    /// Sets the L0 tick duration.
    pub fn l0_tick_duration(self, duration: Duration) -> (r: Self)
        ensures
            r.l0_tick() == duration,
            r.l0_slots() == self.l0_slots(),
            r.l1_tick() == self.l1_tick(),
            r.l1_slots() == self.l1_slots(),
    {
        let mut b = self;
        b.l0_tick_duration = duration;
        b
    }

    /// Sets the L0 slot count.
    pub fn l0_slot_count(self, count: usize) -> (r: Self)
        ensures
            r.l0_tick() == self.l0_tick(),
            r.l0_slots() == count,
            r.l1_tick() == self.l1_tick(),
            r.l1_slots() == self.l1_slots(),
    {
        let mut b = self;
        b.l0_slot_count = count;
        b
    }

    /// Sets the L1 tick duration.
    pub fn l1_tick_duration(self, duration: Duration) -> (r: Self)
        ensures
            r.l0_tick() == self.l0_tick(),
            r.l0_slots() == self.l0_slots(),
            r.l1_tick() == duration,
            r.l1_slots() == self.l1_slots(),
    {
        let mut b = self;
        b.l1_tick_duration = duration;
        b
    }

    /// Sets the L1 slot count.
    pub fn l1_slot_count(self, count: usize) -> (r: Self)
        ensures
            r.l0_tick() == self.l0_tick(),
            r.l0_slots() == self.l0_slots(),
            r.l1_tick() == self.l1_tick(),
            r.l1_slots() == count,
    {
        let mut b = self;
        b.l1_slot_count = count;
        b
    }

    /// Validates the settings and returns the configuration.
    ///
    /// The rules are checked in this order, and the first that fails gives the
    /// error: L0 tick positive, L0 slot count positive, L0 slot count a power of
    /// two, the same three for L1, each tick at least 1 ms with a millisecond
    /// count that fits in 64 bits, the L1 tick an exact whole multiple of the
    /// L0 tick, and the L0 span (slots times tick) within 64 bits of
    /// milliseconds.
    /// A configuration it accepts is one that `Wheel::new` takes.
    pub fn build(self) -> (r: Result<WheelConfig, TimerError>)
        ensures
            self.build_result(r),
    {
        if duration_is_zero(&self.l0_tick_duration) {
            return Err(
                TimerError::InvalidConfiguration {
                    field: "l0_tick_duration".to_string(),
                    reason: "L0 layer tick duration must be greater than 0".to_string(),
                },
            );
        }
        if self.l0_slot_count == 0 {
            return Err(
                TimerError::InvalidSlotCount {
                    slot_count: self.l0_slot_count,
                    reason: "L0 layer slot count must be greater than 0",
                },
            );
        }
        if !usize_is_power_of_two(self.l0_slot_count) {
            return Err(
                TimerError::InvalidSlotCount {
                    slot_count: self.l0_slot_count,
                    reason: "L0 layer slot count must be power of 2",
                },
            );
        }
        if duration_is_zero(&self.l1_tick_duration) {
            return Err(
                TimerError::InvalidConfiguration {
                    field: "l1_tick_duration".to_string(),
                    reason: "L1 layer tick duration must be greater than 0".to_string(),
                },
            );
        }
        if self.l1_slot_count == 0 {
            return Err(
                TimerError::InvalidSlotCount {
                    slot_count: self.l1_slot_count,
                    reason: "L1 layer slot count must be greater than 0",
                },
            );
        }
        if !usize_is_power_of_two(self.l1_slot_count) {
            return Err(
                TimerError::InvalidSlotCount {
                    slot_count: self.l1_slot_count,
                    reason: "L1 layer slot count must be power of 2",
                },
            );
        }
        let l0_ms = match duration_millis_in_u64(&self.l0_tick_duration) {
            Some(ms) => ms,
            None => {
                return Err(
                    TimerError::InvalidConfiguration {
                        field: "l0_tick_duration".to_string(),
                        reason: "L0 tick duration must be at least 1 ms and at most u64::MAX ms".to_string(),
                    },
                );
            },
        };
        let l1_ms = match duration_millis_in_u64(&self.l1_tick_duration) {
            Some(ms) => ms,
            None => {
                return Err(
                    TimerError::InvalidConfiguration {
                        field: "l1_tick_duration".to_string(),
                        reason: "L1 tick duration must be at least 1 ms and at most u64::MAX ms".to_string(),
                    },
                );
            },
        };
        let l0_ns = duration_as_nanos(&self.l0_tick_duration);
        let l1_ns = duration_as_nanos(&self.l1_tick_duration);
        if l1_ns % l0_ns != 0 {
            return Err(
                TimerError::InvalidConfiguration {
                    field: "l1_tick_duration".to_string(),
                    reason: tick_multiple_reason(l1_ms, l0_ms),
                },
            );
        }
        if (self.l0_slot_count as u64).checked_mul(l0_ms).is_none() {
            return Err(
                TimerError::InvalidConfiguration {
                    field: "l0_slot_count".to_string(),
                    reason: "L0 layer span (slot count times tick duration) must fit in 64 bits of milliseconds".to_string(),
                },
            );
        }
        Ok(
            WheelConfig {
                l0_tick_duration: self.l0_tick_duration,
                l0_slot_count: self.l0_slot_count,
                l1_tick_duration: self.l1_tick_duration,
                l1_slot_count: self.l1_slot_count,
            },
        )
    }

    /// What `build` returns for these settings: `Ok` with the settings exactly
    /// when every rule holds, otherwise the error of the first rule that fails.
    pub open spec fn build_result(self, r: Result<WheelConfig, TimerError>) -> bool {
        let l0_ms = millis_of(self.l0_tick()) as u64;
        let l1_ms = millis_of(self.l1_tick()) as u64;
        &&& (r is Ok <==> self.config().is_valid())
        &&& (r matches Ok(c) ==> c == self.config())
        &&& (duration_nanos(self.l0_tick()) == 0 ==> (r matches Err(
            TimerError::InvalidConfiguration { field, reason },
        ) && field@ == "l0_tick_duration"@ && reason@
            == "L0 layer tick duration must be greater than 0"@))
        &&& (duration_nanos(self.l0_tick()) != 0 && self.l0_slots() == 0 ==> r == Err::<
            WheelConfig,
            TimerError,
        >(
            TimerError::InvalidSlotCount {
                slot_count: 0,
                reason: "L0 layer slot count must be greater than 0",
            },
        ))
        &&& (duration_nanos(self.l0_tick()) != 0 && self.l0_slots() != 0 && !is_power_of_two(
            self.l0_slots(),
        ) ==> r == Err::<WheelConfig, TimerError>(
            TimerError::InvalidSlotCount {
                slot_count: self.l0_slots(),
                reason: "L0 layer slot count must be power of 2",
            },
        ))
        &&& (self.l0_layer_ok() && duration_nanos(self.l1_tick()) == 0 ==> (r matches Err(
            TimerError::InvalidConfiguration { field, reason },
        ) && field@ == "l1_tick_duration"@ && reason@
            == "L1 layer tick duration must be greater than 0"@))
        &&& (self.l0_layer_ok() && duration_nanos(self.l1_tick()) != 0 && self.l1_slots() == 0
            ==> r == Err::<WheelConfig, TimerError>(
            TimerError::InvalidSlotCount {
                slot_count: 0,
                reason: "L1 layer slot count must be greater than 0",
            },
        ))
        &&& (self.l0_layer_ok() && duration_nanos(self.l1_tick()) != 0 && self.l1_slots() != 0
            && !is_power_of_two(self.l1_slots()) ==> r == Err::<WheelConfig, TimerError>(
            TimerError::InvalidSlotCount {
                slot_count: self.l1_slots(),
                reason: "L1 layer slot count must be power of 2",
            },
        ))
        &&& (self.l0_layer_ok() && self.l1_layer_ok() && !millis_in_u64(self.l0_tick()) ==> (r matches Err(
            TimerError::InvalidConfiguration { field, reason },
        ) && field@ == "l0_tick_duration"@ && reason@
            == "L0 tick duration must be at least 1 ms and at most u64::MAX ms"@))
        &&& (self.l0_layer_ok() && self.l1_layer_ok() && millis_in_u64(self.l0_tick())
            && !millis_in_u64(self.l1_tick()) ==> (r matches Err(
            TimerError::InvalidConfiguration { field, reason },
        ) && field@ == "l1_tick_duration"@ && reason@
            == "L1 tick duration must be at least 1 ms and at most u64::MAX ms"@))
        &&& (self.l0_layer_ok() && self.l1_layer_ok() && millis_in_u64(self.l0_tick())
            && millis_in_u64(self.l1_tick()) && duration_nanos(self.l1_tick()) % duration_nanos(
            self.l0_tick(),
        ) != 0 ==> (r matches Err(TimerError::InvalidConfiguration { field, reason }) && field@
            == "l1_tick_duration"@ && reason@ == tick_multiple_message(l1_ms, l0_ms)))
        &&& (self.l0_layer_ok() && self.l1_layer_ok() && millis_in_u64(self.l0_tick())
            && millis_in_u64(self.l1_tick()) && duration_nanos(self.l1_tick()) % duration_nanos(
            self.l0_tick(),
        ) == 0 && self.l0_slots() * millis_of(self.l0_tick()) > u64::MAX ==> (r matches Err(
            TimerError::InvalidConfiguration { field, reason },
        ) && field@ == "l0_slot_count"@ && reason@
            == "L0 layer span (slot count times tick duration) must fit in 64 bits of milliseconds"@))
    }

    /// The L0 settings pass their checks.
    pub open spec fn l0_layer_ok(self) -> bool {
        duration_nanos(self.l0_tick()) != 0 && self.l0_slots() != 0 && is_power_of_two(
            self.l0_slots(),
        )
    }

    /// The L1 settings pass their checks.
    pub open spec fn l1_layer_ok(self) -> bool {
        duration_nanos(self.l1_tick()) != 0 && self.l1_slots() != 0 && is_power_of_two(
            self.l1_slots(),
        )
    }
}

/// Every configuration that `WheelConfigBuilder::build` accepts meets what
/// `Wheel::new` asks of its configuration, so it always gives a wheel.
pub proof fn law_built_config_is_valid(b: WheelConfigBuilder, r: Result<WheelConfig, TimerError>)
    requires
        b.build_result(r),
        r is Ok,
    ensures
        r->Ok_0.is_valid(),
{
}

/// Channel capacities of the timer service.
#[derive(Debug, Clone, Copy)]
pub struct ServiceConfig {
    /// Capacity of the command channel.
    pub command_channel_capacity: NonZeroUsize,
    /// Capacity of the timeout channel.
    pub timeout_channel_capacity: NonZeroUsize,
}

impl Default for ServiceConfig {
    fn default() -> (r: Self)
        ensures
            r.command_channel_capacity.value() == 512,
            r.timeout_channel_capacity.value() == 1000,
    {
        ServiceConfig {
            command_channel_capacity: NonZeroUsize::new(512).unwrap(),
            timeout_channel_capacity: NonZeroUsize::new(1000).unwrap(),
        }
    }
}

impl ServiceConfig {
    /// A builder that starts from the default capacities.
    pub fn builder() -> (r: ServiceConfigBuilder)
        ensures
            r.command_channel_capacity.value() == 512,
            r.timeout_channel_capacity.value() == 1000,
    {
        ServiceConfigBuilder::default()
    }
}

/// Builder of a `ServiceConfig`.
#[derive(Debug, Clone, Copy)]
pub struct ServiceConfigBuilder {
    /// Capacity of the command channel.
    pub command_channel_capacity: NonZeroUsize,
    /// Capacity of the timeout channel.
    pub timeout_channel_capacity: NonZeroUsize,
}

impl Default for ServiceConfigBuilder {
    fn default() -> (r: Self)
        ensures
            r.command_channel_capacity.value() == 512,
            r.timeout_channel_capacity.value() == 1000,
    {
        let config = ServiceConfig::default();
        ServiceConfigBuilder {
            command_channel_capacity: config.command_channel_capacity,
            timeout_channel_capacity: config.timeout_channel_capacity,
        }
    }
}

impl ServiceConfigBuilder {
    /// Sets the command channel capacity.
    pub fn command_channel_capacity(self, capacity: NonZeroUsize) -> (r: Self)
        ensures
            r.command_channel_capacity == capacity,
            r.timeout_channel_capacity == self.timeout_channel_capacity,
    {
        let mut b = self;
        b.command_channel_capacity = capacity;
        b
    }

    /// Sets the timeout channel capacity.
    pub fn timeout_channel_capacity(self, capacity: NonZeroUsize) -> (r: Self)
        ensures
            r.command_channel_capacity == self.command_channel_capacity,
            r.timeout_channel_capacity == capacity,
    {
        let mut b = self;
        b.timeout_channel_capacity = capacity;
        b
    }

    /// Returns the configuration; every capacity is already non-zero by its type.
    pub fn build(self) -> (r: ServiceConfig)
        ensures
            r.command_channel_capacity == self.command_channel_capacity,
            r.timeout_channel_capacity == self.timeout_channel_capacity,
    {
        ServiceConfig {
            command_channel_capacity: self.command_channel_capacity,
            timeout_channel_capacity: self.timeout_channel_capacity,
        }
    }
}

/// Settings of batch operations.
#[derive(Debug, Clone, Copy)]
pub struct BatchConfig {
    /// Batches of at most this many cancellations are cancelled one by one,
    /// without grouping by slot.
    pub small_batch_threshold: usize,
}

impl Default for BatchConfig {
    fn default() -> (r: Self)
        ensures
            r.small_batch_threshold == 10,
    {
        BatchConfig { small_batch_threshold: 10 }
    }
}

/// The whole timer configuration: wheel, service and batch settings.
#[derive(Debug, Clone)]
pub struct TimerConfig {
    /// Timing wheel configuration.
    pub wheel: WheelConfig,
    /// Service configuration.
    pub service: ServiceConfig,
    /// Batch processing configuration.
    pub batch: BatchConfig,
}

impl Default for TimerConfig {
    fn default() -> (r: Self)
        ensures
            duration_nanos(r.wheel.l0_tick_duration) == default_l0_tick_nanos(),
            r.wheel.l0_slot_count == 512,
            duration_nanos(r.wheel.l1_tick_duration) == default_l1_tick_nanos(),
            r.wheel.l1_slot_count == 64,
            r.service.command_channel_capacity.value() == 512,
            r.service.timeout_channel_capacity.value() == 1000,
            r.batch.small_batch_threshold == 10,
    {
        TimerConfig {
            wheel: WheelConfig::default(),
            service: ServiceConfig::default(),
            batch: BatchConfig::default(),
        }
    }
}

impl TimerConfig {
    /// A builder that starts from the default configuration.
    pub fn builder() -> (r: TimerConfigBuilder)
        ensures
            r.wheel_builder().is_default(),
            r.service_builder().command_channel_capacity.value() == 512,
            r.service_builder().timeout_channel_capacity.value() == 1000,
            r.batch_config().small_batch_threshold == 10,
    {
        TimerConfigBuilder::default()
    }
}


/// Builder of a `TimerConfig`.
#[derive(Debug)]
pub struct TimerConfigBuilder {
    wheel_builder: WheelConfigBuilder,
    service_builder: ServiceConfigBuilder,
    batch_config: BatchConfig,
}

impl Default for TimerConfigBuilder {
    fn default() -> (r: Self)
        ensures
            r.wheel_builder().is_default(),
            r.service_builder().command_channel_capacity.value() == 512,
            r.service_builder().timeout_channel_capacity.value() == 1000,
            r.batch_config().small_batch_threshold == 10,
    {
        TimerConfigBuilder {
            wheel_builder: WheelConfigBuilder::default(),
            service_builder: ServiceConfigBuilder::default(),
            batch_config: BatchConfig::default(),
        }
    }
}

impl TimerConfigBuilder {
    /// The wheel settings so far.
    pub closed spec fn wheel_builder(self) -> WheelConfigBuilder {
        self.wheel_builder
    }

    /// The service settings so far.
    pub closed spec fn service_builder(self) -> ServiceConfigBuilder {
        self.service_builder
    }

    /// The batch settings so far.
    pub closed spec fn batch_config(self) -> BatchConfig {
        self.batch_config
    }

    /// Sets the command channel capacity.
    pub fn command_channel_capacity(self, capacity: NonZeroUsize) -> (r: Self)
        ensures
            r.wheel_builder() == self.wheel_builder(),
            r.service_builder().command_channel_capacity == capacity,
            r.service_builder().timeout_channel_capacity
                == self.service_builder().timeout_channel_capacity,
            r.batch_config() == self.batch_config(),
    {
        let mut b = self;
        b.service_builder = b.service_builder.command_channel_capacity(capacity);
        b
    }

    /// Sets the timeout channel capacity.
    pub fn timeout_channel_capacity(self, capacity: NonZeroUsize) -> (r: Self)
        ensures
            r.wheel_builder() == self.wheel_builder(),
            r.service_builder().command_channel_capacity
                == self.service_builder().command_channel_capacity,
            r.service_builder().timeout_channel_capacity == capacity,
            r.batch_config() == self.batch_config(),
    {
        let mut b = self;
        b.service_builder = b.service_builder.timeout_channel_capacity(capacity);
        b
    }

    /// Sets the small batch threshold.
    pub fn small_batch_threshold(self, threshold: usize) -> (r: Self)
        ensures
            r.wheel_builder() == self.wheel_builder(),
            r.service_builder() == self.service_builder(),
            r.batch_config().small_batch_threshold == threshold,
    {
        let mut b = self;
        b.batch_config.small_batch_threshold = threshold;
        b
    }

    /// Validates the wheel settings and returns the whole configuration; it fails
    /// exactly when `WheelConfigBuilder::build` fails, with the same error.
    pub fn build(self) -> (r: Result<TimerConfig, TimerError>)
        ensures
            r is Ok <==> self.wheel_builder().config().is_valid(),
            r matches Ok(c) ==> c.wheel == self.wheel_builder().config() && c.service.command_channel_capacity
                == self.service_builder().command_channel_capacity
                && c.service.timeout_channel_capacity
                == self.service_builder().timeout_channel_capacity && c.batch
                == self.batch_config(),
            r matches Err(e) ==> self.wheel_builder().build_result(Err(e)),
    {
        let wheel = match self.wheel_builder.build() {
            Ok(w) => w,
            Err(e) => {
                return Err(e);
            },
        };
        Ok(
            TimerConfig {
                wheel,
                service: self.service_builder.build(),
                batch: self.batch_config,
            },
        )
    }
}

} // verus!
