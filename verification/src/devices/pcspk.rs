//! The PC speaker, driven by channel 2 of the programmable interval timer:
//! the bytes to write to the ports and the bookkeeping of a delay. The port
//! accesses themselves are the caller's.

use vstd::prelude::*;

verus! {

/// The frequency of the timer's clock in Hz.
pub const PIT_HZ: u32 = 1193180;

/// The timer's ticks in one millisecond.
pub const TICKS_PER_MS: u32 = 1193;

/// The largest value of the timer's 16-bit counter.
pub const COUNTER_MAX: u32 = 0xFFFF;

/// The status byte that switches the speaker off: `status` with its two
/// lowest bits cleared.
pub fn off(status: u8) -> (r: u8)
    ensures
        r == status - status % 4,
        r == status & 0xFC,
{
    assert((status >> 2u8) << 2u8 == status & 0xFC) by (bit_vector);
    assert(status & 0xFC == status - status % 4) by (bit_vector);
    (status >> 2u8) << 2u8
}

/// The status byte that switches the speaker on: `status` with its two
/// lowest bits set.
pub fn on(status: u8) -> (r: u8)
    ensures
        r == status - status % 4 + 3,
        r == status | 3,
{
    assert(status | 3 == status - status % 4 + 3) by (bit_vector);
    status | 3
}

/// The two bytes that load the timer for a tone of `freq` Hz: the low and
/// the high byte of the clock frequency divided by `freq`, low byte first.
/// Of a quotient of more than 16 bits the upper bits are dropped.
pub fn reload_bytes(freq: u32) -> (r: (u8, u8))
    requires
        freq > 0,
    ensures
        r.0 == (PIT_HZ as int / freq as int) % 256,
        r.1 == (PIT_HZ as int / freq as int) / 256 % 256,
{
    let cnt_start: u32 = PIT_HZ / freq;
    let lo: u32 = cnt_start % 256;
    let hi: u32 = (cnt_start / 256) % 256;
    (lo as u8, hi as u8)
}

/// The counter's value from its two bytes as they are read from the port.
pub fn read_counter(lo: u8, hi: u8) -> (r: u32)
    ensures
        r == hi * 256 + lo,
        r <= COUNTER_MAX,
{
    assert(((hi as u32) << 8u32) | (lo as u32) == hi * 256 + lo) by (bit_vector);
    ((hi as u32) << 8) | (lo as u32)
}

/// The ticks that have passed between two readings of the time, `last` and
/// `now`, each between 0 and `COUNTER_MAX`, where the time starts again at 0
/// after `COUNTER_MAX`.
pub open spec fn elapsed(last: int, now: int) -> int {
    if last > now {
        COUNTER_MAX - last + now
    } else {
        now - last
    }
}

/// A delay in progress, as plain numbers.
pub struct DelayState {
    /// The ticks counted so far, from the time of the first reading.
    pub counter: int,
    /// The time of the latest reading.
    pub now: int,
    /// The count at which the delay is over.
    pub end: int,
}

impl DelayState {
    /// The time is a counter value, and the count can take one more reading
    /// without overflow as long as the delay is not over.
    pub open spec fn wf(self) -> bool {
        &&& 0 <= self.now <= COUNTER_MAX
        &&& 0 <= self.counter
        &&& 0 <= self.end
        &&& self.end + COUNTER_MAX <= u32::MAX
        &&& self.counter < self.end + COUNTER_MAX
    }

    /// The delay is over.
    pub open spec fn done(self) -> bool {
        self.counter >= self.end
    }

    /// The state after the counter was read as `reading`.
    pub open spec fn after_tick(self, reading: int) -> DelayState {
        DelayState {
            counter: self.counter + elapsed(self.now, COUNTER_MAX - reading),
            now: COUNTER_MAX - reading,
            end: self.end,
        }
    }
}

/// A delay of a number of milliseconds, measured on a counter that counts
/// down from `COUNTER_MAX` and starts again.
pub struct Delay {
    counter: u32,
    now: u32,
    end: u32,
}

impl View for Delay {
    type V = DelayState;

    closed spec fn view(&self) -> DelayState {
        DelayState { counter: self.counter as int, now: self.now as int, end: self.end as int }
    }
}

impl Delay {
    /// Starts a delay of `time` milliseconds at the counter value `reading`.
    pub fn start(reading: u32, time: u32) -> (r: Delay)
        requires
            reading <= COUNTER_MAX,
            (COUNTER_MAX - reading) + time * TICKS_PER_MS + COUNTER_MAX <= u32::MAX,
        ensures
            r@ == (DelayState {
                counter: COUNTER_MAX - reading,
                now: COUNTER_MAX - reading,
                end: (COUNTER_MAX - reading) + time * TICKS_PER_MS,
            }),
            r@.wf(),
    {
        let now: u32 = COUNTER_MAX - reading;
        assert(time * TICKS_PER_MS <= u32::MAX) by (nonlinear_arith)
            requires
                (COUNTER_MAX - reading) + time * TICKS_PER_MS + COUNTER_MAX <= u32::MAX,
                reading <= COUNTER_MAX,
        ;
        Delay { counter: now, now, end: now + time * TICKS_PER_MS }
    }

    /// Tells whether the delay is over.
    pub fn done(&self) -> (b: bool)
        ensures
            b == self@.done(),
    {
        self.counter >= self.end
    }

    /// Takes in the counter value `reading`: adds the ticks that have passed
    /// since the reading before to the count.
    pub fn tick(&mut self, reading: u32)
        requires
            old(self)@.wf(),
            !old(self)@.done(),
            reading <= COUNTER_MAX,
        ensures
            final(self)@ == old(self)@.after_tick(reading as int),
            final(self)@.wf(),
    {
        let last: u32 = self.now;
        let now: u32 = COUNTER_MAX - reading;
        let passed: u32 = if last > now {
            COUNTER_MAX - last + now
        } else {
            now - last
        };
        self.now = now;
        self.counter = self.counter + passed;
    }
}

} // verus!
