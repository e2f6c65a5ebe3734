//! The ARM system timer: what to make of its registers and what to write to
//! them.
//!
//! The timer counts microseconds in a 64-bit counter that is read as two
//! 32-bit words, and raises an interrupt when the low word reaches the value
//! of a compare register. This module works on the values of the registers;
//! reading them from the device and writing them back is the caller's part.
//!
//! A busy wait is a [`SpinSleep`]: the caller reads the registers, asks the
//! sleep what to do next, does it, and goes on until the sleep is done.

use vstd::prelude::*;

verus! {

/// Bit of the control/status register that belongs to compare register 1.
/// The bit is set when the timer has matched; writing it clears the match.
pub const CS_MATCH_1: u32 = 0b0010;

/// The values of the timer's registers.
#[derive(Clone, Copy, Debug)]
pub struct Registers {
    /// Control/status: one match bit for each compare register.
    pub cs: u32,
    /// Low word of the counter.
    pub clo: u32,
    /// High word of the counter.
    pub chi: u32,
    /// The four compare registers.
    pub compare: [u32; 4],
}

/// The system timer, as its registers stand.
pub struct Timer {
    registers: Registers,
}

impl View for Timer {
    type V = Registers;

    closed spec fn view(&self) -> Registers {
        self.registers
    }
}

/// The 64-bit counter value whose words are `hi` and `lo`.
pub open spec fn counter(hi: u32, lo: u32) -> int {
    hi * 0x1_0000_0000 + lo
}

/// The sum of `a` and `b` as a 32-bit register holds it.
pub open spec fn wrapped_sum(a: u32, b: u32) -> u32 {
    ((a + b) % 0x1_0000_0000) as u32
}

impl Timer {
    /// A timer whose registers hold the values of `registers`.
    pub fn new(registers: Registers) -> (timer: Timer)
        ensures
            timer@ == registers,
    {
        Timer { registers }
    }

    /// The values of the registers.
    pub fn registers(&self) -> (registers: Registers)
        ensures
            registers == self@,
    {
        self.registers
    }

    /// The counter: the number of microseconds that have passed.
    pub fn read(&self) -> (time: u64)
        ensures
            time == counter(self@.chi, self@.clo),
    {
        let lo: u64 = self.registers.clo as u64;
        let hi: u64 = self.registers.chi as u64;
        assert(hi << 32 == hi * 0x1_0000_0000 && (hi << 32) + lo <= 0xffff_ffff_ffff_ffff) by (
            bit_vector)
            requires
                hi <= 0xffff_ffff,
                lo <= 0xffff_ffff,
        ;
        (hi << 32) + lo
    }

    /// Arms compare register 1 to match `us` microseconds from now, and
    /// sets its match bit in the control/status value so that writing the
    /// value clears a match still pending.
    pub fn tick_in(&mut self, us: u32)
        ensures
            final(self)@.compare@ == old(self)@.compare@.update(
                1,
                wrapped_sum(old(self)@.clo, us),
            ),
            final(self)@.cs == old(self)@.cs | CS_MATCH_1,
            final(self)@.clo == old(self)@.clo,
            final(self)@.chi == old(self)@.chi,
    {
        let current_low: u32 = self.registers.clo;
        let compare: u32 = current_low.wrapping_add(us);
        self.registers.compare[1] = compare;
        self.registers.cs = self.registers.cs | CS_MATCH_1;
    }

    /// Whether compare register 1 has matched.
    pub fn has_matched(&self) -> (b: bool)
        ensures
            b == (self@.cs & CS_MATCH_1 != 0),
    {
        self.registers.cs & CS_MATCH_1 != 0
    }
}

/// A busy wait for a number of microseconds, one microsecond at a time:
/// compare register 1 is armed to match at the next microsecond, and the
/// match bit is polled until it is set.
#[derive(Clone, Copy, Debug, PartialEq, Eq, Structural)]
pub struct SpinSleep {
    /// Microseconds still to wait for.
    pub remaining: u64,
    /// Whether compare register 1 is armed and the match is awaited.
    pub armed: bool,
}

/// What the caller of a busy wait has to do next.
#[derive(Clone, Copy, Debug, PartialEq, Eq, Structural)]
pub enum SpinAction {
    /// Write this value to compare register 1, then read the registers again.
    Arm(u32),
    /// Read the registers again.
    Poll,
    /// Nothing: the time is over.
    Done,
}

impl SpinSleep {
    /// Whether the sleep can take its next step on `registers`: arming
    /// needs a counter word that has a successor.
    pub open spec fn can_step(self, registers: Registers) -> bool {
        self.remaining > 0 && !self.armed ==> registers.clo < u32::MAX
    }

    /// The sleep after its next step on `registers`: an idle sleep with
    /// time left arms; an armed sleep whose match bit is set has one
    /// microsecond less to wait for and is idle again.
    pub open spec fn after_step(self, registers: Registers) -> SpinSleep {
        if self.remaining == 0 {
            self
        } else if !self.armed {
            SpinSleep { remaining: self.remaining, armed: true }
        } else if registers.cs & CS_MATCH_1 != 0 {
            SpinSleep { remaining: (self.remaining - 1) as u64, armed: false }
        } else {
            self
        }
    }

    /// What the caller has to do for the next step on `registers`.
    pub open spec fn action(self, registers: Registers) -> SpinAction {
        if self.remaining == 0 {
            SpinAction::Done
        } else if !self.armed {
            SpinAction::Arm((registers.clo + 1) as u32)
        } else if registers.cs & CS_MATCH_1 != 0 && self.remaining == 1 {
            SpinAction::Done
        } else {
            SpinAction::Poll
        }
    }

    /// Takes the next step of the sleep on the registers as just read, and
    /// says what to do before the step after it.
    pub fn step(&mut self, registers: &Registers) -> (action: SpinAction)
        requires
            old(self).can_step(*registers),
        ensures
            *final(self) == old(self).after_step(*registers),
            action == old(self).action(*registers),
            action is Done <==> final(self).remaining == 0,
    {
        if self.remaining == 0 {
            SpinAction::Done
        } else if !self.armed {
            self.armed = true;
            SpinAction::Arm(registers.clo + 1)
        } else if registers.cs & CS_MATCH_1 != 0 {
            self.remaining = self.remaining - 1;
            self.armed = false;
            if self.remaining == 0 {
                SpinAction::Done
            } else {
                SpinAction::Poll
            }
        } else {
            SpinAction::Poll
        }
    }
}

/// The current time in microseconds, from the registers as just read.
pub fn current_time(registers: Registers) -> (time: u64)
    ensures
        time == counter(registers.chi, registers.clo),
{
    Timer::new(registers).read()
}

/// A busy wait for `us` microseconds.
pub fn spin_sleep_us(us: u64) -> (sleep: SpinSleep)
    ensures
        sleep == (SpinSleep { remaining: us, armed: false }),
{
    SpinSleep { remaining: us, armed: false }
}

/// A busy wait for `ms` milliseconds.
pub fn spin_sleep_ms(ms: u64) -> (sleep: SpinSleep)
    requires
        ms * 1000 <= u64::MAX,
    ensures
        sleep == (SpinSleep { remaining: (ms * 1000) as u64, armed: false }),
{
    spin_sleep_us(ms * 1000)
}

/// The registers as they have to be written to make timer 1 fire `us`
/// microseconds after they were read.
pub fn tick_in(registers: Registers, us: u32) -> (armed: Registers)
    ensures
        armed.compare@ == registers.compare@.update(1, wrapped_sum(registers.clo, us)),
        armed.cs == registers.cs | CS_MATCH_1,
        armed.clo == registers.clo,
        armed.chi == registers.chi,
{
    let mut timer = Timer::new(registers);
    timer.tick_in(us);
    timer.registers()
}

} // verus!
