use vstd::prelude::*;

verus! {

/// Programmable interval timer rate, in interrupts per second.
pub const TIMER_HZ: u32 = 288;

/// Vector of the first interrupt of the primary PIC.
pub const PIC_1_OFFSET: u8 = 32;

/// Vector of the first interrupt of the secondary PIC.
pub const PIC_2_OFFSET: u8 = 40;

/// The hardware interrupts the kernel handles.
#[derive(Debug, Clone, Copy, PartialEq, Eq, Structural)]
pub enum InterruptIndex {
    Timer,
    Keyboard,
    Mouse,
}

impl InterruptIndex {
    pub open spec fn vector(self) -> u8 {
        match self {
            InterruptIndex::Timer => 32,
            InterruptIndex::Keyboard => 33,
            InterruptIndex::Mouse => 44,
        }
    }

    pub fn as_u8(self) -> (r: u8)
        ensures
            r == self.vector(),
    {
        match self {
            InterruptIndex::Timer => PIC_1_OFFSET,
            InterruptIndex::Keyboard => PIC_1_OFFSET + 1,
            InterruptIndex::Mouse => PIC_1_OFFSET + 12,
        }
    }

    pub fn as_usize(self) -> (r: usize)
        ensures
            r == self.vector(),
    {
        self.as_u8() as usize
    }
}

/// The tick counter the timer interrupt advances.
pub struct Clock {
    pub ticks: u64,
}

impl Clock {
    pub fn new() -> (r: Clock)
        ensures
            r.ticks == 0,
    {
        Clock { ticks: 0 }
    }

    /// One timer interrupt; the counter wraps.
    pub fn tick(&mut self)
        ensures
            final(self).ticks == if old(self).ticks == u64::MAX {
                0
            } else {
                (old(self).ticks + 1) as u64
            },
    {
        self.ticks = if self.ticks == u64::MAX {
            0
        } else {
            self.ticks + 1
        };
    }
}

pub fn ticks(clock: &Clock) -> (r: u64)
    ensures
        r == clock.ticks,
{
    clock.ticks
}

/// Whole seconds since boot.
pub fn uptime_secs(clock: &Clock) -> (r: u64)
    ensures
        r == clock.ticks / TIMER_HZ as u64,
{
    clock.ticks / TIMER_HZ as u64
}

/// Timer ticks covering `ms` milliseconds, rounded up.
pub open spec fn millis_ticks(ms: nat) -> nat {
    ((288 * ms + 999) / 1000) as nat
}

pub fn ticks_for_millis(ms: u64) -> (r: u64)
    requires
        288 * ms + 999 <= u64::MAX,
    ensures
        r == millis_ticks(ms as nat),
{
    (TIMER_HZ as u64 * ms + 999) / 1000
}

/// Bytes of the PS/2 mouse packet being collected.
pub struct MousePacket {
    pub cycle: u8,
    pub bytes: [u8; 4],
}

impl MousePacket {
    pub fn new() -> (r: MousePacket)
        ensures
            r.cycle == 0,
            r.bytes@ == seq![0u8, 0u8, 0u8, 0u8],
    {
        MousePacket { cycle: 0, bytes: [0u8; 4] }
    }

    /// Takes one byte from the mouse port. A first byte without the sync bit
    /// is dropped; the last byte of a packet (the fourth for a wheel mouse,
    /// else the third) completes it and gives the four collected bytes.
    pub fn feed(&mut self, byte: u8, four_byte: bool) -> (r: Option<[u8; 4]>)
        requires
            old(self).cycle <= 3,
            !four_byte ==> old(self).cycle <= 2,
        ensures
            final(self).cycle <= 3,
            !four_byte ==> final(self).cycle <= 2,
            old(self).cycle == 0 && byte & 0x08 == 0 ==> r is None && final(self).cycle == 0,
            !(old(self).cycle == 0 && byte & 0x08 == 0) ==> final(self).bytes@ == old(
                self,
            ).bytes@.update(old(self).cycle as int, byte) && if old(self).cycle == (if four_byte {
                3u8
            } else {
                2u8
            }) {
                r == Some(final(self).bytes) && final(self).cycle == 0
            } else {
                r is None && final(self).cycle == old(self).cycle + 1
            },
    {
        if self.cycle == 0 && byte & 0x08 == 0 {
            return None;
        }
        let c = self.cycle as usize;
        self.bytes.set(c, byte);
        let last: u8 = if four_byte {
            3
        } else {
            2
        };
        if self.cycle == last {
            self.cycle = 0;
            Some(self.bytes)
        } else {
            self.cycle = self.cycle + 1;
            None
        }
    }
}

} // verus!
