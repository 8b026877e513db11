use vstd::prelude::*;
use crate::text::{dec, push_str, push_u64, string_from};

verus! {

/// How long the boot splash may sit on one milestone before a warning.
pub const STUCK_MS: u64 = 2500;

/// Progress of the boot sequence as the watchdog sees it.
pub struct BootWatchdog {
    pub last_tick: u64,
    pub last_completed: u64,
    pub complete: bool,
    pub warned: bool,
}

impl BootWatchdog {
    pub fn new() -> (r: BootWatchdog)
        ensures
            r.last_tick == 0 && r.last_completed == 0 && !r.complete && !r.warned,
    {
        BootWatchdog { last_tick: 0, last_completed: 0, complete: false, warned: false }
    }
}

/// Notes that milestone `completed` was reached at `tick`.
pub fn record(w: &mut BootWatchdog, tick: u64, completed: u64)
    ensures
        final(w).last_tick == tick,
        final(w).last_completed == completed,
        final(w).complete == old(w).complete,
        !final(w).warned,
{
    w.last_completed = completed;
    w.last_tick = tick;
    w.warned = false;
}

/// Notes that boot finished.
pub fn complete(w: &mut BootWatchdog)
    ensures
        final(w).complete,
        final(w).last_tick == old(w).last_tick,
        final(w).last_completed == old(w).last_completed,
        final(w).warned == old(w).warned,
{
    w.complete = true;
}

/// Ticks from `last` to `now` on a wrapping counter.
pub open spec fn elapsed(now: u64, last: u64) -> int {
    if now >= last {
        now - last
    } else {
        now + (u64::MAX - last) + 1
    }
}

/// Checks at timer tick `now` whether boot has stalled; gives the last
/// milestone the first time a stall is seen, so the caller can warn once.
pub fn tick_from_irq(w: &mut BootWatchdog, now: u64) -> (r: Option<u64>)
    ensures
        final(w).complete == old(w).complete,
        final(w).last_tick == old(w).last_tick,
        final(w).last_completed == old(w).last_completed,
        (!old(w).complete && old(w).last_tick != 0 && elapsed(now, old(w).last_tick)
            >= crate::interrupts::millis_ticks(2500) && !old(w).warned) ==> r == Some(
            old(w).last_completed,
        ) && final(w).warned,
        !(!old(w).complete && old(w).last_tick != 0 && elapsed(now, old(w).last_tick)
            >= crate::interrupts::millis_ticks(2500) && !old(w).warned) ==> r is None
            && final(w).warned == old(w).warned,
{
    if w.complete {
        return None;
    }
    let last = w.last_tick;
    if last == 0 {
        return None;
    }
    let timeout = crate::interrupts::ticks_for_millis(STUCK_MS);
    let gap = if now >= last {
        now - last
    } else {
        now + (u64::MAX - last) + 1
    };
    if gap < timeout {
        return None;
    }
    if w.warned {
        return None;
    }
    w.warned = true;
    Some(w.last_completed)
}

/// Status lines for the shell.
pub fn lines(w: &BootWatchdog) -> (r: Vec<String>)
    ensures
        r@.len() == 4,
        r@[0]@ == "boot_complete="@ + if w.complete {
            "yes"@
        } else {
            "no"@
        },
        r@[1]@ == "last_milestone="@ + dec(w.last_completed as nat),
        r@[2]@ == "last_tick="@ + dec(w.last_tick as nat),
        r@[3]@ == "stuck_timeout_ms=2500"@,
{
    let mut out: Vec<String> = Vec::new();
    let mut a = string_from("boot_complete=");
    push_str(
        &mut a,
        if w.complete {
            "yes"
        } else {
            "no"
        },
    );
    out.push(a);
    let mut b = string_from("last_milestone=");
    push_u64(&mut b, w.last_completed);
    out.push(b);
    let mut c = string_from("last_tick=");
    push_u64(&mut c, w.last_tick);
    out.push(c);
    out.push(string_from("stuck_timeout_ms=2500"));
    out
}

} // verus!
