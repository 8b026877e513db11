//! The system monitor's readout: when the dashboard is redrawn and the
//! figures it shows (CPU vendor, heap load, uptime clock, scheduler pulse).
use vstd::prelude::*;
use crate::text::{dec, push_str, push_u64, string_from};

verus! {

/// Timer ticks between two redraws of an unchanged window.
pub const REDRAW_INTERVAL: u64 = 24;

/// When the dashboard was last drawn, and at what size.
pub struct SysMonState {
    pub last_redraw_tick: u64,
    pub last_width: i32,
    pub last_height: i32,
}

/// The figures one redraw shows.
pub struct Readout {
    pub vendor: String,
    pub heap_line: String,
    pub heap_ratio: usize,
    pub clock: String,
    pub tick_line: String,
    pub counter_line: String,
    pub pulse: u64,
}

impl SysMonState {
    /// A monitor just drawn at its opening size.
    pub fn new(width: i32, height: i32) -> (r: SysMonState)
        ensures
            r.last_redraw_tick == 0 && r.last_width == width && r.last_height == height,
    {
        SysMonState { last_redraw_tick: 0, last_width: width, last_height: height }
    }
}

/// Whether the dashboard is drawn again: after a resize, or once the
/// interval has passed (tick counts wrap around).
pub open spec fn due(st: SysMonState, ticks: u64, width: i32, height: i32) -> bool {
    width != st.last_width || height != st.last_height || ticks.wrapping_sub(st.last_redraw_tick)
        >= REDRAW_INTERVAL
}

/// Heap use in percent of the heap, at most 100; 0 for an empty heap.
pub open spec fn heap_percent(used: usize, total: usize) -> usize {
    if total > 0 {
        let scaled = if used * 100 <= usize::MAX {
            (used * 100) as usize
        } else {
            usize::MAX
        };
        if scaled / total < 100 {
            (scaled / total) as usize
        } else {
            100
        }
    } else {
        0
    }
}

/// A value below 100 as two digits.
pub open spec fn digits2(n: nat) -> Seq<char> {
    seq![((n / 10 + 48) as u8) as char, ((n % 10 + 48) as u8) as char]
}

/// The uptime clock `HH:MM:SS`, the hours wrapping at a day.
pub open spec fn clock_text(ticks: u64) -> Seq<char> {
    let secs = ticks as nat / 288;
    digits2((secs / 3600) % 24) + seq![':'] + digits2((secs / 60) % 60) + seq![':'] + digits2(
        secs % 60,
    )
}

/// The scheduler bar's fill: the counter's hundreds of 64, at least 8.
pub open spec fn pulse_of(counter: u64) -> u64 {
    let p = (counter / 64) % 100;
    if p < 8 {
        8
    } else {
        p
    }
}

fn push_digits2(s: &mut String, n: u64)
    requires
        n < 100,
    ensures
        final(s)@ == old(s)@ + digits2(n as nat),
{
    let tens = ((n / 10) as u8 + 48) as char;
    let ones = ((n % 10) as u8 + 48) as char;
    crate::text::push_char(s, tens);
    crate::text::push_char(s, ones);
    assert(final(s)@ =~= old(s)@ + digits2(n as nat));
}

/// The clock text for `ticks`.
pub fn clock(ticks: u64) -> (r: String)
    ensures
        r@ == clock_text(ticks),
{
    let secs = ticks / 288;
    let hrs = (secs / 3600) % 24;
    let mins = (secs / 60) % 60;
    let s = secs % 60;
    let mut out = String::new();
    push_digits2(&mut out, hrs);
    crate::text::push_char(&mut out, ':');
    push_digits2(&mut out, mins);
    crate::text::push_char(&mut out, ':');
    push_digits2(&mut out, s);
    out
}

/// Heap use in percent.
pub fn heap_ratio(used: usize, total: usize) -> (r: usize)
    ensures
        r == heap_percent(used, total),
{
    if total > 0 {
        let scaled: usize = if used <= usize::MAX / 100 {
            used * 100
        } else {
            usize::MAX
        };
        let p = scaled / total;
        if p < 100 {
            p
        } else {
            100
        }
    } else {
        0
    }
}

/// Decides whether to redraw at `ticks` for a window of the given size and,
/// when it does, records the redraw and gives the figures to show; the
/// vendor is the CPU's, when it names one.
pub fn update(
    st: &mut SysMonState,
    ticks: u64,
    width: i32,
    height: i32,
    vendor: Option<&str>,
    heap_used: usize,
    heap_total: usize,
    counter: u64,
) -> (r: Option<Readout>)
    ensures
        !due(*old(st), ticks, width, height) ==> r is None && *final(st) == *old(st),
        due(*old(st), ticks, width, height) ==> {
            &&& final(st).last_redraw_tick == ticks
            &&& final(st).last_width == width
            &&& final(st).last_height == height
            &&& r matches Some(o) && {
                &&& o.vendor@ == match vendor {
                    Some(v) => v@,
                    None => "unknown"@,
                }
                &&& o.heap_line@ == dec(heap_used as nat) + " / "@ + dec(heap_total as nat) + " B"@
                &&& o.heap_ratio == heap_percent(heap_used, heap_total)
                &&& o.clock@ == clock_text(ticks)
                &&& o.tick_line@ == dec(ticks as nat) + " ticks"@
                &&& o.counter_line@ == dec(counter as nat)
                &&& o.pulse == pulse_of(counter)
            }
        },
{
    let resized = width != st.last_width || height != st.last_height;
    if !resized && ticks.wrapping_sub(st.last_redraw_tick) < REDRAW_INTERVAL {
        return None;
    }
    st.last_redraw_tick = ticks;
    st.last_width = width;
    st.last_height = height;
    let vendor_text = match vendor {
        Some(v) => string_from(v),
        None => string_from("unknown"),
    };
    let mut heap_line = String::new();
    push_u64(&mut heap_line, heap_used as u64);
    push_str(&mut heap_line, " / ");
    push_u64(&mut heap_line, heap_total as u64);
    push_str(&mut heap_line, " B");
    let mut tick_line = String::new();
    push_u64(&mut tick_line, ticks);
    push_str(&mut tick_line, " ticks");
    let mut counter_line = String::new();
    push_u64(&mut counter_line, counter);
    let p = (counter / 64) % 100;
    let pulse = if p < 8 {
        8
    } else {
        p
    };
    Some(
        Readout {
            vendor: vendor_text,
            heap_line,
            heap_ratio: heap_ratio(heap_used, heap_total),
            clock: clock(ticks),
            tick_line,
            counter_line,
            pulse,
        },
    )
}

} // verus!
