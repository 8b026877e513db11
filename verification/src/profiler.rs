use vstd::prelude::*;
use crate::bounded::{bounded_push, push_bounded};
use crate::text::{dec, pad_left, pad_right, push_padded_right, push_str, push_u64, push_u64_padded, string_from};

verus! {

/// How many profile events are kept.
pub const MAX_PROFILE_EVENTS: usize = 160;

/// Milestones the boot sequence reports.
pub const BOOT_PROGRESS_TOTAL: usize = 24;

pub struct ProfileEvent {
    pub tick: u64,
    pub kind: String,
    pub name: String,
    pub detail: String,
    pub duration_ticks: u64,
}

pub open spec fn pe_view(e: ProfileEvent) -> (u64, Seq<char>, Seq<char>, Seq<char>, u64) {
    (e.tick, e.kind@, e.name@, e.detail@, e.duration_ticks)
}

pub open spec fn pe_views(v: Seq<ProfileEvent>) -> Seq<(u64, Seq<char>, Seq<char>, Seq<char>, u64)> {
    v.map_values(|e: ProfileEvent| pe_view(e))
}

/// Boot and runtime phase timings.
pub struct Profiler {
    pub events: Vec<ProfileEvent>,
    pub last_boot_tick: u64,
}

impl Profiler {
    pub fn new() -> (r: Profiler)
        ensures
            r.events@.len() == 0,
            r.last_boot_tick == 0,
    {
        Profiler { events: Vec::new(), last_boot_tick: 0 }
    }
}

fn record_with_duration(p: &mut Profiler, tick: u64, kind: &str, name: &str, detail: &str, duration: u64)
    ensures
        final(p).last_boot_tick == old(p).last_boot_tick,
        pe_views(final(p).events@) == bounded_push(
            pe_views(old(p).events@),
            (tick, kind@, name@, detail@, duration),
            MAX_PROFILE_EVENTS as nat,
        ),
{
    let e = ProfileEvent {
        tick,
        kind: string_from(kind),
        name: string_from(name),
        detail: string_from(detail),
        duration_ticks: duration,
    };
    let ghost before = p.events@;
    push_bounded(&mut p.events, e, MAX_PROFILE_EVENTS);
    assert(pe_views(before.push(e)) =~= pe_views(before).push(pe_view(e)));
    assert(pe_views(before.push(e).drop_first()) =~= pe_views(before).push(
        pe_view(e),
    ).drop_first());
}

/// Records an event without a duration.
pub fn record(p: &mut Profiler, tick: u64, kind: &str, name: &str, detail: &str)
    ensures
        final(p).last_boot_tick == old(p).last_boot_tick,
        pe_views(final(p).events@) == bounded_push(
            pe_views(old(p).events@),
            (tick, kind@, name@, detail@, 0u64),
            MAX_PROFILE_EVENTS as nat,
        ),
{
    record_with_duration(p, tick, kind, name, detail, 0);
}

/// `milestone=completed/total`
pub open spec fn milestone_text(completed: nat) -> Seq<char> {
    "milestone="@ + dec(completed) + "/24"@
}

/// Records a boot milestone with the ticks since the previous one (none
/// for the first).
pub fn record_boot_stage(p: &mut Profiler, tick: u64, stage: &str, completed: u64)
    ensures
        final(p).last_boot_tick == tick,
        pe_views(final(p).events@) == bounded_push(
            pe_views(old(p).events@),
            (
                tick,
                "boot"@,
                stage@,
                milestone_text(completed as nat),
                if old(p).last_boot_tick == 0 {
                    0u64
                } else {
                    (if tick >= old(p).last_boot_tick {
                        tick - old(p).last_boot_tick
                    } else {
                        tick + (u64::MAX - old(p).last_boot_tick) + 1
                    }) as u64
                },
            ),
            MAX_PROFILE_EVENTS as nat,
        ),
{
    let prev = p.last_boot_tick;
    p.last_boot_tick = tick;
    let duration = if prev == 0 {
        0
    } else if tick >= prev {
        tick - prev
    } else {
        tick + (u64::MAX - prev) + 1
    };
    let mut detail = string_from("milestone=");
    push_u64(&mut detail, completed);
    push_str(&mut detail, "/24");
    assert(detail@ =~= milestone_text(completed as nat));
    record_with_duration(p, tick, "boot", stage, detail.as_str(), duration);
}

/// Records a service state change.
pub fn record_service(p: &mut Profiler, tick: u64, name: &str, state: &str)
    ensures
        final(p).last_boot_tick == old(p).last_boot_tick,
        pe_views(final(p).events@) == bounded_push(
            pe_views(old(p).events@),
            (tick, "service"@, name@, state@, 0u64),
            MAX_PROFILE_EVENTS as nat,
        ),
{
    record(p, tick, "service", name, state);
}

/// Records a task event, tagged with its pid.
pub fn record_task(p: &mut Profiler, tick: u64, task_id: u64, name: &str, detail: &str)
    ensures
        final(p).last_boot_tick == old(p).last_boot_tick,
        pe_views(final(p).events@) == bounded_push(
            pe_views(old(p).events@),
            (tick, "task"@, name@, "pid="@ + dec(task_id as nat) + " "@ + detail@, 0u64),
            MAX_PROFILE_EVENTS as nat,
        ),
{
    let mut d = string_from("pid=");
    push_u64(&mut d, task_id);
    push_str(&mut d, " ");
    push_str(&mut d, detail);
    assert(d@ =~= "pid="@ + dec(task_id as nat) + " "@ + detail@);
    record(p, tick, "task", name, d.as_str());
}

/// `tick kind name [+durationt] detail`, with the columns padded.
pub open spec fn profile_line(e: (u64, Seq<char>, Seq<char>, Seq<char>, u64)) -> Seq<char> {
    if e.4 > 0 {
        pad_left(dec(e.0 as nat), 6, ' ') + "  "@ + pad_right(e.1, 8) + " "@ + pad_right(e.2, 24)
            + " +"@ + dec(e.4 as nat) + "t  "@ + e.3
    } else {
        pad_left(dec(e.0 as nat), 6, ' ') + "  "@ + pad_right(e.1, 8) + " "@ + pad_right(e.2, 24)
            + " "@ + e.3
    }
}

/// One line per event, newest first, or a placeholder when there are none.
pub fn lines(p: &Profiler) -> (r: Vec<String>)
    ensures
        p.events@.len() == 0 ==> r@.len() == 1 && r@[0]@ == "no profiler events recorded"@,
        p.events@.len() > 0 ==> r@.len() == p.events@.len() && forall|i: int|
            0 <= i < r@.len() ==> (#[trigger] r@[i])@ == profile_line(
                pe_views(p.events@)[p.events@.len() - 1 - i],
            ),
{
    let mut out: Vec<String> = Vec::new();
    let n = p.events.len();
    if n == 0 {
        out.push(string_from("no profiler events recorded"));
        return out;
    }
    let mut i: usize = 0;
    while i < n
        invariant
            n == p.events@.len(),
            i <= n,
            out@.len() == i,
            forall|k: int|
                0 <= k < i ==> (#[trigger] out@[k])@ == profile_line(
                    pe_views(p.events@)[n - 1 - k],
                ),
        decreases n - i,
    {
        let e = &p.events[n - 1 - i];
        let mut s = String::new();
        push_u64_padded(&mut s, e.tick, 6, ' ');
        push_str(&mut s, "  ");
        push_padded_right(&mut s, e.kind.as_str(), 8);
        push_str(&mut s, " ");
        push_padded_right(&mut s, e.name.as_str(), 24);
        if e.duration_ticks > 0 {
            push_str(&mut s, " +");
            push_u64(&mut s, e.duration_ticks);
            push_str(&mut s, "t  ");
        } else {
            push_str(&mut s, " ");
        }
        push_str(&mut s, e.detail.as_str());
        assert(s@ =~= profile_line(pe_views(p.events@)[n - 1 - i]));
        out.push(s);
        i = i + 1;
    }
    out
}

pub open spec fn slow_line(e: (u64, Seq<char>, Seq<char>, Seq<char>, u64)) -> Seq<char> {
    e.1 + " "@ + e.2 + " took "@ + dec(e.4 as nat) + " ticks"@
}

/// The events at or over `threshold` ticks, oldest first.
pub open spec fn slow_events(s: Seq<(u64, Seq<char>, Seq<char>, Seq<char>, u64)>, threshold: u64) -> Seq<
    (u64, Seq<char>, Seq<char>, Seq<char>, u64),
>
    decreases s.len(),
{
    if s.len() == 0 {
        Seq::empty()
    } else if s.last().4 >= threshold {
        slow_events(s.drop_last(), threshold).push(s.last())
    } else {
        slow_events(s.drop_last(), threshold)
    }
}

/// The phases that took 300 ms or more, or a placeholder line.
pub fn slow_lines(p: &Profiler) -> (r: Vec<String>)
    ensures
        slow_events(pe_views(p.events@), crate::interrupts::millis_ticks(300) as u64).len() == 0
            ==> r@.len() == 1 && r@[0]@ == "no slow phases above 300ms"@,
        slow_events(pe_views(p.events@), crate::interrupts::millis_ticks(300) as u64).len() > 0
            ==> r@.len() == slow_events(
            pe_views(p.events@),
            crate::interrupts::millis_ticks(300) as u64,
        ).len() && forall|i: int|
            0 <= i < r@.len() ==> (#[trigger] r@[i])@ == slow_line(
                slow_events(pe_views(p.events@), crate::interrupts::millis_ticks(300) as u64)[i],
            ),
{
    let threshold = crate::interrupts::ticks_for_millis(300);
    let ghost v = pe_views(p.events@);
    let mut out: Vec<String> = Vec::new();
    let mut i: usize = 0;
    while i < p.events.len()
        invariant
            v == pe_views(p.events@),
            threshold == crate::interrupts::millis_ticks(300),
            i <= p.events@.len(),
            out@.len() == slow_events(v.take(i as int), threshold).len(),
            forall|k: int|
                0 <= k < out@.len() ==> (#[trigger] out@[k])@ == slow_line(
                    slow_events(v.take(i as int), threshold)[k],
                ),
        decreases p.events@.len() - i,
    {
        assert(v.take(i + 1).drop_last() =~= v.take(i as int));
        let e = &p.events[i];
        if e.duration_ticks >= threshold {
            let mut s = e.kind.clone();
            push_str(&mut s, " ");
            push_str(&mut s, e.name.as_str());
            push_str(&mut s, " took ");
            push_u64(&mut s, e.duration_ticks);
            push_str(&mut s, " ticks");
            assert(s@ =~= slow_line(v[i as int]));
            out.push(s);
        }
        i = i + 1;
    }
    assert(v.take(i as int) =~= v);
    if out.len() == 0 {
        out.push(string_from("no slow phases above 300ms"));
    }
    out
}

} // verus!
