use vstd::prelude::*;
use crate::bounded::{bounded_push, last_n, lemma_bounded_push_last_n, push_bounded, tail_start};
use crate::klog::{line_views, log, log_line, KernelLog, MAX_LINES};
use crate::text::{dec, push_str, push_u64, string_from};

verus! {

/// How many events the bus keeps.
pub const MAX_EVENTS: usize = 96;

/// One event: who raised it, what happened, and when.
pub struct Event {
    pub id: u64,
    pub tick: u64,
    pub source: String,
    pub kind: String,
    pub detail: String,
}

pub open spec fn event_view(e: Event) -> (u64, u64, Seq<char>, Seq<char>, Seq<char>) {
    (e.id, e.tick, e.source@, e.kind@, e.detail@)
}

pub open spec fn event_views(v: Seq<Event>) -> Seq<(u64, u64, Seq<char>, Seq<char>, Seq<char>)> {
    v.map_values(|e: Event| event_view(e))
}

/// The system event log: the most recent events, oldest first, and the id
/// the next one gets.
pub struct EventBus {
    pub next_id: u64,
    pub events: Vec<Event>,
}

/// The id after `id`; ids wrap around.
pub open spec fn next_after(id: u64) -> u64 {
    if id == u64::MAX {
        0
    } else {
        (id + 1) as u64
    }
}

/// The id handed out `n` steps after `first`.
pub open spec fn id_after(first: u64, n: nat) -> u64
    decreases n,
{
    if n == 0 {
        first
    } else {
        next_after(id_after(first, (n - 1) as nat))
    }
}

/// Ids count up by one until the counter reaches its limit.
pub proof fn lemma_id_after(first: u64, n: nat)
    requires
        first + n <= u64::MAX,
    ensures
        id_after(first, n) == first + n,
    decreases n,
{
    if n > 0 {
        lemma_id_after(first, (n - 1) as nat);
    }
}

pub fn next_id_after(id: u64) -> (r: u64)
    ensures
        r == next_after(id),
{
    if id == u64::MAX {
        0
    } else {
        id + 1
    }
}

impl EventBus {
    pub fn new() -> (r: EventBus)
        ensures
            r.next_id == 1,
            r.events@.len() == 0,
    {
        EventBus { next_id: 1, events: Vec::new() }
    }
}

pub fn copy_event(e: &Event) -> (r: Event)
    ensures
        event_view(r) == event_view(*e),
{
    Event {
        id: e.id,
        tick: e.tick,
        source: e.source.clone(),
        kind: e.kind.clone(),
        detail: e.detail.clone(),
    }
}

/// What the event bus and the kernel log hold: the next id, the events and
/// the log lines.
pub open spec fn bus_view(bus: EventBus, klog: KernelLog) -> (
    u64,
    Seq<(u64, u64, Seq<char>, Seq<char>, Seq<char>)>,
    Seq<Seq<char>>,
) {
    (bus.next_id, event_views(bus.events@), line_views(klog.lines@))
}

/// The kernel-log message an event leaves: `event source kind detail`.
pub open spec fn event_message(source: Seq<char>, kind: Seq<char>, detail: Seq<char>) -> Seq<char> {
    "event "@ + source + " "@ + kind + " "@ + detail
}

/// The bus and log after one event at `tick`: the event takes the next id
/// and joins the last [`MAX_EVENTS`], and its message joins the log.
pub open spec fn emit_step(
    s: (u64, Seq<(u64, u64, Seq<char>, Seq<char>, Seq<char>)>, Seq<Seq<char>>),
    tick: u64,
    source: Seq<char>,
    kind: Seq<char>,
    detail: Seq<char>,
) -> (u64, Seq<(u64, u64, Seq<char>, Seq<char>, Seq<char>)>, Seq<Seq<char>>) {
    (
        next_after(s.0),
        bounded_push(s.1, (s.0, tick, source, kind, detail), MAX_EVENTS as nat),
        bounded_push(s.2, log_line(tick, event_message(source, kind, detail)), MAX_LINES as nat),
    )
}

/// One event per detail in `details`, in order, all from `source` and of
/// `kind`.
pub open spec fn emit_steps(
    s: (u64, Seq<(u64, u64, Seq<char>, Seq<char>, Seq<char>)>, Seq<Seq<char>>),
    tick: u64,
    source: Seq<char>,
    kind: Seq<char>,
    details: Seq<Seq<char>>,
) -> (u64, Seq<(u64, u64, Seq<char>, Seq<char>, Seq<char>)>, Seq<Seq<char>>)
    decreases details.len(),
{
    if details.len() == 0 {
        s
    } else {
        emit_step(
            emit_steps(s, tick, source, kind, details.drop_last()),
            tick,
            source,
            kind,
            details.last(),
        )
    }
}

/// The events a run of emits adds, before any are dropped.
pub open spec fn posted(first: u64, tick: u64, source: Seq<char>, kind: Seq<char>, details: Seq<Seq<char>>) -> Seq<
    (u64, u64, Seq<char>, Seq<char>, Seq<char>),
> {
    Seq::new(details.len(), |i: int| (id_after(first, i as nat), tick, source, kind, details[i]))
}

/// The bus keeps the most recent [`MAX_EVENTS`] events: after any run of
/// emits it holds the last [`MAX_EVENTS`] of what it held followed by the
/// new events, whose ids count on from the bus's next id.
pub proof fn lemma_bus_keeps_last(
    s: (u64, Seq<(u64, u64, Seq<char>, Seq<char>, Seq<char>)>, Seq<Seq<char>>),
    tick: u64,
    source: Seq<char>,
    kind: Seq<char>,
    details: Seq<Seq<char>>,
)
    requires
        s.1.len() <= MAX_EVENTS,
    ensures
        emit_steps(s, tick, source, kind, details).0 == id_after(s.0, details.len()),
        emit_steps(s, tick, source, kind, details).1 == last_n(
            s.1 + posted(s.0, tick, source, kind, details),
            MAX_EVENTS as nat,
        ),
    decreases details.len(),
{
    if details.len() == 0 {
        assert(s.1 + posted(s.0, tick, source, kind, details) =~= s.1);
    } else {
        let d = details.drop_last();
        lemma_bus_keeps_last(s, tick, source, kind, d);
        let prev = s.1 + posted(s.0, tick, source, kind, d);
        let e = (id_after(s.0, d.len()), tick, source, kind, details.last());
        lemma_bounded_push_last_n(prev, e, MAX_EVENTS as nat);
        assert(prev.push(e) =~= s.1 + posted(s.0, tick, source, kind, details));
    }
}

/// The bus and log after the events `(tick, source, kind, detail)` are
/// emitted one after another.
pub open spec fn emit_all(
    s: (u64, Seq<(u64, u64, Seq<char>, Seq<char>, Seq<char>)>, Seq<Seq<char>>),
    evs: Seq<(u64, Seq<char>, Seq<char>, Seq<char>)>,
) -> (u64, Seq<(u64, u64, Seq<char>, Seq<char>, Seq<char>)>, Seq<Seq<char>>)
    decreases evs.len(),
{
    if evs.len() == 0 {
        s
    } else {
        let e = evs.last();
        emit_step(emit_all(s, evs.drop_last()), e.0, e.1, e.2, e.3)
    }
}

/// The events a run of emits adds, numbered from `first`.
pub open spec fn numbered(first: u64, evs: Seq<(u64, Seq<char>, Seq<char>, Seq<char>)>) -> Seq<
    (u64, u64, Seq<char>, Seq<char>, Seq<char>),
> {
    Seq::new(evs.len(), |i: int| (id_after(first, i as nat), evs[i].0, evs[i].1, evs[i].2, evs[i].3))
}

/// Whatever is emitted, the bus holds the last [`MAX_EVENTS`] events: what
/// it held followed by the new ones, numbered on from its next id.
pub proof fn lemma_bus_keeps_last_of_any(
    s: (u64, Seq<(u64, u64, Seq<char>, Seq<char>, Seq<char>)>, Seq<Seq<char>>),
    evs: Seq<(u64, Seq<char>, Seq<char>, Seq<char>)>,
)
    requires
        s.1.len() <= MAX_EVENTS,
    ensures
        emit_all(s, evs).0 == id_after(s.0, evs.len()),
        emit_all(s, evs).1 == last_n(s.1 + numbered(s.0, evs), MAX_EVENTS as nat),
    decreases evs.len(),
{
    if evs.len() == 0 {
        assert(s.1 + numbered(s.0, evs) =~= s.1);
    } else {
        let d = evs.drop_last();
        lemma_bus_keeps_last_of_any(s, d);
        let prev = s.1 + numbered(s.0, d);
        let e = evs.last();
        let ev = (id_after(s.0, d.len()), e.0, e.1, e.2, e.3);
        lemma_bounded_push_last_n(prev, ev, MAX_EVENTS as nat);
        assert(prev.push(ev) =~= s.1 + numbered(s.0, evs));
    }
}

/// Records an event at `tick`, keeping at most [`MAX_EVENTS`], and logs it.
pub fn emit(bus: &mut EventBus, klog: &mut KernelLog, tick: u64, source: &str, kind: &str, detail: &str)
    ensures
        bus_view(*final(bus), *final(klog)) == emit_step(
            bus_view(*old(bus), *old(klog)),
            tick,
            source@,
            kind@,
            detail@,
        ),
{
    let mut m = string_from("event ");
    push_str(&mut m, source);
    push_str(&mut m, " ");
    push_str(&mut m, kind);
    push_str(&mut m, " ");
    push_str(&mut m, detail);
    assert(m@ =~= event_message(source@, kind@, detail@));
    log(klog, tick, m.as_str());
    let e = Event {
        id: bus.next_id,
        tick,
        source: string_from(source),
        kind: string_from(kind),
        detail: string_from(detail),
    };
    bus.next_id = next_id_after(bus.next_id);
    let ghost before = bus.events@;
    push_bounded(&mut bus.events, e, MAX_EVENTS);
    assert(event_views(before.push(e)) =~= event_views(before).push(event_view(e)));
    assert(event_views(before.push(e).drop_first()) =~= event_views(before).push(
        event_view(e),
    ).drop_first());
}

/// Copies of the last `limit` events, oldest first.
pub fn recent(bus: &EventBus, limit: usize) -> (r: Vec<Event>)
    ensures
        event_views(r@) == last_n(event_views(bus.events@), limit as nat),
{
    let start = tail_start(bus.events.len(), limit);
    let mut out: Vec<Event> = Vec::new();
    let mut i = start;
    while i < bus.events.len()
        invariant
            start <= i <= bus.events@.len(),
            event_views(out@) == event_views(bus.events@).subrange(start as int, i as int),
        decreases bus.events@.len() - i,
    {
        let ghost o = out@;
        let e = copy_event(&bus.events[i]);
        assert(event_view(e) == event_views(bus.events@)[i as int]);
        out.push(e);
        assert(event_views(out@) =~= event_views(o).push(event_view(e)));
        i = i + 1;
        assert(event_views(out@) =~= event_views(bus.events@).subrange(start as int, i as int));
    }
    assert(event_views(bus.events@).len() == bus.events@.len());
    assert(event_views(out@) =~= last_n(event_views(bus.events@), limit as nat));
    out
}

/// `#id t=tick source:kind detail`
pub open spec fn event_line(e: (u64, u64, Seq<char>, Seq<char>, Seq<char>)) -> Seq<char> {
    "#"@ + dec(e.0 as nat) + " t="@ + dec(e.1 as nat) + " "@ + e.2 + ":"@ + e.3 + " "@ + e.4
}

pub fn format_event(e: &Event) -> (r: String)
    ensures
        r@ == event_line(event_view(*e)),
{
    let mut s = string_from("#");
    push_u64(&mut s, e.id);
    push_str(&mut s, " t=");
    push_u64(&mut s, e.tick);
    push_str(&mut s, " ");
    push_str(&mut s, e.source.as_str());
    push_str(&mut s, ":");
    push_str(&mut s, e.kind.as_str());
    push_str(&mut s, " ");
    push_str(&mut s, e.detail.as_str());
    assert(s@ =~= event_line(event_view(*e)));
    s
}

/// One line per recent event, oldest first.
pub fn lines(bus: &EventBus, limit: usize) -> (r: Vec<String>)
    ensures
        r@.len() == last_n(event_views(bus.events@), limit as nat).len(),
        forall|i: int|
            0 <= i < r@.len() ==> (#[trigger] r@[i])@ == event_line(
                last_n(event_views(bus.events@), limit as nat)[i],
            ),
{
    let events = recent(bus, limit);
    let mut out: Vec<String> = Vec::new();
    let mut i: usize = 0;
    while i < events.len()
        invariant
            i <= events@.len(),
            out@.len() == i,
            forall|k: int|
                0 <= k < i ==> (#[trigger] out@[k])@ == event_line(event_views(events@)[k]),
        decreases events@.len() - i,
    {
        out.push(format_event(&events[i]));
        i = i + 1;
    }
    out
}

} // verus!
