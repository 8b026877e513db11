use vstd::prelude::*;
use crate::text::{dec, push_str, push_u64, string_from};

verus! {

/// How many subsystems are tracked at once.
pub const MAX_SUBSYSTEMS: usize = 16;

/// Allocation counters of one subsystem.
pub struct SlabCounter {
    pub subsystem: String,
    pub allocs: u64,
    pub frees: u64,
    pub live: u64,
    pub bytes_live: u64,
    pub high_water: u64,
}

pub open spec fn counter_view(c: SlabCounter) -> (Seq<char>, u64, u64, u64, u64, u64) {
    (c.subsystem@, c.allocs, c.frees, c.live, c.bytes_live, c.high_water)
}

pub open spec fn counter_views(v: Seq<SlabCounter>) -> Seq<(Seq<char>, u64, u64, u64, u64, u64)> {
    v.map_values(|c: SlabCounter| counter_view(c))
}

pub struct SlabStats {
    pub counters: Vec<SlabCounter>,
}

impl SlabStats {
    pub fn new() -> (r: SlabStats)
        ensures
            r.counters@.len() == 0,
    {
        SlabStats { counters: Vec::new() }
    }
}

pub open spec fn sat_add(a: u64, b: u64) -> u64 {
    if a + b > u64::MAX {
        u64::MAX
    } else {
        (a + b) as u64
    }
}

pub open spec fn sat_sub(a: u64, b: u64) -> u64 {
    if a < b {
        0
    } else {
        (a - b) as u64
    }
}

/// Index of the subsystem's counter.
pub open spec fn counter_index(s: Seq<(Seq<char>, u64, u64, u64, u64, u64)>, name: Seq<char>, from: int) -> Option<
    int,
>
    decreases s.len() - from,
{
    if from < 0 || from >= s.len() {
        None
    } else if s[from].0 == name {
        Some(from)
    } else {
        counter_index(s, name, from + 1)
    }
}

/// A counter after one allocation or free of `bytes`.
pub open spec fn counted(c: (Seq<char>, u64, u64, u64, u64, u64), bytes: u64, alloc: bool) -> (
    Seq<char>,
    u64,
    u64,
    u64,
    u64,
    u64,
) {
    if alloc {
        let live_bytes = sat_add(c.4, bytes);
        (
            c.0,
            sat_add(c.1, 1),
            c.2,
            sat_add(c.3, 1),
            live_bytes,
            if c.5 < live_bytes {
                live_bytes
            } else {
                c.5
            },
        )
    } else {
        (c.0, c.1, sat_add(c.2, 1), sat_sub(c.3, 1), sat_sub(c.4, bytes), c.5)
    }
}

/// The counters after recording an allocation or a free for `name`: an
/// existing counter is updated, otherwise a new one is added (dropping the
/// oldest when the table is full).
pub open spec fn recorded(
    s: Seq<(Seq<char>, u64, u64, u64, u64, u64)>,
    name: Seq<char>,
    bytes: u64,
    alloc: bool,
) -> Seq<(Seq<char>, u64, u64, u64, u64, u64)> {
    match counter_index(s, name, 0) {
        Some(k) => s.update(k, counted(s[k], bytes, alloc)),
        None => {
            let base = if s.len() >= 16 {
                s.drop_first()
            } else {
                s
            };
            base.push(
                if alloc {
                    (name, 1u64, 0u64, 1u64, bytes, bytes)
                } else {
                    (name, 0u64, 1u64, 0u64, 0u64, 0u64)
                },
            )
        },
    }
}

proof fn lemma_counter_index(s: Seq<(Seq<char>, u64, u64, u64, u64, u64)>, name: Seq<char>, from: int)
    ensures
        counter_index(s, name, from) matches Some(k) ==> from <= k < s.len() && s[k].0 == name,
    decreases s.len() - from,
{
    if 0 <= from < s.len() && s[from].0 != name {
        lemma_counter_index(s, name, from + 1);
    }
}

fn find_counter(stats: &SlabStats, name: &str) -> (r: Option<usize>)
    ensures
        match r {
            Some(k) => counter_index(counter_views(stats.counters@), name@, 0) == Some(k as int)
                && k < stats.counters@.len(),
            None => counter_index(counter_views(stats.counters@), name@, 0) is None,
        },
{
    let ghost v = counter_views(stats.counters@);
    proof {
        lemma_counter_index(v, name@, 0);
    }
    let mut i: usize = 0;
    while i < stats.counters.len()
        invariant
            v == counter_views(stats.counters@),
            i <= stats.counters@.len(),
            counter_index(v, name@, 0) == counter_index(v, name@, i as int),
        decreases stats.counters@.len() - i,
    {
        if crate::text::str_eq(stats.counters[i].subsystem.as_str(), name) {
            return Some(i);
        }
        i = i + 1;
    }
    None
}

fn update(stats: &mut SlabStats, subsystem: &str, bytes: u64, alloc: bool)
    ensures
        counter_views(final(stats).counters@) == recorded(
            counter_views(old(stats).counters@),
            subsystem@,
            bytes,
            alloc,
        ),
{
    let ghost v = counter_views(stats.counters@);
    if let Some(i) = find_counter(stats, subsystem) {
        let c = &stats.counters[i];
        let nc = if alloc {
            let live_bytes = c.bytes_live.saturating_add(bytes);
            SlabCounter {
                subsystem: c.subsystem.clone(),
                allocs: c.allocs.saturating_add(1),
                frees: c.frees,
                live: c.live.saturating_add(1),
                bytes_live: live_bytes,
                high_water: if c.high_water < live_bytes {
                    live_bytes
                } else {
                    c.high_water
                },
            }
        } else {
            SlabCounter {
                subsystem: c.subsystem.clone(),
                allocs: c.allocs,
                frees: c.frees.saturating_add(1),
                live: c.live.saturating_sub(1),
                bytes_live: c.bytes_live.saturating_sub(bytes),
                high_water: c.high_water,
            }
        };
        stats.counters.set(i, nc);
        assert(counter_views(stats.counters@) =~= recorded(v, subsystem@, bytes, alloc));
        return;
    }
    if stats.counters.len() >= MAX_SUBSYSTEMS {
        stats.counters.remove(0);
    }
    let ghost mid = stats.counters@;
    stats.counters.push(
        SlabCounter {
            subsystem: string_from(subsystem),
            allocs: if alloc {
                1
            } else {
                0
            },
            frees: if alloc {
                0
            } else {
                1
            },
            live: if alloc {
                1
            } else {
                0
            },
            bytes_live: if alloc {
                bytes
            } else {
                0
            },
            high_water: if alloc {
                bytes
            } else {
                0
            },
        },
    );
    assert(counter_views(stats.counters@) =~= recorded(v, subsystem@, bytes, alloc));
}

/// Counts an allocation of `bytes` for `subsystem`.
pub fn record_alloc(stats: &mut SlabStats, subsystem: &str, bytes: u64)
    ensures
        counter_views(final(stats).counters@) == recorded(
            counter_views(old(stats).counters@),
            subsystem@,
            bytes,
            true,
        ),
{
    update(stats, subsystem, bytes, true);
}

/// Counts a free of `bytes` for `subsystem`.
pub fn record_free(stats: &mut SlabStats, subsystem: &str, bytes: u64)
    ensures
        counter_views(final(stats).counters@) == recorded(
            counter_views(old(stats).counters@),
            subsystem@,
            bytes,
            false,
        ),
{
    update(stats, subsystem, bytes, false);
}

pub open spec fn counter_line(c: (Seq<char>, u64, u64, u64, u64, u64)) -> Seq<char> {
    c.0 + " allocs="@ + dec(c.1 as nat) + " frees="@ + dec(c.2 as nat) + " live="@ + dec(
        c.3 as nat,
    ) + " bytes_live="@ + dec(c.4 as nat) + " high_water="@ + dec(c.5 as nat)
}

/// One line per tracked subsystem, or a placeholder when none is tracked.
pub fn lines(stats: &SlabStats) -> (r: Vec<String>)
    ensures
        stats.counters@.len() == 0 ==> r@.len() == 1 && r@[0]@
            == "no slab-tracked allocations yet"@,
        stats.counters@.len() > 0 ==> r@.len() == stats.counters@.len() && forall|i: int|
            0 <= i < r@.len() ==> (#[trigger] r@[i])@ == counter_line(
                counter_views(stats.counters@)[i],
            ),
{
    let mut out: Vec<String> = Vec::new();
    if stats.counters.len() == 0 {
        out.push(string_from("no slab-tracked allocations yet"));
        return out;
    }
    let mut i: usize = 0;
    while i < stats.counters.len()
        invariant
            i <= stats.counters@.len(),
            out@.len() == i,
            forall|k: int|
                0 <= k < i ==> (#[trigger] out@[k])@ == counter_line(
                    counter_views(stats.counters@)[k],
                ),
        decreases stats.counters@.len() - i,
    {
        let c = &stats.counters[i];
        let mut s = c.subsystem.clone();
        push_str(&mut s, " allocs=");
        push_u64(&mut s, c.allocs);
        push_str(&mut s, " frees=");
        push_u64(&mut s, c.frees);
        push_str(&mut s, " live=");
        push_u64(&mut s, c.live);
        push_str(&mut s, " bytes_live=");
        push_u64(&mut s, c.bytes_live);
        push_str(&mut s, " high_water=");
        push_u64(&mut s, c.high_water);
        assert(s@ =~= counter_line(counter_views(stats.counters@)[i as int]));
        out.push(s);
        i = i + 1;
    }
    out
}

} // verus!
