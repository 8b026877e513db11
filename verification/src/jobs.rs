use vstd::prelude::*;
use crate::bounded::{bounded_push, last_n, push_bounded, tail_start};
use crate::event_bus::{
    bus_view, emit, emit_step, id_after, lemma_id_after, next_after, next_id_after, EventBus,
};
use crate::klog::KernelLog;
use crate::text::{dec, push_str, push_u64, string_from};

verus! {

/// How many jobs the table keeps.
pub const MAX_JOBS: usize = 32;

#[derive(Debug, Clone, Copy, PartialEq, Eq, Structural)]
pub enum JobState {
    Running,
    Paused,
    Cancelled,
    Complete,
    Failed,
}

pub open spec fn job_state_text(s: JobState) -> Seq<char> {
    match s {
        JobState::Running => "running"@,
        JobState::Paused => "paused"@,
        JobState::Cancelled => "cancelled"@,
        JobState::Complete => "complete"@,
        JobState::Failed => "failed"@,
    }
}

impl JobState {
    pub fn label(self) -> (r: &'static str)
        ensures
            r@ == job_state_text(self),
    {
        match self {
            JobState::Running => "running",
            JobState::Paused => "paused",
            JobState::Cancelled => "cancelled",
            JobState::Complete => "complete",
            JobState::Failed => "failed",
        }
    }
}

/// A background job and how far it has got.
pub struct Job {
    pub id: u64,
    pub tick: u64,
    pub title: String,
    pub detail: String,
    pub progress: u8,
    pub state: JobState,
}

pub open spec fn job_view(j: Job) -> (u64, u64, Seq<char>, Seq<char>, u8, JobState) {
    (j.id, j.tick, j.title@, j.detail@, j.progress, j.state)
}

pub open spec fn job_views(v: Seq<Job>) -> Seq<(u64, u64, Seq<char>, Seq<char>, u8, JobState)> {
    v.map_values(|j: Job| job_view(j))
}

/// The job table, oldest first.
pub struct Jobs {
    pub next_id: u64,
    pub jobs: Vec<Job>,
}

impl Jobs {
    pub fn new() -> (r: Jobs)
        ensures
            r.next_id == 1,
            r.jobs@.len() == 0,
    {
        Jobs { next_id: 1, jobs: Vec::new() }
    }
}

/// Starts a running job at `tick` and gives its id.
pub fn start(
    jobs: &mut Jobs,
    bus: &mut EventBus,
    klog: &mut KernelLog,
    tick: u64,
    title: &str,
    detail: &str,
) -> (r: u64)
    ensures
        bus_view(*final(bus), *final(klog)) == emit_step(
            bus_view(*old(bus), *old(klog)),
            tick,
            "jobs"@,
            "start"@,
            title@,
        ),
        r == old(jobs).next_id,
        final(jobs).next_id == next_after(old(jobs).next_id),
        job_views(final(jobs).jobs@) == bounded_push(
            job_views(old(jobs).jobs@),
            (r, tick, title@, detail@, 0u8, JobState::Running),
            MAX_JOBS as nat,
        ),
{
    let id = jobs.next_id;
    let j = Job {
        id,
        tick,
        title: string_from(title),
        detail: string_from(detail),
        progress: 0,
        state: JobState::Running,
    };
    jobs.next_id = next_id_after(jobs.next_id);
    let ghost before = jobs.jobs@;
    push_bounded(&mut jobs.jobs, j, MAX_JOBS);
    assert(job_views(before.push(j)) =~= job_views(before).push(job_view(j)));
    assert(job_views(before.push(j).drop_first()) =~= job_views(before).push(
        job_view(j),
    ).drop_first());
    emit(bus, klog, tick, "jobs", "start", title);
    id
}

/// The bus and log after a change of the job with `id` to `state`: one
/// `jobs` event naming the new state and the job's title, when such a job
/// exists.
pub open spec fn announced(
    b: (u64, Seq<(u64, u64, Seq<char>, Seq<char>, Seq<char>)>, Seq<Seq<char>>),
    s: Seq<(u64, u64, Seq<char>, Seq<char>, u8, JobState)>,
    id: u64,
    tick: u64,
    state: JobState,
) -> (u64, Seq<(u64, u64, Seq<char>, Seq<char>, Seq<char>)>, Seq<Seq<char>>) {
    match job_index(s, id, 0) {
        None => b,
        Some(k) => emit_step(b, tick, "jobs"@, job_state_text(state), s[k].2),
    }
}

/// Job ids strictly increase: of the jobs started one after another, a
/// later one gets a larger id, until the counter reaches its limit.
pub proof fn lemma_job_ids_increase(first: u64, i: nat, j: nat)
    requires
        i < j,
        first + j <= u64::MAX,
    ensures
        id_after(first, i) < id_after(first, j),
{
    lemma_id_after(first, i);
    lemma_id_after(first, j);
}

/// Index of the first job with the given id.
pub open spec fn job_index(s: Seq<(u64, u64, Seq<char>, Seq<char>, u8, JobState)>, id: u64, from: int) -> Option<
    int,
>
    decreases s.len() - from,
{
    if from < 0 || from >= s.len() {
        None
    } else if s[from].0 == id {
        Some(from)
    } else {
        job_index(s, id, from + 1)
    }
}

proof fn lemma_job_index(s: Seq<(u64, u64, Seq<char>, Seq<char>, u8, JobState)>, id: u64, from: int)
    ensures
        job_index(s, id, from) matches Some(k) ==> from <= k < s.len() && s[k].0 == id,
    decreases s.len() - from,
{
    if 0 <= from < s.len() && s[from].0 != id {
        lemma_job_index(s, id, from + 1);
    }
}

/// Every stored job id is below `next`.
pub open spec fn job_ids_below(s: Seq<(u64, u64, Seq<char>, Seq<char>, u8, JobState)>, next: u64) -> bool {
    forall|i: int| 0 <= i < s.len() ==> (#[trigger] s[i]).0 < next
}

/// An id never handed out names no job: with every stored id below the
/// next one, looking up that id or a later one finds nothing.
pub proof fn lemma_unissued_id_not_found(
    s: Seq<(u64, u64, Seq<char>, Seq<char>, u8, JobState)>,
    next: u64,
    id: u64,
)
    requires
        job_ids_below(s, next),
        id >= next,
    ensures
        job_index(s, id, 0) is None,
{
    lemma_job_index(s, id, 0);
}

/// Starting a job keeps every stored id below the next one, as long as the
/// counter has not reached its limit.
pub proof fn lemma_start_keeps_ids_below(
    s: Seq<(u64, u64, Seq<char>, Seq<char>, u8, JobState)>,
    next: u64,
    x: (u64, u64, Seq<char>, Seq<char>, u8, JobState),
)
    requires
        job_ids_below(s, next),
        next < u64::MAX,
        x.0 == next,
    ensures
        job_ids_below(bounded_push(s, x, MAX_JOBS as nat), next_after(next)),
{
    let r = bounded_push(s, x, MAX_JOBS as nat);
    assert forall|i: int| 0 <= i < r.len() implies (#[trigger] r[i]).0 < next_after(next) by {
        if s.push(x).len() > MAX_JOBS {
            assert(r[i] == s.push(x)[i + 1]);
        }
    }
}


fn find_job(jobs: &Jobs, id: u64) -> (r: Option<usize>)
    ensures
        match r {
            Some(k) => job_index(job_views(jobs.jobs@), id, 0) == Some(k as int) && k
                < jobs.jobs@.len(),
            None => job_index(job_views(jobs.jobs@), id, 0) is None,
        },
{
    proof {
        lemma_job_index(job_views(jobs.jobs@), id, 0);
    }
    let ghost v = job_views(jobs.jobs@);
    let mut i: usize = 0;
    while i < jobs.jobs.len()
        invariant
            v == job_views(jobs.jobs@),
            i <= jobs.jobs@.len(),
            job_index(v, id, 0) == job_index(v, id, i as int),
        decreases jobs.jobs@.len() - i,
    {
        if jobs.jobs[i].id == id {
            return Some(i);
        }
        i = i + 1;
    }
    None
}

/// The table after the first job with `id` gets the progress (at most 100),
/// state and detail.
pub open spec fn updated(
    s: Seq<(u64, u64, Seq<char>, Seq<char>, u8, JobState)>,
    id: u64,
    progress: u8,
    state: JobState,
    detail: Seq<char>,
) -> Seq<(u64, u64, Seq<char>, Seq<char>, u8, JobState)> {
    match job_index(s, id, 0) {
        None => s,
        Some(k) => s.update(k, (s[k].0, s[k].1, s[k].2, detail, progress, state)),
    }
}

pub open spec fn capped(p: u8) -> u8 {
    if p < 100 {
        p
    } else {
        100
    }
}

fn update(
    jobs: &mut Jobs,
    bus: &mut EventBus,
    klog: &mut KernelLog,
    tick: u64,
    id: u64,
    progress: u8,
    state: JobState,
    detail: &str,
) -> (r: bool)
    ensures
        bus_view(*final(bus), *final(klog)) == announced(
            bus_view(*old(bus), *old(klog)),
            job_views(old(jobs).jobs@),
            id,
            tick,
            state,
        ),
        final(jobs).next_id == old(jobs).next_id,
        job_views(final(jobs).jobs@) == updated(
            job_views(old(jobs).jobs@),
            id,
            progress,
            state,
            detail@,
        ),
        r == job_index(job_views(old(jobs).jobs@), id, 0) is Some,
{
    proof {
        lemma_job_index(job_views(jobs.jobs@), id, 0);
    }
    match find_job(jobs, id) {
        None => false,
        Some(k) => {
            let ghost v = job_views(jobs.jobs@);
            let old_job = &jobs.jobs[k];
            emit(bus, klog, tick, "jobs", state.label(), old_job.title.as_str());
            let j = Job {
                id: old_job.id,
                tick: old_job.tick,
                title: old_job.title.clone(),
                detail: string_from(detail),
                progress,
                state,
            };
            jobs.jobs.set(k, j);
            assert(job_views(jobs.jobs@) =~= updated(v, id, progress, state, detail@));
            true
        },
    }
}

/// Marks the job complete at 100%.
pub fn complete(jobs: &mut Jobs, bus: &mut EventBus, klog: &mut KernelLog, tick: u64, id: u64, detail: &str)
    ensures
        bus_view(*final(bus), *final(klog)) == announced(
            bus_view(*old(bus), *old(klog)),
            job_views(old(jobs).jobs@),
            id,
            tick,
            JobState::Complete,
        ),
        final(jobs).next_id == old(jobs).next_id,
        job_views(final(jobs).jobs@) == updated(
            job_views(old(jobs).jobs@),
            id,
            100,
            JobState::Complete,
            detail@,
        ),
{
    update(jobs, bus, klog, tick, id, 100, JobState::Complete, detail);
}

/// Reports progress (capped at 100%) on a running job.
pub fn progress(
    jobs: &mut Jobs,
    bus: &mut EventBus,
    klog: &mut KernelLog,
    tick: u64,
    id: u64,
    progress: u8,
    detail: &str,
)
    ensures
        bus_view(*final(bus), *final(klog)) == announced(
            bus_view(*old(bus), *old(klog)),
            job_views(old(jobs).jobs@),
            id,
            tick,
            JobState::Running,
        ),
        final(jobs).next_id == old(jobs).next_id,
        job_views(final(jobs).jobs@) == updated(
            job_views(old(jobs).jobs@),
            id,
            capped(progress),
            JobState::Running,
            detail@,
        ),
{
    let p = if progress < 100 {
        progress
    } else {
        100
    };
    update(jobs, bus, klog, tick, id, p, JobState::Running, detail);
}

/// Marks the job failed at 100%.
pub fn fail(jobs: &mut Jobs, bus: &mut EventBus, klog: &mut KernelLog, tick: u64, id: u64, detail: &str)
    ensures
        bus_view(*final(bus), *final(klog)) == announced(
            bus_view(*old(bus), *old(klog)),
            job_views(old(jobs).jobs@),
            id,
            tick,
            JobState::Failed,
        ),
        final(jobs).next_id == old(jobs).next_id,
        job_views(final(jobs).jobs@) == updated(
            job_views(old(jobs).jobs@),
            id,
            100,
            JobState::Failed,
            detail@,
        ),
{
    update(jobs, bus, klog, tick, id, 100, JobState::Failed, detail);
}

fn set_state(
    jobs: &mut Jobs,
    bus: &mut EventBus,
    klog: &mut KernelLog,
    tick: u64,
    id: u64,
    state: JobState,
    detail: &str,
) -> (r: bool)
    ensures
        bus_view(*final(bus), *final(klog)) == announced(
            bus_view(*old(bus), *old(klog)),
            job_views(old(jobs).jobs@),
            id,
            tick,
            state,
        ),
        final(jobs).next_id == old(jobs).next_id,
        r == job_index(job_views(old(jobs).jobs@), id, 0) is Some,
        job_views(final(jobs).jobs@) == match job_index(job_views(old(jobs).jobs@), id, 0) {
            None => job_views(old(jobs).jobs@),
            Some(k) => updated(
                job_views(old(jobs).jobs@),
                id,
                job_views(old(jobs).jobs@)[k].4,
                state,
                detail@,
            ),
        },
{
    match find_job(jobs, id) {
        None => false,
        Some(k) => {
            let p = jobs.jobs[k].progress;
            update(jobs, bus, klog, tick, id, p, state, detail)
        },
    }
}

/// Asks the job to stop; `false` when no job has that id.
pub fn cancel(jobs: &mut Jobs, bus: &mut EventBus, klog: &mut KernelLog, tick: u64, id: u64) -> (r: bool)
    ensures
        bus_view(*final(bus), *final(klog)) == announced(
            bus_view(*old(bus), *old(klog)),
            job_views(old(jobs).jobs@),
            id,
            tick,
            JobState::Cancelled,
        ),
        final(jobs).next_id == old(jobs).next_id,
        r == job_index(job_views(old(jobs).jobs@), id, 0) is Some,
        job_views(final(jobs).jobs@) == match job_index(job_views(old(jobs).jobs@), id, 0) {
            None => job_views(old(jobs).jobs@),
            Some(k) => updated(
                job_views(old(jobs).jobs@),
                id,
                job_views(old(jobs).jobs@)[k].4,
                JobState::Cancelled,
                "cancel requested"@,
            ),
        },
{
    set_state(jobs, bus, klog, tick, id, JobState::Cancelled, "cancel requested")
}

/// Sets the job running again; `false` when no job has that id.
pub fn resume(jobs: &mut Jobs, bus: &mut EventBus, klog: &mut KernelLog, tick: u64, id: u64) -> (r: bool)
    ensures
        bus_view(*final(bus), *final(klog)) == announced(
            bus_view(*old(bus), *old(klog)),
            job_views(old(jobs).jobs@),
            id,
            tick,
            JobState::Running,
        ),
        final(jobs).next_id == old(jobs).next_id,
        r == job_index(job_views(old(jobs).jobs@), id, 0) is Some,
        job_views(final(jobs).jobs@) == match job_index(job_views(old(jobs).jobs@), id, 0) {
            None => job_views(old(jobs).jobs@),
            Some(k) => updated(
                job_views(old(jobs).jobs@),
                id,
                job_views(old(jobs).jobs@)[k].4,
                JobState::Running,
                "resume requested"@,
            ),
        },
{
    set_state(jobs, bus, klog, tick, id, JobState::Running, "resume requested")
}

/// Whether the first job with `id` has been cancelled.
pub fn is_cancelled(jobs: &Jobs, id: u64) -> (r: bool)
    ensures
        r == match job_index(job_views(jobs.jobs@), id, 0) {
            None => false,
            Some(k) => job_views(jobs.jobs@)[k].5 == JobState::Cancelled,
        },
{
    match find_job(jobs, id) {
        None => false,
        Some(k) => jobs.jobs[k].state == JobState::Cancelled,
    }
}

fn copy_job(j: &Job) -> (r: Job)
    ensures
        job_view(r) == job_view(*j),
{
    Job {
        id: j.id,
        tick: j.tick,
        title: j.title.clone(),
        detail: j.detail.clone(),
        progress: j.progress,
        state: j.state,
    }
}

/// The last `limit` jobs, oldest first.
pub fn recent(jobs: &Jobs, limit: usize) -> (r: Vec<Job>)
    ensures
        job_views(r@) == last_n(job_views(jobs.jobs@), limit as nat),
{
    let start = tail_start(jobs.jobs.len(), limit);
    let mut out: Vec<Job> = Vec::new();
    let mut i = start;
    while i < jobs.jobs.len()
        invariant
            start <= i <= jobs.jobs@.len(),
            job_views(out@) == job_views(jobs.jobs@).subrange(start as int, i as int),
        decreases jobs.jobs@.len() - i,
    {
        let ghost o = out@;
        let j = copy_job(&jobs.jobs[i]);
        assert(job_view(j) == job_views(jobs.jobs@)[i as int]);
        out.push(j);
        assert(job_views(out@) =~= job_views(o).push(job_view(j)));
        i = i + 1;
        assert(job_views(out@) =~= job_views(jobs.jobs@).subrange(start as int, i as int));
    }
    assert(job_views(jobs.jobs@).len() == jobs.jobs@.len());
    assert(job_views(out@) =~= last_n(job_views(jobs.jobs@), limit as nat));
    out
}

/// `#id t=tick state progress% title - detail`
pub open spec fn job_line(j: (u64, u64, Seq<char>, Seq<char>, u8, JobState)) -> Seq<char> {
    "#"@ + dec(j.0 as nat) + " t="@ + dec(j.1 as nat) + " "@ + job_state_text(j.5) + " "@ + dec(
        j.4 as nat,
    ) + "% "@ + j.2 + " - "@ + j.3
}

/// One line per job, newest first, at most twelve; a placeholder line when
/// there are none.
pub fn lines(jobs: &Jobs) -> (r: Vec<String>)
    ensures
        jobs.jobs@.len() == 0 ==> r@.len() == 1 && r@[0]@ == "no background jobs"@,
        jobs.jobs@.len() > 0 ==> r@.len() == (if jobs.jobs@.len() < 12 {
            jobs.jobs@.len() as int
        } else {
            12
        }) && forall|i: int|
            0 <= i < r@.len() ==> (#[trigger] r@[i])@ == job_line(
                job_views(jobs.jobs@)[jobs.jobs@.len() - 1 - i],
            ),
{
    let mut out: Vec<String> = Vec::new();
    let n = jobs.jobs.len();
    if n == 0 {
        out.push(string_from("no background jobs"));
        return out;
    }
    let take = if n < 12 {
        n
    } else {
        12
    };
    let mut i: usize = 0;
    while i < take
        invariant
            n == jobs.jobs@.len(),
            take <= n,
            i <= take,
            out@.len() == i,
            forall|k: int|
                0 <= k < i ==> (#[trigger] out@[k])@ == job_line(
                    job_views(jobs.jobs@)[n - 1 - k],
                ),
        decreases take - i,
    {
        let j = &jobs.jobs[n - 1 - i];
        let mut s = string_from("#");
        push_u64(&mut s, j.id);
        push_str(&mut s, " t=");
        push_u64(&mut s, j.tick);
        push_str(&mut s, " ");
        push_str(&mut s, j.state.label());
        push_str(&mut s, " ");
        push_u64(&mut s, j.progress as u64);
        push_str(&mut s, "% ");
        push_str(&mut s, j.title.as_str());
        push_str(&mut s, " - ");
        push_str(&mut s, j.detail.as_str());
        assert(s@ =~= job_line(job_views(jobs.jobs@)[n - 1 - i]));
        out.push(s);
        i = i + 1;
    }
    out
}

} // verus!
