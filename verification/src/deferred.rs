use vstd::prelude::*;
use crate::text::{dec, pad_left, push_str, push_u64_padded, string_from};

verus! {

/// How many pieces of work can wait at once.
pub const MAX_QUEUE: usize = 32;

/// Work postponed until the system is idle.
#[derive(Debug, Clone, Copy, PartialEq, Eq, Structural)]
pub enum DeferredWork {
    FlushKernelLog,
    FlushFilesystemJournal,
    FlushWriteback,
    PersistTaskSnapshot,
    RefreshSearchIndex,
    UpdateSearchIndex,
}

pub open spec fn work_text(w: DeferredWork) -> Seq<char> {
    match w {
        DeferredWork::FlushKernelLog => "flush-kernel-log"@,
        DeferredWork::FlushFilesystemJournal => "flush-fs-journal"@,
        DeferredWork::FlushWriteback => "flush-writeback"@,
        DeferredWork::PersistTaskSnapshot => "persist-task-table"@,
        DeferredWork::RefreshSearchIndex => "refresh-search-index"@,
        DeferredWork::UpdateSearchIndex => "update-search-index"@,
    }
}

impl DeferredWork {
    pub fn label(self) -> (r: &'static str)
        ensures
            r@ == work_text(self),
    {
        match self {
            DeferredWork::FlushKernelLog => "flush-kernel-log",
            DeferredWork::FlushFilesystemJournal => "flush-fs-journal",
            DeferredWork::FlushWriteback => "flush-writeback",
            DeferredWork::PersistTaskSnapshot => "persist-task-table",
            DeferredWork::RefreshSearchIndex => "refresh-search-index",
            DeferredWork::UpdateSearchIndex => "update-search-index",
        }
    }
}

/// The queue of postponed work, oldest first, each kind at most once.
pub struct DeferredQueue {
    pub queue: Vec<DeferredWork>,
}

impl DeferredQueue {
    pub fn new() -> (r: DeferredQueue)
        ensures
            r.queue@.len() == 0,
    {
        DeferredQueue { queue: Vec::new() }
    }
}

/// The queue after offering `work`: unchanged when it already waits, else
/// appended, the oldest entry dropped first when the queue is full.
pub open spec fn enqueued(q: Seq<DeferredWork>, work: DeferredWork) -> Seq<DeferredWork> {
    if q.contains(work) {
        q
    } else if q.len() >= 32 {
        q.drop_first().push(work)
    } else {
        q.push(work)
    }
}

pub fn enqueue(q: &mut DeferredQueue, work: DeferredWork)
    ensures
        final(q).queue@ == enqueued(old(q).queue@, work),
{
    let mut i: usize = 0;
    while i < q.queue.len()
        invariant
            i <= q.queue@.len(),
            forall|k: int| 0 <= k < i ==> q.queue@[k] != work,
        decreases q.queue@.len() - i,
    {
        if q.queue[i] == work {
            assert(q.queue@.contains(work)) by {
                assert(q.queue@[i as int] == work);
            }
            return;
        }
        i = i + 1;
    }
    assert(!q.queue@.contains(work));
    let ghost before = q.queue@;
    if q.queue.len() >= MAX_QUEUE {
        q.queue.remove(0);
        assert(q.queue@ =~= before.drop_first());
    }
    q.queue.push(work);
}

/// Takes the oldest waiting work.
pub fn pop_work(q: &mut DeferredQueue) -> (r: Option<DeferredWork>)
    ensures
        old(q).queue@.len() == 0 ==> r is None && final(q).queue@ == old(q).queue@,
        old(q).queue@.len() > 0 ==> r == Some(old(q).queue@[0]) && final(q).queue@ == old(
            q,
        ).queue@.drop_first(),
{
    if q.queue.len() == 0 {
        None
    } else {
        let w = q.queue.remove(0);
        assert(q.queue@ =~= old(q).queue@.drop_first());
        Some(w)
    }
}

/// Takes up to `max_items` of the oldest waiting work, in order; the
/// caller runs them.
pub fn drain_budget(q: &mut DeferredQueue, max_items: usize) -> (r: Vec<DeferredWork>)
    ensures
        r@ == old(q).queue@.take(
            if max_items < old(q).queue@.len() {
                max_items as int
            } else {
                old(q).queue@.len() as int
            },
        ),
        final(q).queue@ == old(q).queue@.skip(r@.len() as int),
{
    let ghost q0 = q.queue@;
    let mut out: Vec<DeferredWork> = Vec::new();
    let mut n: usize = 0;
    while n < max_items && q.queue.len() > 0
        invariant
            n <= max_items,
            n <= q0.len(),
            out@ == q0.take(n as int),
            q.queue@ == q0.skip(n as int),
        decreases max_items - n,
    {
        let w = q.queue.remove(0);
        out.push(w);
        n = n + 1;
        assert(out@ =~= q0.take(n as int));
        assert(q.queue@ =~= q0.skip(n as int));
    }
    assert(out@.len() == n);
    out
}

/// `NN label` with a two-digit position.
pub open spec fn queue_line(i: nat, w: DeferredWork) -> Seq<char> {
    pad_left(dec(i), 2, '0') + " "@ + work_text(w)
}

/// One line per waiting work, or a placeholder when the queue is empty.
pub fn lines(q: &DeferredQueue) -> (r: Vec<String>)
    ensures
        q.queue@.len() == 0 ==> r@.len() == 1 && r@[0]@ == "deferred queue empty"@,
        q.queue@.len() > 0 ==> r@.len() == q.queue@.len() && forall|i: int|
            0 <= i < r@.len() ==> (#[trigger] r@[i])@ == queue_line(i as nat, q.queue@[i]),
{
    let mut out: Vec<String> = Vec::new();
    if q.queue.len() == 0 {
        out.push(string_from("deferred queue empty"));
        return out;
    }
    let mut i: usize = 0;
    while i < q.queue.len()
        invariant
            i <= q.queue@.len(),
            out@.len() == i,
            forall|k: int| 0 <= k < i ==> (#[trigger] out@[k])@ == queue_line(k as nat, q.queue@[k]),
        decreases q.queue@.len() - i,
    {
        let mut s = String::new();
        push_u64_padded(&mut s, i as u64, 2, '0');
        push_str(&mut s, " ");
        push_str(&mut s, q.queue[i].label());
        assert(s@ =~= queue_line(i as nat, q.queue@[i as int]));
        out.push(s);
        i = i + 1;
    }
    out
}

} // verus!
