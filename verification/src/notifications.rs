use vstd::prelude::*;
use crate::bounded::{bounded_push, last_n, lemma_bounded_push_last_n, push_bounded, tail_start};
use crate::event_bus::{id_after, next_after, next_id_after};
use crate::klog::{line_views, log_kv, log_line, KernelLog, MAX_LINES};
use crate::text::string_from;

verus! {

/// How many notifications the center keeps.
pub const MAX_NOTIFICATIONS: usize = 24;

pub struct Notification {
    pub id: u64,
    pub tick: u64,
    pub title: String,
    pub body: String,
    pub unread: bool,
}

pub open spec fn note_view(n: Notification) -> (u64, u64, Seq<char>, Seq<char>, bool) {
    (n.id, n.tick, n.title@, n.body@, n.unread)
}

pub open spec fn note_views(v: Seq<Notification>) -> Seq<(u64, u64, Seq<char>, Seq<char>, bool)> {
    v.map_values(|n: Notification| note_view(n))
}

/// The notification center: recent notifications, oldest first.
pub struct NotificationCenter {
    pub next_id: u64,
    pub items: Vec<Notification>,
}

impl NotificationCenter {
    pub fn new() -> (r: NotificationCenter)
        ensures
            r.next_id == 1,
            r.items@.len() == 0,
    {
        NotificationCenter { next_id: 1, items: Vec::new() }
    }
}

fn copy_note(n: &Notification) -> (r: Notification)
    ensures
        note_view(r) == note_view(*n),
{
    Notification {
        id: n.id,
        tick: n.tick,
        title: n.title.clone(),
        body: n.body.clone(),
        unread: n.unread,
    }
}

/// Posts an unread notification at `tick`, keeping at most
/// [`MAX_NOTIFICATIONS`].
pub fn push(center: &mut NotificationCenter, klog: &mut KernelLog, tick: u64, title: &str, body: &str)
    ensures
        line_views(final(klog).lines@) == bounded_push(
            line_views(old(klog).lines@),
            log_line(tick, title@ + ": "@ + body@),
            MAX_LINES as nat,
        ),
        final(center).next_id == next_after(old(center).next_id),
        note_views(final(center).items@) == bounded_push(
            note_views(old(center).items@),
            (old(center).next_id, tick, title@, body@, true),
            MAX_NOTIFICATIONS as nat,
        ),
{
    log_kv(klog, tick, title, body);
    let n = Notification {
        id: center.next_id,
        tick,
        title: string_from(title),
        body: string_from(body),
        unread: true,
    };
    center.next_id = next_id_after(center.next_id);
    let ghost before = center.items@;
    push_bounded(&mut center.items, n, MAX_NOTIFICATIONS);
    assert(note_views(before.push(n)) =~= note_views(before).push(note_view(n)));
    assert(note_views(before.push(n).drop_first()) =~= note_views(before).push(
        note_view(n),
    ).drop_first());
}

fn copy_range(center: &NotificationCenter, start: usize) -> (r: Vec<Notification>)
    requires
        start <= center.items@.len(),
    ensures
        note_views(r@) == note_views(center.items@).skip(start as int),
{
    let mut out: Vec<Notification> = Vec::new();
    let mut i = start;
    while i < center.items.len()
        invariant
            start <= i <= center.items@.len(),
            note_views(out@) == note_views(center.items@).subrange(start as int, i as int),
        decreases center.items@.len() - i,
    {
        let ghost o = out@;
        let n = copy_note(&center.items[i]);
        assert(note_view(n) == note_views(center.items@)[i as int]);
        out.push(n);
        assert(note_views(out@) =~= note_views(o).push(note_view(n)));
        i = i + 1;
        assert(note_views(out@) =~= note_views(center.items@).subrange(start as int, i as int));
    }
    assert(note_views(center.items@).len() == center.items@.len());
    assert(note_views(out@) =~= note_views(center.items@).skip(start as int));
    out
}

/// Every notification, oldest first.
pub fn list(center: &NotificationCenter) -> (r: Vec<Notification>)
    ensures
        note_views(r@) == note_views(center.items@),
{
    let r = copy_range(center, 0);
    assert(note_views(center.items@).skip(0) =~= note_views(center.items@));
    r
}

/// The last `limit` notifications, oldest first.
pub fn latest(center: &NotificationCenter, limit: usize) -> (r: Vec<Notification>)
    ensures
        note_views(r@) == last_n(note_views(center.items@), limit as nat),
{
    let start = tail_start(center.items.len(), limit);
    let r = copy_range(center, start);
    assert(note_views(center.items@).len() == center.items@.len());
    assert(note_views(r@) =~= last_n(note_views(center.items@), limit as nat));
    r
}

/// How many of the notifications are unread.
pub open spec fn unread_in(s: Seq<(u64, u64, Seq<char>, Seq<char>, bool)>) -> nat
    decreases s.len(),
{
    if s.len() == 0 {
        0
    } else {
        unread_in(s.drop_last()) + if s.last().4 {
            1nat
        } else {
            0nat
        }
    }
}

/// The notifications after the posts `(tick, title, body)` are made one by
/// one, the first taking id `first`.
pub open spec fn posts_applied(
    s: Seq<(u64, u64, Seq<char>, Seq<char>, bool)>,
    first: u64,
    posts: Seq<(u64, Seq<char>, Seq<char>)>,
) -> Seq<(u64, u64, Seq<char>, Seq<char>, bool)>
    decreases posts.len(),
{
    if posts.len() == 0 {
        s
    } else {
        bounded_push(
            posts_applied(s, first, posts.drop_last()),
            (
                id_after(first, (posts.len() - 1) as nat),
                posts.last().0,
                posts.last().1,
                posts.last().2,
                true,
            ),
            MAX_NOTIFICATIONS as nat,
        )
    }
}

/// Every posted notification starts unread: while the center has room,
/// `k` posts raise the unread count by `k`.
pub proof fn lemma_unread_after_posts(
    s: Seq<(u64, u64, Seq<char>, Seq<char>, bool)>,
    first: u64,
    posts: Seq<(u64, Seq<char>, Seq<char>)>,
)
    requires
        s.len() + posts.len() <= MAX_NOTIFICATIONS,
    ensures
        posts_applied(s, first, posts).len() == s.len() + posts.len(),
        unread_in(posts_applied(s, first, posts)) == unread_in(s) + posts.len(),
    decreases posts.len(),
{
    if posts.len() > 0 {
        let d = posts.drop_last();
        lemma_unread_after_posts(s, first, d);
        let prev = posts_applied(s, first, d);
        let n = (id_after(first, (posts.len() - 1) as nat), posts.last().0, posts.last().1, posts.last().2, true);
        assert(prev.push(n).drop_last() =~= prev);
    }
}

/// The notifications a run of posts adds, numbered from `first`.
pub open spec fn new_notes(first: u64, posts: Seq<(u64, Seq<char>, Seq<char>)>) -> Seq<
    (u64, u64, Seq<char>, Seq<char>, bool),
> {
    Seq::new(
        posts.len(),
        |i: int| (id_after(first, i as nat), posts[i].0, posts[i].1, posts[i].2, true),
    )
}

/// The center keeps the most recent [`MAX_NOTIFICATIONS`]: after any run of
/// posts it holds the last of what it held followed by the new, unread
/// ones; so the unread count is that of those last notifications.
pub proof fn lemma_posts_keep_last(
    s: Seq<(u64, u64, Seq<char>, Seq<char>, bool)>,
    first: u64,
    posts: Seq<(u64, Seq<char>, Seq<char>)>,
)
    requires
        s.len() <= MAX_NOTIFICATIONS,
    ensures
        posts_applied(s, first, posts) == last_n(s + new_notes(first, posts), MAX_NOTIFICATIONS as nat),
        unread_in(posts_applied(s, first, posts)) == unread_in(
            last_n(s + new_notes(first, posts), MAX_NOTIFICATIONS as nat),
        ),
    decreases posts.len(),
{
    if posts.len() == 0 {
        assert(s + new_notes(first, posts) =~= s);
    } else {
        let d = posts.drop_last();
        lemma_posts_keep_last(s, first, d);
        let prev = s + new_notes(first, d);
        let n = (id_after(first, (posts.len() - 1) as nat), posts.last().0, posts.last().1, posts.last().2, true);
        lemma_bounded_push_last_n(prev, n, MAX_NOTIFICATIONS as nat);
        assert(prev.push(n) =~= s + new_notes(first, posts));
    }
}

/// Every stored id is below `next`.
pub open spec fn ids_below(s: Seq<(u64, u64, Seq<char>, Seq<char>, bool)>, next: u64) -> bool {
    forall|i: int| 0 <= i < s.len() ==> (#[trigger] s[i]).0 < next
}

/// Ids only grow: when every stored id is below the next one and the
/// counter has not reached its limit, a post keeps that so and its id
/// exceeds every earlier one.
pub proof fn lemma_post_ids_grow(
    s: Seq<(u64, u64, Seq<char>, Seq<char>, bool)>,
    next: u64,
    tick: u64,
    title: Seq<char>,
    body: Seq<char>,
)
    requires
        ids_below(s, next),
        next < u64::MAX,
    ensures
        ids_below(
            bounded_push(s, (next, tick, title, body, true), MAX_NOTIFICATIONS as nat),
            next_after(next),
        ),
        forall|i: int|
            0 <= i < s.len() ==> (#[trigger] s[i]).0 < bounded_push(
                s,
                (next, tick, title, body, true),
                MAX_NOTIFICATIONS as nat,
            ).last().0,
{
    let x = (next, tick, title, body, true);
    let r = bounded_push(s, x, MAX_NOTIFICATIONS as nat);
    assert(r.last() == x);
    assert forall|i: int| 0 <= i < r.len() implies (#[trigger] r[i]).0 < next_after(next) by {
        if s.push(x).len() > MAX_NOTIFICATIONS {
            assert(r[i] == s.push(x)[i + 1]);
        }
    }
}

pub fn unread_count(center: &NotificationCenter) -> (r: usize)
    ensures
        r == unread_in(note_views(center.items@)),
{
    let ghost v = note_views(center.items@);
    let mut count: usize = 0;
    let mut i: usize = 0;
    while i < center.items.len()
        invariant
            v == note_views(center.items@),
            i <= center.items@.len(),
            count == unread_in(v.take(i as int)),
            count <= i,
        decreases center.items@.len() - i,
    {
        assert(v.take(i + 1).drop_last() =~= v.take(i as int));
        if center.items[i].unread {
            count = count + 1;
        }
        i = i + 1;
    }
    assert(v.take(i as int) =~= v);
    count
}

pub open spec fn read_view(n: (u64, u64, Seq<char>, Seq<char>, bool)) -> (
    u64,
    u64,
    Seq<char>,
    Seq<char>,
    bool,
) {
    (n.0, n.1, n.2, n.3, false)
}

/// Marks every notification read.
pub fn mark_all_read(center: &mut NotificationCenter)
    ensures
        final(center).next_id == old(center).next_id,
        note_views(final(center).items@) == note_views(old(center).items@).map_values(
            |n: (u64, u64, Seq<char>, Seq<char>, bool)| read_view(n),
        ),
{
    let ghost v = note_views(center.items@);
    let n = center.items.len();
    let mut out: Vec<Notification> = Vec::new();
    let mut i: usize = 0;
    while i < n
        invariant
            n == center.items@.len(),
            v == note_views(center.items@),
            i <= n,
            note_views(out@) == v.take(i as int).map_values(
                |x: (u64, u64, Seq<char>, Seq<char>, bool)| read_view(x),
            ),
        decreases n - i,
    {
        let ghost o = out@;
        let item = &center.items[i];
        let r = Notification {
            id: item.id,
            tick: item.tick,
            title: item.title.clone(),
            body: item.body.clone(),
            unread: false,
        };
        assert(note_view(r) == read_view(v[i as int]));
        out.push(r);
        assert(note_views(out@) =~= note_views(o).push(note_view(r)));
        i = i + 1;
        assert(note_views(out@) =~= v.take(i as int).map_values(
            |x: (u64, u64, Seq<char>, Seq<char>, bool)| read_view(x),
        ));
    }
    assert(v.take(n as int) =~= v);
    center.items = out;
}

/// Removes every notification.
pub fn clear(center: &mut NotificationCenter)
    ensures
        final(center).next_id == old(center).next_id,
        final(center).items@.len() == 0,
{
    center.items = Vec::new();
}

} // verus!
