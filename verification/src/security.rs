use vstd::prelude::*;
use crate::event_bus::{bus_view, emit, emit_step, EventBus};
use crate::klog::KernelLog;
use crate::text::upper_seq;

verus! {

/// The signed-in user.
pub struct User {
    pub name: &'static str,
    pub role: &'static str,
}

/// Announces the single-user profile on the event bus.
pub fn init(bus: &mut EventBus, klog: &mut KernelLog, tick: u64)
    ensures
        bus_view(*final(bus), *final(klog)) == emit_step(
            bus_view(*old(bus), *old(klog)),
            tick,
            "security"@,
            "init"@,
            "single-user admin profile active"@,
        ),
{
    emit(bus, klog, tick, "security", "init", "single-user admin profile active");
}

pub fn current_user() -> (r: User)
    ensures
        r.name@ == "user"@,
        r.role@ == "admin"@,
{
    User { name: "user", role: "admin" }
}

/// Whether a path is one of the system folders (or inside one), compared
/// without regard to ASCII case.
pub open spec fn protected(path: Seq<char>) -> bool {
    let u = upper_seq(path);
    u == "/"@ || u == "/CONFIG"@ || u == "/LOGS"@ || u == "/DEV"@ || u == "/APPS"@
        || "/CONFIG/"@.is_prefix_of(u) || "/LOGS/"@.is_prefix_of(u) || "/DEV/"@.is_prefix_of(u)
}

fn seq_starts_with(s: &[char], p: &str) -> (r: bool)
    ensures
        r == p@.is_prefix_of(s@),
{
    let pc = crate::text::chars_of(p);
    if pc.len() > s.len() {
        return false;
    }
    let mut i: usize = 0;
    while i < pc.len()
        invariant
            pc@ == p@,
            pc@.len() <= s@.len(),
            i <= pc@.len(),
            forall|k: int| 0 <= k < i ==> pc@[k] == s@[k],
        decreases pc@.len() - i,
    {
        if pc[i] != s[i] {
            return false;
        }
        i = i + 1;
    }
    true
}

pub fn is_protected_path(path: &str) -> (r: bool)
    ensures
        r == protected(path@),
{
    let pc = crate::text::chars_of(path);
    let uc = crate::text::to_upper(pc.as_slice());
    let us = uc.as_slice();
    crate::text::is(us, "/") || crate::text::is(us, "/CONFIG") || crate::text::is(us, "/LOGS")
        || crate::text::is(us, "/DEV") || crate::text::is(us, "/APPS") || seq_starts_with(
        us,
        "/CONFIG/",
    ) || seq_starts_with(us, "/LOGS/") || seq_starts_with(us, "/DEV/")
}

pub fn can_write_path(path: &str) -> (r: bool)
    ensures
        r == !protected(path@),
{
    !is_protected_path(path)
}

pub fn can_read_path(path: &str) -> (r: bool)
    ensures
        r,
{
    true
}

} // verus!
