use vstd::prelude::*;
use crate::event_bus::{bus_view, emit, emit_step, emit_steps, EventBus};
use crate::klog::KernelLog;
use crate::text::{dec, eq_ic, pad_left, push_str, push_u64, push_u64_padded, string_from};

verus! {

#[derive(Debug, Clone, Copy, PartialEq, Eq, Structural)]
pub enum ServiceState {
    Stopped,
    Running,
    Failed,
}

pub open spec fn service_state_text(s: ServiceState) -> Seq<char> {
    match s {
        ServiceState::Stopped => "stopped"@,
        ServiceState::Running => "running"@,
        ServiceState::Failed => "failed"@,
    }
}

impl ServiceState {
    pub fn label(self) -> (r: &'static str)
        ensures
            r@ == service_state_text(self),
    {
        match self {
            ServiceState::Stopped => "stopped",
            ServiceState::Running => "running",
            ServiceState::Failed => "failed",
        }
    }
}

/// A supervised system service.
pub struct Service {
    pub name: &'static str,
    pub order: u8,
    pub restart: &'static str,
    pub state: ServiceState,
    pub restarts: u32,
}

pub open spec fn service_view(s: Service) -> (Seq<char>, u8, Seq<char>, ServiceState, u32) {
    (s.name@, s.order, s.restart@, s.state, s.restarts)
}

pub open spec fn service_views(v: Seq<Service>) -> Seq<(Seq<char>, u8, Seq<char>, ServiceState, u32)> {
    v.map_values(|s: Service| service_view(s))
}

/// The service supervisor's table, in start order.
pub struct Supervisor {
    pub services: Vec<Service>,
}

/// The built-in services, in start order, all running.
pub open spec fn initial_services() -> Seq<(Seq<char>, u8, Seq<char>, ServiceState, u32)> {
    seq![
        ("event-bus"@, 1u8, "always"@, ServiceState::Running, 0u32),
        ("device-registry"@, 2u8, "always"@, ServiceState::Running, 0u32),
        ("search-index"@, 3u8, "manual"@, ServiceState::Running, 0u32),
        ("package-db"@, 4u8, "on-failure"@, ServiceState::Running, 0u32),
        ("notification-center"@, 5u8, "always"@, ServiceState::Running, 0u32),
        ("network-stack"@, 6u8, "manual"@, ServiceState::Running, 0u32),
        ("power-manager"@, 7u8, "manual"@, ServiceState::Running, 0u32),
    ]
}

fn service(name: &'static str, order: u8, restart: &'static str) -> (r: Service)
    ensures
        service_view(r) == (name@, order, restart@, ServiceState::Running, 0u32),
{
    Service { name, order, restart, state: ServiceState::Running, restarts: 0 }
}

/// Sets up the supervisor with the built-in services.
pub fn init(bus: &mut EventBus, klog: &mut KernelLog, tick: u64) -> (r: Supervisor)
    ensures
        bus_view(*final(bus), *final(klog)) == emit_step(
            bus_view(*old(bus), *old(klog)),
            tick,
            "services"@,
            "boot"@,
            "service supervisor initialized"@,
        ),
        service_views(r.services@) == initial_services(),
{
    let mut v: Vec<Service> = Vec::new();
    v.push(service("event-bus", 1, "always"));
    v.push(service("device-registry", 2, "always"));
    v.push(service("search-index", 3, "manual"));
    v.push(service("package-db", 4, "on-failure"));
    v.push(service("notification-center", 5, "always"));
    v.push(service("network-stack", 6, "manual"));
    v.push(service("power-manager", 7, "manual"));
    assert(service_views(v@) =~= initial_services());
    emit(bus, klog, tick, "services", "boot", "service supervisor initialized");
    Supervisor { services: v }
}

/// Index of the first service whose name matches, ignoring ASCII case.
pub open spec fn service_index(s: Seq<(Seq<char>, u8, Seq<char>, ServiceState, u32)>, name: Seq<char>, from: int) -> Option<
    int,
>
    decreases s.len() - from,
{
    if from < 0 || from >= s.len() {
        None
    } else if eq_ic(s[from].0, name) {
        Some(from)
    } else {
        service_index(s, name, from + 1)
    }
}

proof fn lemma_service_index(s: Seq<(Seq<char>, u8, Seq<char>, ServiceState, u32)>, name: Seq<char>, from: int)
    ensures
        service_index(s, name, from) matches Some(k) ==> from <= k < s.len(),
    decreases s.len() - from,
{
    if 0 <= from < s.len() && !eq_ic(s[from].0, name) {
        lemma_service_index(s, name, from + 1);
    }
}

fn find_service(sup: &Supervisor, name: &str) -> (r: Option<usize>)
    ensures
        match r {
            Some(k) => service_index(service_views(sup.services@), name@, 0) == Some(k as int) && k
                < sup.services@.len(),
            None => service_index(service_views(sup.services@), name@, 0) is None,
        },
{
    let ghost v = service_views(sup.services@);
    proof {
        lemma_service_index(v, name@, 0);
    }
    let mut i: usize = 0;
    while i < sup.services.len()
        invariant
            v == service_views(sup.services@),
            i <= sup.services@.len(),
            service_index(v, name@, 0) == service_index(v, name@, i as int),
        decreases sup.services@.len() - i,
    {
        if crate::text::str_eq_ignore_case(sup.services[i].name, name) {
            return Some(i);
        }
        i = i + 1;
    }
    None
}

/// The table after the first service named `name` takes `state`.
pub open spec fn with_state(s: Seq<(Seq<char>, u8, Seq<char>, ServiceState, u32)>, name: Seq<char>, state: ServiceState) -> Seq<
    (Seq<char>, u8, Seq<char>, ServiceState, u32),
> {
    match service_index(s, name, 0) {
        None => s,
        Some(k) => s.update(k, (s[k].0, s[k].1, s[k].2, state, s[k].4)),
    }
}

/// The bus and log after the service named `name` takes `state`: one
/// `services` event naming the state and the service, when it exists.
pub open spec fn announced(
    b: (u64, Seq<(u64, u64, Seq<char>, Seq<char>, Seq<char>)>, Seq<Seq<char>>),
    s: Seq<(Seq<char>, u8, Seq<char>, ServiceState, u32)>,
    name: Seq<char>,
    tick: u64,
    state: ServiceState,
) -> (u64, Seq<(u64, u64, Seq<char>, Seq<char>, Seq<char>)>, Seq<Seq<char>>) {
    match service_index(s, name, 0) {
        None => b,
        Some(k) => emit_step(b, tick, "services"@, service_state_text(state), s[k].0),
    }
}

fn set_state(
    sup: &mut Supervisor,
    bus: &mut EventBus,
    klog: &mut KernelLog,
    tick: u64,
    name: &str,
    state: ServiceState,
) -> (r: bool)
    ensures
        bus_view(*final(bus), *final(klog)) == announced(
            bus_view(*old(bus), *old(klog)),
            service_views(old(sup).services@),
            name@,
            tick,
            state,
        ),
        r == service_index(service_views(old(sup).services@), name@, 0) is Some,
        service_views(final(sup).services@) == with_state(
            service_views(old(sup).services@),
            name@,
            state,
        ),
{
    let ghost v = service_views(sup.services@);
    match find_service(sup, name) {
        None => false,
        Some(k) => {
            let s = &sup.services[k];
            let ns = Service {
                name: s.name,
                order: s.order,
                restart: s.restart,
                state,
                restarts: s.restarts,
            };
            emit(bus, klog, tick, "services", state.label(), s.name);
            sup.services.set(k, ns);
            assert(service_views(sup.services@) =~= with_state(v, name@, state));
            true
        },
    }
}

pub fn start(sup: &mut Supervisor, bus: &mut EventBus, klog: &mut KernelLog, tick: u64, name: &str) -> (r: bool)
    ensures
        bus_view(*final(bus), *final(klog)) == announced(
            bus_view(*old(bus), *old(klog)),
            service_views(old(sup).services@),
            name@,
            tick,
            ServiceState::Running,
        ),
        r == service_index(service_views(old(sup).services@), name@, 0) is Some,
        service_views(final(sup).services@) == with_state(
            service_views(old(sup).services@),
            name@,
            ServiceState::Running,
        ),
{
    set_state(sup, bus, klog, tick, name, ServiceState::Running)
}

pub fn stop(sup: &mut Supervisor, bus: &mut EventBus, klog: &mut KernelLog, tick: u64, name: &str) -> (r: bool)
    ensures
        bus_view(*final(bus), *final(klog)) == announced(
            bus_view(*old(bus), *old(klog)),
            service_views(old(sup).services@),
            name@,
            tick,
            ServiceState::Stopped,
        ),
        r == service_index(service_views(old(sup).services@), name@, 0) is Some,
        service_views(final(sup).services@) == with_state(
            service_views(old(sup).services@),
            name@,
            ServiceState::Stopped,
        ),
{
    set_state(sup, bus, klog, tick, name, ServiceState::Stopped)
}

pub fn fail(sup: &mut Supervisor, bus: &mut EventBus, klog: &mut KernelLog, tick: u64, name: &str) -> (r: bool)
    ensures
        bus_view(*final(bus), *final(klog)) == announced(
            bus_view(*old(bus), *old(klog)),
            service_views(old(sup).services@),
            name@,
            tick,
            ServiceState::Failed,
        ),
        r == service_index(service_views(old(sup).services@), name@, 0) is Some,
        service_views(final(sup).services@) == with_state(
            service_views(old(sup).services@),
            name@,
            ServiceState::Failed,
        ),
{
    set_state(sup, bus, klog, tick, name, ServiceState::Failed)
}

/// A service after one supervision pass: a failed one whose policy is
/// `always` or `on-failure` is running again, with one more restart.
pub open spec fn supervised(s: (Seq<char>, u8, Seq<char>, ServiceState, u32)) -> (
    Seq<char>,
    u8,
    Seq<char>,
    ServiceState,
    u32,
) {
    if s.3 == ServiceState::Failed && (s.2 == "always"@ || s.2 == "on-failure"@) {
        (
            s.0,
            s.1,
            s.2,
            ServiceState::Running,
            if s.4 == u32::MAX {
                u32::MAX
            } else {
                (s.4 + 1) as u32
            },
        )
    } else {
        s
    }
}

/// Whether a supervision pass restarts the service.
pub open spec fn restartable(s: (Seq<char>, u8, Seq<char>, ServiceState, u32)) -> bool {
    s.3 == ServiceState::Failed && (s.2 == "always"@ || s.2 == "on-failure"@)
}

/// Names of the services a supervision pass restarts, in table order.
pub open spec fn restarted(s: Seq<(Seq<char>, u8, Seq<char>, ServiceState, u32)>) -> Seq<Seq<char>>
    decreases s.len(),
{
    if s.len() == 0 {
        Seq::empty()
    } else if restartable(s.last()) {
        restarted(s.drop_last()).push(s.last().0)
    } else {
        restarted(s.drop_last())
    }
}

/// A supervision pass brings back every failed service whose restart
/// policy reads `always` or `on-failure`: it runs again with one more
/// restart (the count saturating), keeps its name, order and policy, and
/// its name is among those the pass announces.
pub proof fn lemma_supervise_restarts_failed(
    v: Seq<(Seq<char>, u8, Seq<char>, ServiceState, u32)>,
    i: int,
)
    requires
        0 <= i < v.len(),
        v[i].3 == ServiceState::Failed,
        v[i].2 == "always"@ || v[i].2 == "on-failure"@,
    ensures
        v.map_values(|s: (Seq<char>, u8, Seq<char>, ServiceState, u32)| supervised(s))[i] == (
            v[i].0,
            v[i].1,
            v[i].2,
            ServiceState::Running,
            if v[i].4 == u32::MAX {
                u32::MAX
            } else {
                (v[i].4 + 1) as u32
            },
        ),
        restarted(v).contains(v[i].0),
    decreases v.len(),
{
    if i == v.len() - 1 {
        assert(restarted(v)[restarted(v).len() - 1] == v[i].0);
    } else {
        let w = v.drop_last();
        assert(w[i] == v[i]);
        lemma_supervise_restarts_failed(w, i);
        let k = choose|k: int| 0 <= k < restarted(w).len() && restarted(w)[k] == v[i].0;
        if restartable(v.last()) {
            assert(restarted(v)[k] == v[i].0);
        }
    }
}

/// A supervision pass leaves alone every service that has not failed, and
/// every failed one whose policy is neither `always` nor `on-failure`.
pub proof fn lemma_supervise_leaves_others(
    v: Seq<(Seq<char>, u8, Seq<char>, ServiceState, u32)>,
    i: int,
)
    requires
        0 <= i < v.len(),
        v[i].3 != ServiceState::Failed || (v[i].2 != "always"@ && v[i].2 != "on-failure"@),
    ensures
        v.map_values(|s: (Seq<char>, u8, Seq<char>, ServiceState, u32)| supervised(s))[i] == v[i],
{
}

/// Setting a service's state finds it by name ignoring ASCII case: the
/// first service whose name matches takes the new state and keeps its
/// name, order, policy and restart count, and every other service is left
/// as it was; when no name matches nothing changes.
pub proof fn lemma_set_state_by_name(
    s: Seq<(Seq<char>, u8, Seq<char>, ServiceState, u32)>,
    name: Seq<char>,
    state: ServiceState,
    j: int,
)
    requires
        0 <= j < s.len(),
    ensures
        with_state(s, name, state).len() == s.len(),
        (forall|k: int| 0 <= k < s.len() ==> !eq_ic(#[trigger] s[k].0, name)) ==> with_state(
            s,
            name,
            state,
        ) == s,
        eq_ic(s[j].0, name) && (forall|k: int| 0 <= k < j ==> !eq_ic(#[trigger] s[k].0, name))
            ==> with_state(s, name, state)[j] == (s[j].0, s[j].1, s[j].2, state, s[j].4),
        !eq_ic(s[j].0, name) ==> with_state(s, name, state)[j] == s[j],
{
    lemma_service_index_first(s, name, 0);
}

proof fn lemma_service_index_first(s: Seq<(Seq<char>, u8, Seq<char>, ServiceState, u32)>, name: Seq<char>, from: int)
    requires
        0 <= from,
    ensures
        service_index(s, name, from) matches Some(k) ==> from <= k < s.len() && eq_ic(s[k].0, name)
            && forall|m: int| from <= m < k ==> !eq_ic(#[trigger] s[m].0, name),
        service_index(s, name, from) is None ==> forall|m: int| from <= m < s.len() ==> !eq_ic(
            #[trigger] s[m].0,
            name,
        ),
    decreases s.len() - from,
{
    if from < s.len() && !eq_ic(s[from].0, name) {
        lemma_service_index_first(s, name, from + 1);
    }
}

/// Restarts every failed service whose policy allows it, with a `restart`
/// event for each.
pub fn supervise(sup: &mut Supervisor, bus: &mut EventBus, klog: &mut KernelLog, tick: u64)
    ensures
        bus_view(*final(bus), *final(klog)) == emit_steps(
            bus_view(*old(bus), *old(klog)),
            tick,
            "services"@,
            "restart"@,
            restarted(service_views(old(sup).services@)),
        ),
        service_views(final(sup).services@) == service_views(old(sup).services@).map_values(
            |s: (Seq<char>, u8, Seq<char>, ServiceState, u32)| supervised(s),
        ),
{
    let ghost v = service_views(sup.services@);
    let ghost b0 = bus_view(*bus, *klog);
    proof {
        assert(v.take(0) =~= Seq::<(Seq<char>, u8, Seq<char>, ServiceState, u32)>::empty());
    }
    let n = sup.services.len();
    let mut out: Vec<Service> = Vec::new();
    let mut i: usize = 0;
    while i < n
        invariant
            n == sup.services@.len(),
            v == service_views(sup.services@),
            i <= n,
            bus_view(*bus, *klog) == emit_steps(
                b0,
                tick,
                "services"@,
                "restart"@,
                restarted(v.take(i as int)),
            ),
            service_views(out@) == v.take(i as int).map_values(
                |s: (Seq<char>, u8, Seq<char>, ServiceState, u32)| supervised(s),
            ),
        decreases n - i,
    {
        let ghost o = out@;
        let s = &sup.services[i];
        let policy_restarts = crate::text::str_eq(s.restart, "always") || crate::text::str_eq(
            s.restart,
            "on-failure",
        );
        proof {
            assert(v.take(i + 1).drop_last() =~= v.take(i as int));
            assert(v.take(i + 1).last() == v[i as int]);
            assert(v[i as int] == service_view(*s));
        }
        let ns = if s.state == ServiceState::Failed && policy_restarts {
            proof {
                assert(restartable(v[i as int]));
                assert(restarted(v.take(i + 1)) == restarted(v.take(i as int)).push(v[i as int].0));
                assert(restarted(v.take(i as int)).push(v[i as int].0).drop_last() =~= restarted(
                    v.take(i as int),
                ));
            }
            emit(bus, klog, tick, "services", "restart", s.name);
            Service {
                name: s.name,
                order: s.order,
                restart: s.restart,
                state: ServiceState::Running,
                restarts: s.restarts.saturating_add(1),
            }
        } else {
            proof {
                assert(!restartable(v[i as int]));
                assert(restarted(v.take(i + 1)) == restarted(v.take(i as int)));
            }
            Service {
                name: s.name,
                order: s.order,
                restart: s.restart,
                state: s.state,
                restarts: s.restarts,
            }
        };
        assert(service_view(ns) == supervised(v[i as int]));
        out.push(ns);
        assert(service_views(out@) =~= service_views(o).push(service_view(ns)));
        i = i + 1;
        assert(service_views(out@) =~= v.take(i as int).map_values(
            |s: (Seq<char>, u8, Seq<char>, ServiceState, u32)| supervised(s),
        ));
    }
    assert(v.take(n as int) =~= v);
    sup.services = out;
}

/// `NN name state=.. restart=.. restarts=..`
pub open spec fn service_line(s: (Seq<char>, u8, Seq<char>, ServiceState, u32)) -> Seq<char> {
    pad_left(dec(s.1 as nat), 2, '0') + " "@ + s.0 + " state="@ + service_state_text(s.3)
        + " restart="@ + s.2 + " restarts="@ + dec(s.4 as nat)
}

pub fn lines(sup: &Supervisor) -> (r: Vec<String>)
    ensures
        r@.len() == sup.services@.len(),
        forall|i: int|
            0 <= i < r@.len() ==> (#[trigger] r@[i])@ == service_line(
                service_views(sup.services@)[i],
            ),
{
    let mut out: Vec<String> = Vec::new();
    let mut i: usize = 0;
    while i < sup.services.len()
        invariant
            i <= sup.services@.len(),
            out@.len() == i,
            forall|k: int|
                0 <= k < i ==> (#[trigger] out@[k])@ == service_line(
                    service_views(sup.services@)[k],
                ),
        decreases sup.services@.len() - i,
    {
        let s = &sup.services[i];
        let mut line = String::new();
        push_u64_padded(&mut line, s.order as u64, 2, '0');
        push_str(&mut line, " ");
        push_str(&mut line, s.name);
        push_str(&mut line, " state=");
        push_str(&mut line, s.state.label());
        push_str(&mut line, " restart=");
        push_str(&mut line, s.restart);
        push_str(&mut line, " restarts=");
        push_u64(&mut line, s.restarts as u64);
        assert(line@ =~= service_line(service_views(sup.services@)[i as int]));
        out.push(line);
        i = i + 1;
    }
    out
}

} // verus!
