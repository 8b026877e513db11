use vstd::prelude::*;
use crate::pci::{Header, Location};
use crate::text::{hex, pad_left, push_hex, push_str, push_u64, string_from};

verus! {

/// A device known to the system.
pub struct DeviceInfo {
    pub bus: &'static str,
    pub location: String,
    pub name: String,
    pub class_name: String,
    pub status: String,
}

pub open spec fn device_view(d: DeviceInfo) -> (Seq<char>, Seq<char>, Seq<char>, Seq<char>, Seq<char>) {
    (d.bus@, d.location@, d.name@, d.class_name@, d.status@)
}

pub open spec fn device_views(v: Seq<DeviceInfo>) -> Seq<(Seq<char>, Seq<char>, Seq<char>, Seq<char>, Seq<char>)> {
    v.map_values(|d: DeviceInfo| device_view(d))
}

pub struct DeviceRegistry {
    pub devices: Vec<DeviceInfo>,
}

impl DeviceRegistry {
    pub fn new() -> (r: DeviceRegistry)
        ensures
            r.devices@.len() == 0,
    {
        DeviceRegistry { devices: Vec::new() }
    }
}

/// Class name of a PCI function.
pub open spec fn class_text(class: u8, subclass: u8, prog_if: u8) -> Seq<char> {
    if class == 1 && subclass == 1 {
        "storage/ide"@
    } else if class == 2 {
        "network"@
    } else if class == 3 {
        "display"@
    } else if class == 6 && subclass == 0 {
        "bridge/host"@
    } else if class == 6 && subclass == 1 {
        "bridge/isa"@
    } else if class == 6 && subclass == 4 {
        "bridge/pci"@
    } else if class == 0x0c && subclass == 3 && prog_if == 0x30 {
        "usb/xhci"@
    } else if class == 0x0c && subclass == 3 {
        "usb"@
    } else {
        "device"@
    }
}

pub fn pci_class_name(class: u8, subclass: u8, prog_if: u8) -> (r: &'static str)
    ensures
        r@ == class_text(class, subclass, prog_if),
{
    if class == 1 && subclass == 1 {
        "storage/ide"
    } else if class == 2 {
        "network"
    } else if class == 3 {
        "display"
    } else if class == 6 && subclass == 0 {
        "bridge/host"
    } else if class == 6 && subclass == 1 {
        "bridge/isa"
    } else if class == 6 && subclass == 4 {
        "bridge/pci"
    } else if class == 0x0c && subclass == 3 && prog_if == 0x30 {
        "usb/xhci"
    } else if class == 0x0c && subclass == 3 {
        "usb"
    } else {
        "device"
    }
}

/// `bb:dd.f` in hexadecimal bus and device numbers.
pub open spec fn location_text(l: Location) -> Seq<char> {
    pad_left(hex(l.bus as nat), 2, '0') + ":"@ + pad_left(hex(l.device as nat), 2, '0') + "."@
        + crate::text::dec(l.function as nat)
}

pub fn format_location(l: Location) -> (r: String)
    ensures
        r@ == location_text(l),
{
    let mut s = String::new();
    push_hex(&mut s, l.bus as u64, 2);
    push_str(&mut s, ":");
    push_hex(&mut s, l.device as u64, 2);
    push_str(&mut s, ".");
    push_u64(&mut s, l.function as u64);
    assert(s@ =~= location_text(l));
    s
}

/// `vendor VVVV device DDDD`
pub open spec fn pci_name_text(h: Header) -> Seq<char> {
    "vendor "@ + pad_left(hex(h.vendor_id as nat), 4, '0') + " device "@ + pad_left(
        hex(h.device_id as nat),
        4,
        '0',
    )
}

pub open spec fn pci_device(l: Location, h: Header) -> (Seq<char>, Seq<char>, Seq<char>, Seq<char>, Seq<char>) {
    ("PCI"@, location_text(l), pci_name_text(h), class_text(h.class, h.subclass, h.prog_if), "present"@)
}

/// Replaces the table with the PCI functions a bus scan found.
pub fn refresh_pci(reg: &mut DeviceRegistry, found: &[(Location, Header)])
    ensures
        device_views(final(reg).devices@) == found@.map_values(
            |p: (Location, Header)| pci_device(p.0, p.1),
        ),
{
    let mut devices: Vec<DeviceInfo> = Vec::new();
    let mut i: usize = 0;
    while i < found.len()
        invariant
            i <= found@.len(),
            device_views(devices@) == found@.take(i as int).map_values(
                |p: (Location, Header)| pci_device(p.0, p.1),
            ),
        decreases found@.len() - i,
    {
        let (loc, hdr) = found[i];
        let mut name = string_from("vendor ");
        push_hex(&mut name, hdr.vendor_id as u64, 4);
        push_str(&mut name, " device ");
        push_hex(&mut name, hdr.device_id as u64, 4);
        assert(name@ =~= pci_name_text(hdr));
        let d = DeviceInfo {
            bus: "PCI",
            location: format_location(loc),
            name,
            class_name: string_from(pci_class_name(hdr.class, hdr.subclass, hdr.prog_if)),
            status: string_from("present"),
        };
        let ghost o = devices@;
        devices.push(d);
        assert(device_views(devices@) =~= device_views(o).push(device_view(d)));
        i = i + 1;
        assert(device_views(devices@) =~= found@.take(i as int).map_values(
            |p: (Location, Header)| pci_device(p.0, p.1),
        ));
    }
    assert(found@.take(found@.len() as int) =~= found@);
    reg.devices = devices;
}

/// Index of the first device on `bus` named `name`.
pub open spec fn device_index(s: Seq<(Seq<char>, Seq<char>, Seq<char>, Seq<char>, Seq<char>)>, bus: Seq<char>, name: Seq<char>, from: int) -> Option<
    int,
>
    decreases s.len() - from,
{
    if from < 0 || from >= s.len() {
        None
    } else if s[from].0 == bus && s[from].2 == name {
        Some(from)
    } else {
        device_index(s, bus, name, from + 1)
    }
}

proof fn lemma_device_index(s: Seq<(Seq<char>, Seq<char>, Seq<char>, Seq<char>, Seq<char>)>, bus: Seq<char>, name: Seq<char>, from: int)
    ensures
        device_index(s, bus, name, from) matches Some(k) ==> from <= k < s.len(),
    decreases s.len() - from,
{
    if 0 <= from < s.len() && !(s[from].0 == bus && s[from].2 == name) {
        lemma_device_index(s, bus, name, from + 1);
    }
}

fn find_device(reg: &DeviceRegistry, bus: &str, name: &str) -> (r: Option<usize>)
    ensures
        match r {
            Some(k) => device_index(device_views(reg.devices@), bus@, name@, 0) == Some(k as int)
                && k < reg.devices@.len(),
            None => device_index(device_views(reg.devices@), bus@, name@, 0) is None,
        },
{
    let ghost v = device_views(reg.devices@);
    proof {
        lemma_device_index(v, bus@, name@, 0);
    }
    let mut i: usize = 0;
    while i < reg.devices.len()
        invariant
            v == device_views(reg.devices@),
            i <= reg.devices@.len(),
            device_index(v, bus@, name@, 0) == device_index(v, bus@, name@, i as int),
        decreases reg.devices@.len() - i,
    {
        let d = &reg.devices[i];
        if crate::text::str_eq(d.bus, bus) && crate::text::str_eq(d.name.as_str(), name) {
            return Some(i);
        }
        i = i + 1;
    }
    None
}

/// The devices after a system pseudo-device is added or updated.
pub open spec fn virtual_registered(
    s: Seq<(Seq<char>, Seq<char>, Seq<char>, Seq<char>, Seq<char>)>,
    name: Seq<char>,
    class_name: Seq<char>,
    status: Seq<char>,
) -> Seq<(Seq<char>, Seq<char>, Seq<char>, Seq<char>, Seq<char>)> {
    match device_index(s, "SYS"@, name, 0) {
        Some(k) => s.update(k, (s[k].0, s[k].1, s[k].2, class_name, status)),
        None => s.push(("SYS"@, "-"@, name, class_name, status)),
    }
}

/// Adds or updates a system pseudo-device.
pub fn register_virtual(reg: &mut DeviceRegistry, name: &str, class_name: &str, status: &str)
    ensures
        device_views(final(reg).devices@) == virtual_registered(
            device_views(old(reg).devices@),
            name@,
            class_name@,
            status@,
        ),
{
    let ghost v = device_views(reg.devices@);
    match find_device(reg, "SYS", name) {
        Some(k) => {
            let d = &reg.devices[k];
            let nd = DeviceInfo {
                bus: d.bus,
                location: d.location.clone(),
                name: d.name.clone(),
                class_name: string_from(class_name),
                status: string_from(status),
            };
            reg.devices.set(k, nd);
            assert(device_views(reg.devices@) =~= v.update(
                k as int,
                (v[k as int].0, v[k as int].1, v[k as int].2, class_name@, status@),
            ));
        },
        None => {
            let nd = DeviceInfo {
                bus: "SYS",
                location: string_from("-"),
                name: string_from(name),
                class_name: string_from(class_name),
                status: string_from(status),
            };
            reg.devices.push(nd);
            assert(device_views(reg.devices@) =~= v.push(device_view(nd)));
        },
    }
}

fn upsert_usb(reg: &mut DeviceRegistry, name: &str, status: &str)
    ensures
        device_views(final(reg).devices@) == match device_index(
            device_views(old(reg).devices@),
            "USB"@,
            name@,
            0,
        ) {
            Some(k) => device_views(old(reg).devices@).update(
                k,
                (
                    device_views(old(reg).devices@)[k].0,
                    device_views(old(reg).devices@)[k].1,
                    device_views(old(reg).devices@)[k].2,
                    device_views(old(reg).devices@)[k].3,
                    status@,
                ),
            ),
            None => device_views(old(reg).devices@).push(
                ("USB"@, "runtime"@, name@, "input"@, status@),
            ),
        },
{
    let ghost v = device_views(reg.devices@);
    match find_device(reg, "USB", name) {
        Some(k) => {
            let d = &reg.devices[k];
            let nd = DeviceInfo {
                bus: d.bus,
                location: d.location.clone(),
                name: d.name.clone(),
                class_name: d.class_name.clone(),
                status: string_from(status),
            };
            reg.devices.set(k, nd);
            assert(device_views(reg.devices@) =~= v.update(
                k as int,
                (v[k as int].0, v[k as int].1, v[k as int].2, v[k as int].3, status@),
            ));
        },
        None => {
            let nd = DeviceInfo {
                bus: "USB",
                location: string_from("runtime"),
                name: string_from(name),
                class_name: string_from("input"),
                status: string_from(status),
            };
            reg.devices.push(nd);
            assert(device_views(reg.devices@) =~= v.push(device_view(nd)));
        },
    }
}

/// The table after a USB input device `name` takes `status` (added when
/// missing).
pub open spec fn usb_upserted(s: Seq<(Seq<char>, Seq<char>, Seq<char>, Seq<char>, Seq<char>)>, name: Seq<char>, status: Seq<char>) -> Seq<
    (Seq<char>, Seq<char>, Seq<char>, Seq<char>, Seq<char>),
> {
    match device_index(s, "USB"@, name, 0) {
        Some(k) => s.update(k, (s[k].0, s[k].1, s[k].2, s[k].3, status)),
        None => s.push(("USB"@, "runtime"@, name, "input"@, status)),
    }
}

pub open spec fn input_status(active: bool) -> Seq<char> {
    if active {
        "active"@
    } else {
        "fallback disabled"@
    }
}

/// Records whether the USB keyboard and mouse are active.
pub fn set_usb_input(reg: &mut DeviceRegistry, keyboard: bool, mouse: bool)
    ensures
        device_views(final(reg).devices@) == usb_upserted(
            usb_upserted(device_views(old(reg).devices@), "USB keyboard"@, input_status(keyboard)),
            "USB mouse"@,
            input_status(mouse),
        ),
{
    upsert_usb(
        reg,
        "USB keyboard",
        if keyboard {
            "active"
        } else {
            "fallback disabled"
        },
    );
    upsert_usb(
        reg,
        "USB mouse",
        if mouse {
            "active"
        } else {
            "fallback disabled"
        },
    );
}

fn copy_device(d: &DeviceInfo) -> (r: DeviceInfo)
    ensures
        device_view(r) == device_view(*d),
{
    DeviceInfo {
        bus: d.bus,
        location: d.location.clone(),
        name: d.name.clone(),
        class_name: d.class_name.clone(),
        status: d.status.clone(),
    }
}

/// Copies of every known device.
pub fn list(reg: &DeviceRegistry) -> (r: Vec<DeviceInfo>)
    ensures
        device_views(r@) == device_views(reg.devices@),
{
    let mut out: Vec<DeviceInfo> = Vec::new();
    let mut i: usize = 0;
    while i < reg.devices.len()
        invariant
            i <= reg.devices@.len(),
            device_views(out@) == device_views(reg.devices@).take(i as int),
        decreases reg.devices@.len() - i,
    {
        let ghost o = out@;
        let d = copy_device(&reg.devices[i]);
        out.push(d);
        assert(device_views(out@) =~= device_views(o).push(device_view(d)));
        i = i + 1;
        assert(device_views(out@) =~= device_views(reg.devices@).take(i as int));
    }
    assert(device_views(reg.devices@).take(reg.devices@.len() as int) =~= device_views(
        reg.devices@,
    ));
    out
}

/// `bus location  class  name  status`
pub open spec fn device_line(d: (Seq<char>, Seq<char>, Seq<char>, Seq<char>, Seq<char>)) -> Seq<char> {
    d.0 + " "@ + d.1 + "  "@ + d.3 + "  "@ + d.2 + "  "@ + d.4
}

pub fn lines(reg: &DeviceRegistry) -> (r: Vec<String>)
    ensures
        r@.len() == reg.devices@.len(),
        forall|i: int|
            0 <= i < r@.len() ==> (#[trigger] r@[i])@ == device_line(device_views(reg.devices@)[i]),
{
    let mut out: Vec<String> = Vec::new();
    let mut i: usize = 0;
    while i < reg.devices.len()
        invariant
            i <= reg.devices@.len(),
            out@.len() == i,
            forall|k: int|
                0 <= k < i ==> (#[trigger] out@[k])@ == device_line(device_views(reg.devices@)[k]),
        decreases reg.devices@.len() - i,
    {
        let d = &reg.devices[i];
        let mut s = string_from(d.bus);
        push_str(&mut s, " ");
        push_str(&mut s, d.location.as_str());
        push_str(&mut s, "  ");
        push_str(&mut s, d.class_name.as_str());
        push_str(&mut s, "  ");
        push_str(&mut s, d.name.as_str());
        push_str(&mut s, "  ");
        push_str(&mut s, d.status.as_str());
        assert(s@ =~= device_line(device_views(reg.devices@)[i as int]));
        out.push(s);
        i = i + 1;
    }
    out
}

} // verus!
