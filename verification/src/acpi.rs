use vstd::prelude::*;
use crate::device_registry::{device_views, register_virtual, virtual_registered, DeviceRegistry};
use crate::klog::{line_views, log, log_line, KernelLog, MAX_LINES};
use crate::bounded::bounded_push;
use crate::text::{hex, push_hex, push_str, string_from};

verus! {

/// What the firmware tables told the power manager.
pub struct AcpiState {
    pub rsdp_addr: u64,
    pub rsdp_valid: bool,
    pub xsdt_addr: u64,
}

impl AcpiState {
    pub fn new() -> (r: AcpiState)
        ensures
            r.rsdp_addr == 0 && !r.rsdp_valid && r.xsdt_addr == 0,
    {
        AcpiState { rsdp_addr: 0, rsdp_valid: false, xsdt_addr: 0 }
    }
}

/// The root table pointer in an RSDP: the signature must read
/// `RSD PTR `; revision 2 and later carry a 64-bit XSDT address, older ones
/// the 32-bit RSDT address.
pub open spec fn rsdp_table(b: Seq<u8>) -> Option<int> {
    if b.len() < 32 || b.take(8) != seq![82u8, 83u8, 68u8, 32u8, 80u8, 84u8, 82u8, 32u8] {
        None
    } else if b[15] >= 2 {
        Some(crate::fat32::le32(b, 24) + crate::fat32::le32(b, 28) * 0x1_0000_0000)
    } else {
        Some(crate::fat32::le32(b, 16))
    }
}

/// Whether the firmware gave an RSDP whose tables could be read.
pub open spec fn tables_found(rsdp_addr: Option<u64>, rsdp: Seq<u8>) -> bool {
    rsdp_addr is Some && rsdp_table(rsdp) is Some
}

/// The line the power manager logs once it has looked for the tables.
pub open spec fn acpi_message(rsdp_addr: Option<u64>, rsdp: Seq<u8>) -> Seq<char> {
    if tables_found(rsdp_addr, rsdp) {
        "acpi: RSDP at 0x"@ + hex(rsdp_addr->0 as nat)
    } else {
        "acpi: RSDP unavailable; legacy reboot path active"@
    }
}

/// Parses the RSDP bytes found at `rsdp_addr`, when the firmware gave one,
/// and reports the power manager's state in the device registry and the
/// kernel log.
pub fn init(
    state: &mut AcpiState,
    reg: &mut DeviceRegistry,
    klog: &mut KernelLog,
    tick: u64,
    rsdp_addr: Option<u64>,
    rsdp: &[u8],
)
    ensures
        match rsdp_addr {
            None => *final(state) == *old(state),
            Some(a) => final(state).rsdp_addr == a && match rsdp_table(rsdp@) {
                Some(t) => final(state).rsdp_valid && final(state).xsdt_addr as int == t,
                None => final(state).rsdp_valid == old(state).rsdp_valid && final(state).xsdt_addr
                    == old(state).xsdt_addr,
            },
        },
        device_views(final(reg).devices@) == virtual_registered(
            virtual_registered(
                device_views(old(reg).devices@),
                "power manager"@,
                "ACPI"@,
                "probing tables"@,
            ),
            "power manager"@,
            "ACPI"@,
            if tables_found(rsdp_addr, rsdp@) {
                "tables detected"@
            } else {
                "legacy reboot only"@
            },
        ),
        line_views(final(klog).lines@) == bounded_push(
            line_views(old(klog).lines@),
            log_line(tick, acpi_message(rsdp_addr, rsdp@)),
            MAX_LINES as nat,
        ),
{
    register_virtual(reg, "power manager", "ACPI", "probing tables");
    let found = parse(state, rsdp_addr, rsdp);
    if found {
        register_virtual(reg, "power manager", "ACPI", "tables detected");
        let mut m = string_from("acpi: RSDP at 0x");
        let a: u64 = match rsdp_addr {
            Some(a) => a,
            None => 0,
        };
        push_hex(&mut m, a, 0);
        assert(m@ =~= acpi_message(rsdp_addr, rsdp@));
        log(klog, tick, m.as_str());
    } else {
        register_virtual(reg, "power manager", "ACPI", "legacy reboot only");
        log(klog, tick, "acpi: RSDP unavailable; legacy reboot path active");
    }
}

/// Records the RSDP address and, when its bytes hold a valid RSDP, the root
/// table pointer; says whether they did.
fn parse(state: &mut AcpiState, rsdp_addr: Option<u64>, rsdp: &[u8]) -> (r: bool)
    ensures
        r == tables_found(rsdp_addr, rsdp@),
        match rsdp_addr {
            None => *final(state) == *old(state),
            Some(a) => final(state).rsdp_addr == a && match rsdp_table(rsdp@) {
                Some(t) => final(state).rsdp_valid && final(state).xsdt_addr as int == t,
                None => final(state).rsdp_valid == old(state).rsdp_valid && final(state).xsdt_addr
                    == old(state).xsdt_addr,
            },
        },
{
    match rsdp_addr {
        None => false,
        Some(a) => {
            state.rsdp_addr = a;
            if rsdp.len() < 32 {
                return false;
            }
            let head = crate::fat32::copy_bytes(rsdp, 0, 8);
            let sig: Vec<u8> = vec![82u8, 83u8, 68u8, 32u8, 80u8, 84u8, 82u8, 32u8];
            assert(sig@ =~= seq![82u8, 83u8, 68u8, 32u8, 80u8, 84u8, 82u8, 32u8]);
            assert(head@ =~= rsdp@.take(8));
            if !crate::fat32::bytes_eq(head.as_slice(), sig.as_slice()) {
                return false;
            }
            let table = if rsdp[15] >= 2 {
                let low = crate::fat32::rd32(rsdp, 24) as u64;
                let high = crate::fat32::rd32(rsdp, 28) as u64;
                proof {
                    assert(high * 0x1_0000_0000 + low <= 0xFFFF_FFFF_FFFF_FFFF) by (nonlinear_arith)
                        requires
                            high <= 0xFFFF_FFFF,
                            low <= 0xFFFF_FFFF,
                    ;
                }
                high * 0x1_0000_0000 + low
            } else {
                crate::fat32::rd32(rsdp, 16) as u64
            };
            state.xsdt_addr = table;
            state.rsdp_valid = true;
            true
        },
    }
}

/// Power-management status for the shell.
pub fn status_lines(state: &AcpiState) -> (r: Vec<String>)
    ensures
        state.rsdp_valid && state.xsdt_addr != 0 ==> r@.len() == 5 && r@[0]@ == "ACPI: RSDP valid at 0x"@
            + hex(state.rsdp_addr as nat) && r@[1]@ == "XSDT/RSDT pointer 0x"@ + hex(
            state.xsdt_addr as nat,
        ),
        state.rsdp_valid && state.xsdt_addr == 0 ==> r@.len() == 4 && r@[0]@
            == "ACPI: RSDP valid at 0x"@ + hex(state.rsdp_addr as nat),
        !state.rsdp_valid ==> r@.len() == 4 && r@[0]@ == "ACPI: RSDP unavailable"@,
        r@[r@.len() - 3]@ == "shutdown: table plumbing present, S5 not armed"@,
        r@[r@.len() - 2]@ == "sleep: S-state groundwork only"@,
        r@[r@.len() - 1]@ == "reboot: legacy controller reset available"@,
{
    let mut v: Vec<String> = Vec::new();
    if state.rsdp_valid {
        let mut a = string_from("ACPI: RSDP valid at 0x");
        push_hex(&mut a, state.rsdp_addr, 0);
        v.push(a);
        if state.xsdt_addr != 0 {
            let mut b = string_from("XSDT/RSDT pointer 0x");
            push_hex(&mut b, state.xsdt_addr, 0);
            v.push(b);
        }
    } else {
        v.push(string_from("ACPI: RSDP unavailable"));
    }
    v.push(string_from("shutdown: table plumbing present, S5 not armed"));
    v.push(string_from("sleep: S-state groundwork only"));
    v.push(string_from("reboot: legacy controller reset available"));
    v
}

/// Shutting down through ACPI is not available yet.
pub fn shutdown() -> (r: Result<(), &'static str>)
    ensures
        r matches Err(m) && m@ == "ACPI shutdown table plumbing present; S5 write path not armed"@,
{
    Err("ACPI shutdown table plumbing present; S5 write path not armed")
}

/// Sleeping through ACPI is not available yet.
pub fn sleep() -> (r: Result<(), &'static str>)
    ensures
        r matches Err(m) && m@ == "ACPI sleep groundwork present; S-state transition not armed"@,
{
    Err("ACPI sleep groundwork present; S-state transition not armed")
}

} // verus!
