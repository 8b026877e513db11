use vstd::prelude::*;

verus! {

/// A PCI function's bus, device and function numbers.
#[derive(Debug, Clone, Copy, PartialEq, Eq, Structural)]
pub struct Location {
    pub bus: u8,
    pub device: u8,
    pub function: u8,
}

impl Location {
    /// The configuration-address word selecting register `offset` of this
    /// function: enable bit, bus, device, function, dword-aligned offset.
    pub fn address(self, offset: u8) -> (r: u32)
        ensures
            r == 0x8000_0000u32 | ((self.bus as u32) << 16u32) | ((self.device as u32) << 11u32) | (
            (self.function as u32) << 8u32) | ((offset as u32) & 0xFCu32),
    {
        0x8000_0000u32 | ((self.bus as u32) << 16u32) | ((self.device as u32) << 11u32) | ((
        self.function as u32) << 8u32) | ((offset as u32) & 0xFCu32)
    }
}

/// Identifying fields of a function's configuration header.
#[derive(Debug, Clone, Copy, PartialEq, Eq, Structural)]
pub struct Header {
    pub vendor_id: u16,
    pub device_id: u16,
    pub class: u8,
    pub subclass: u8,
    pub prog_if: u8,
    pub revision: u8,
    pub header_type: u8,
}

impl Header {
    /// Decodes the header from configuration words 0x00, 0x08 and 0x0C; no
    /// function answers when the vendor id reads all ones.
    pub fn read(id_word: u32, class_word: u32, type_word: u32) -> (r: Option<Header>)
        ensures
            (id_word & 0xFFFF) == 0xFFFF ==> r is None,
            (id_word & 0xFFFF) != 0xFFFF ==> r == Some(header_of(id_word, class_word, type_word)),
    {
        let vendor_id = (id_word & 0xFFFF) as u16;
        if id_word & 0xFFFF == 0xFFFF {
            return None;
        }
        Some(
            Header {
                vendor_id,
                device_id: (id_word >> 16u32) as u16,
                class: (class_word >> 24u32) as u8,
                subclass: ((class_word >> 16u32) & 0xFFu32) as u8,
                prog_if: ((class_word >> 8u32) & 0xFFu32) as u8,
                revision: (class_word & 0xFFu32) as u8,
                header_type: ((type_word >> 16u32) & 0xFFu32) as u8,
            },
        )
    }
}

/// The header fields packed in configuration words 0x00, 0x08 and 0x0C.
pub open spec fn header_of(id_word: u32, class_word: u32, type_word: u32) -> Header {
    Header {
        vendor_id: (id_word & 0xFFFF) as u16,
        device_id: (id_word >> 16u32) as u16,
        class: (class_word >> 24u32) as u8,
        subclass: ((class_word >> 16u32) & 0xFFu32) as u8,
        prog_if: ((class_word >> 8u32) & 0xFFu32) as u8,
        revision: (class_word & 0xFFu32) as u8,
        header_type: ((type_word >> 16u32) & 0xFFu32) as u8,
    }
}

/// The base address in BAR slot `index` whose low word is `low` (and, for a
/// 64-bit memory BAR, whose next slot holds `high`); an unused slot (low
/// word zero), I/O-space and unsupported BARs give `None`.
pub open spec fn bar_base(index: u8, low: u32, high: u32) -> Option<u64> {
    if low == 0 {
        None
    } else {
        bar_decoded(index, low, high)
    }
}

/// The address a BAR's words encode, before unused slots are left out.
pub open spec fn bar_decoded(index: u8, low: u32, high: u32) -> Option<u64> {
    if low & 1 != 0 {
        None
    } else if (low >> 1u32) & 3 == 0 {
        Some((low & 0xFFFF_FFF0) as u64)
    } else if (low >> 1u32) & 3 == 2 {
        if index >= 5 {
            None
        } else {
            Some((((high as u64) << 32u64) | (low as u64)) & 0xFFFF_FFFF_FFFF_FFF0u64)
        }
    } else {
        None
    }
}

pub fn bar(index: u8, low: u32, high: u32) -> (r: Option<u64>)
    requires
        index < 6,
    ensures
        r == bar_base(index, low, high),
{
    if low == 0 || low & 1 != 0 {
        return None;
    }
    let bar_type = (low >> 1) & 0x3;
    if bar_type == 0 {
        Some((low & 0xFFFF_FFF0) as u64)
    } else if bar_type == 2 {
        if index >= 5 {
            return None;
        }
        Some((((high as u64) << 32) | (low as u64)) & 0xFFFF_FFFF_FFFF_FFF0u64)
    } else {
        None
    }
}

/// Configuration offset of BAR slot `index`.
pub fn bar_offset(index: u8) -> (r: u8)
    requires
        index < 6,
    ensures
        r == 0x10 + index * 4,
{
    0x10 + index * 4
}

/// The command register with memory decoding and bus mastering switched on.
pub fn enable_bus_master(cmd: u32) -> (r: u32)
    ensures
        r == cmd | 0x0006,
{
    cmd | 0x0006
}

} // verus!
