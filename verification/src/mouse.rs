use vstd::prelude::*;

verus! {

/// Cursor position, buttons, wheel mode and the scroll accumulated since it
/// was last read.
pub struct MouseState {
    pub x: usize,
    pub y: usize,
    pub left: bool,
    pub right: bool,
    pub intellimouse: bool,
    pub scroll: i32,
}

impl MouseState {
    pub fn new() -> (r: MouseState)
        ensures
            r.x == 0 && r.y == 0 && !r.left && !r.right && !r.intellimouse && r.scroll == 0,
    {
        MouseState { x: 0, y: 0, left: false, right: false, intellimouse: false, scroll: 0 }
    }
}

/// Centres the cursor on a screen of the given size.
pub fn init_cursor(m: &mut MouseState, width: usize, height: usize)
    ensures
        final(m).x == width / 2,
        final(m).y == height / 2,
        final(m).left == old(m).left && final(m).right == old(m).right,
        final(m).intellimouse == old(m).intellimouse && final(m).scroll == old(m).scroll,
{
    m.x = width / 2;
    m.y = height / 2;
}

pub fn pos(m: &MouseState) -> (r: (usize, usize))
    ensures
        r == (m.x, m.y),
{
    (m.x, m.y)
}

pub fn buttons(m: &MouseState) -> (r: (bool, bool))
    ensures
        r == (m.left, m.right),
{
    (m.left, m.right)
}

/// Whether the mouse sends four-byte wheel packets.
pub fn is_4byte(m: &MouseState) -> (r: bool)
    ensures
        r == m.intellimouse,
{
    m.intellimouse
}

/// Takes the scroll accumulated since the last call.
pub fn scroll_delta(m: &mut MouseState) -> (r: i32)
    ensures
        r == old(m).scroll,
        final(m).scroll == 0,
        final(m).x == old(m).x && final(m).y == old(m).y,
        final(m).left == old(m).left && final(m).right == old(m).right,
        final(m).intellimouse == old(m).intellimouse,
{
    let s = m.scroll;
    m.scroll = 0;
    s
}

/// `v` moved by `d`, kept within `0..=max`.
pub open spec fn moved(v: int, d: int, max: int) -> int {
    if v + d < 0 {
        0
    } else if v + d > max {
        max
    } else {
        v + d
    }
}

/// The 9-bit signed delta whose low byte is `b`, negative when `sign`.
pub open spec fn delta9(b: u8, sign: bool) -> int {
    if sign {
        b - 256
    } else {
        b as int
    }
}

/// The 4-bit two's-complement wheel value in the low bits of `b3`.
pub open spec fn wheel(b3: u8) -> int {
    let z = b3 & 0x0F;
    if z & 0x08 != 0 {
        z - 16
    } else {
        z as int
    }
}

/// Applies one PS/2 packet on a `width`×`height` screen: the 9-bit deltas
/// move the cursor (screen y grows downward), the buttons follow bits 0
/// and 1, and in wheel mode the wheel value is subtracted from the scroll
/// accumulator. A packet without the sync bit is ignored.
pub fn handle_packet(m: &mut MouseState, width: usize, height: usize, b0: u8, b1: u8, b2: u8, b3: u8)
    requires
        old(m).x <= i32::MAX && old(m).y <= i32::MAX,
        b0 & 0x08 != 0 ==> old(m).x + delta9(b1, b0 & 0x10 != 0) <= i32::MAX,
        b0 & 0x08 != 0 ==> old(m).y - delta9(b2, b0 & 0x20 != 0) <= i32::MAX,
    ensures
        b0 & 0x08 == 0 ==> *final(m) == *old(m),
        b0 & 0x08 != 0 ==> {
            &&& final(m).x == moved(
                old(m).x as int,
                delta9(b1, b0 & 0x10 != 0),
                if width > 0 {
                    width - 1
                } else {
                    0
                },
            )
            &&& final(m).y == moved(
                old(m).y as int,
                -delta9(b2, b0 & 0x20 != 0),
                if height > 0 {
                    height - 1
                } else {
                    0
                },
            )
            &&& final(m).left == (b0 & 0x01 != 0)
            &&& final(m).right == (b0 & 0x02 != 0)
            &&& final(m).intellimouse == old(m).intellimouse
            &&& final(m).scroll == if old(m).intellimouse {
                old(m).scroll.wrapping_sub(wheel(b3) as i32) as int
            } else {
                old(m).scroll as int
            }
        },
{
    if b0 & 0x08 == 0 {
        return;
    }
    let dx: i64 = if b0 & 0x10 != 0 {
        b1 as i64 - 256
    } else {
        b1 as i64
    };
    let dy: i64 = if b0 & 0x20 != 0 {
        b2 as i64 - 256
    } else {
        b2 as i64
    };
    let w: usize = if width > 0 {
        width - 1
    } else {
        0
    };
    let h: usize = if height > 0 {
        height - 1
    } else {
        0
    };
    let nx = m.x as i64 + dx;
    let ny = m.y as i64 - dy;
    m.x = if nx < 0 {
        0
    } else if nx as usize > w {
        w
    } else {
        nx as usize
    };
    m.y = if ny < 0 {
        0
    } else if ny as usize > h {
        h
    } else {
        ny as usize
    };
    m.left = b0 & 0x01 != 0;
    m.right = b0 & 0x02 != 0;
    if m.intellimouse {
        let z_raw = b3 & 0x0F;
        assert(b3 & 0x0F <= 15) by (bit_vector);
        let z: i32 = if z_raw & 0x08 != 0 {
            z_raw as i32 - 16
        } else {
            z_raw as i32
        };
        assert(z as int == wheel(b3));
        m.scroll = m.scroll.wrapping_sub(z);
    }
}


/// A byte read as a two's-complement signed value.
pub open spec fn signed8(b: u8) -> int {
    if b >= 128 {
        b - 256
    } else {
        b as int
    }
}

fn signed_byte(b: u8) -> (r: i32)
    ensures
        r == signed8(b),
{
    if b >= 128 {
        b as i32 - 256
    } else {
        b as i32
    }
}

/// Applies a USB HID boot-protocol mouse report (three or four bytes):
/// buttons, signed x and y deltas (y grows downward), and an optional wheel
/// byte subtracted from the scroll accumulator. Shorter reports are
/// ignored.
pub fn handle_usb_boot_report(m: &mut MouseState, width: usize, height: usize, report: &[u8])
    requires
        old(m).x <= i32::MAX && old(m).y <= i32::MAX,
        report@.len() >= 3 ==> old(m).x + signed8(report@[1]) <= i32::MAX,
        report@.len() >= 3 ==> old(m).y + signed8(report@[2]) <= i32::MAX,
    ensures
        report@.len() < 3 ==> *final(m) == *old(m),
        report@.len() >= 3 ==> {
            &&& final(m).x == moved(
                old(m).x as int,
                signed8(report@[1]),
                if width > 0 {
                    width - 1
                } else {
                    0
                },
            )
            &&& final(m).y == moved(
                old(m).y as int,
                signed8(report@[2]),
                if height > 0 {
                    height - 1
                } else {
                    0
                },
            )
            &&& final(m).left == (report@[0] & 0x01 != 0)
            &&& final(m).right == (report@[0] & 0x02 != 0)
            &&& final(m).intellimouse == old(m).intellimouse
            &&& final(m).scroll == if report@.len() >= 4 {
                old(m).scroll.wrapping_sub(signed8(report@[3]) as i32) as int
            } else {
                old(m).scroll as int
            }
        },
{
    if report.len() < 3 {
        return;
    }
    let buttons = report[0];
    let dx = signed_byte(report[1]) as i64;
    let dy = signed_byte(report[2]) as i64;
    let w: usize = if width > 0 {
        width - 1
    } else {
        0
    };
    let h: usize = if height > 0 {
        height - 1
    } else {
        0
    };
    let nx = m.x as i64 + dx;
    let ny = m.y as i64 + dy;
    m.x = if nx < 0 {
        0
    } else if nx as usize > w {
        w
    } else {
        nx as usize
    };
    m.y = if ny < 0 {
        0
    } else if ny as usize > h {
        h
    } else {
        ny as usize
    };
    m.left = buttons & 0x01 != 0;
    m.right = buttons & 0x02 != 0;
    if report.len() >= 4 {
        let wheel = signed_byte(report[3]);
        m.scroll = m.scroll.wrapping_sub(wheel);
    }
}

} // verus!
