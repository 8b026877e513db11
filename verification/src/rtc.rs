use vstd::prelude::*;

verus! {

/// A calendar date and time of day, to the minute.
#[derive(Debug, Clone, Copy, PartialEq, Eq, Structural)]
pub struct RtcDateTime {
    pub year: u16,
    pub month: u8,
    pub day: u8,
    pub hour: u8,
    pub minute: u8,
}

/// The clock registers as read from the CMOS chip.
#[derive(Debug, Clone, Copy, PartialEq, Eq, Structural)]
pub struct RawRtcSnapshot {
    pub second: u8,
    pub minute: u8,
    pub hour: u8,
    pub day: u8,
    pub month: u8,
    pub year: u8,
    pub century: u8,
    pub status_b: u8,
}

/// Value of a two-digit binary-coded-decimal byte.
pub open spec fn bcd(v: u8) -> int {
    (v as int / 16) * 10 + v as int % 16
}

pub fn bcd_to_bin(value: u8) -> (r: u8)
    ensures
        r == bcd(value),
{
    assert((value >> 4u8) == value / 16) by (bit_vector);
    assert((value & 0x0fu8) == value % 16) by (bit_vector);
    ((value >> 4) * 10) + (value & 0x0f)
}

pub open spec fn valid_time(second: int, minute: int, hour: int, day: int, month: int) -> bool {
    second < 60 && minute < 60 && hour < 24 && 1 <= day <= 31 && 1 <= month <= 12
}

pub fn is_valid(second: u8, minute: u8, hour: u8, day: u8, month: u8) -> (r: bool)
    ensures
        r == valid_time(second as int, minute as int, hour as int, day as int, month as int),
{
    second < 60 && minute < 60 && hour < 24 && day >= 1 && day <= 31 && month >= 1 && month <= 12
}

/// A register value in binary: as read in binary mode, decoded from BCD
/// otherwise.
pub open spec fn reg(v: u8, binary: bool) -> int {
    if binary {
        v as int
    } else {
        bcd(v)
    }
}

/// The hour on a 24-hour clock; in 12-hour mode bit 7 marks the afternoon.
pub open spec fn hour24(raw: RawRtcSnapshot) -> int {
    let binary = raw.status_b & 0x04 != 0;
    let h = reg(raw.hour & 0x7f, binary);
    if raw.status_b & 0x02 != 0 {
        h
    } else if raw.hour & 0x80 != 0 {
        h % 12 + 12
    } else {
        h % 12
    }
}

/// The full year: from the century register when it holds one, else 19xx
/// for 70 and later, 20xx before.
pub open spec fn full_year(raw: RawRtcSnapshot) -> int {
    let binary = raw.status_b & 0x04 != 0;
    let y = reg(raw.year, binary);
    if raw.century != 0 && raw.century != 0xff {
        reg(raw.century, binary) * 100 + y
    } else if y >= 70 {
        1900 + y
    } else {
        2000 + y
    }
}

/// The date a register snapshot shows, when its fields are in range.
pub open spec fn snapshot_date(raw: RawRtcSnapshot) -> Option<(int, int, int, int, int)> {
    let binary = raw.status_b & 0x04 != 0;
    if valid_time(
        reg(raw.second, binary),
        reg(raw.minute, binary),
        hour24(raw),
        reg(raw.day, binary),
        reg(raw.month, binary),
    ) {
        Some(
            (
                full_year(raw),
                reg(raw.month, binary),
                reg(raw.day, binary),
                hour24(raw),
                reg(raw.minute, binary),
            ),
        )
    } else {
        None
    }
}

/// Converts a register snapshot to a date and time.
pub fn decode(raw: RawRtcSnapshot) -> (r: Option<RtcDateTime>)
    ensures
        match snapshot_date(raw) {
            None => r is None,
            Some(t) => r matches Some(d) && d.year as int == t.0 && d.month as int == t.1
                && d.day as int == t.2 && d.hour as int == t.3 && d.minute as int == t.4,
        },
{
    let is_binary = raw.status_b & 0x04 != 0;
    let is_24h = raw.status_b & 0x02 != 0;
    let pm = raw.hour & 0x80 != 0;
    let mut second = raw.second;
    let mut minute = raw.minute;
    let mut hour = raw.hour & 0x7f;
    let mut day = raw.day;
    let mut month = raw.month;
    let mut year = raw.year;
    let mut century = raw.century;
    if !is_binary {
        second = bcd_to_bin(second);
        minute = bcd_to_bin(minute);
        hour = bcd_to_bin(hour);
        day = bcd_to_bin(day);
        month = bcd_to_bin(month);
        year = bcd_to_bin(year);
        if century != 0 && century != 0xff {
            century = bcd_to_bin(century);
        }
    }
    if !is_24h {
        hour = hour % 12;
        if pm {
            hour = hour + 12;
        }
    }
    let full_year: u16 = if raw.century != 0 && raw.century != 0xff {
        century as u16 * 100 + year as u16
    } else if year >= 70 {
        1900 + year as u16
    } else {
        2000 + year as u16
    };
    if !is_valid(second, minute, hour, day, month) {
        return None;
    }
    Some(RtcDateTime { year: full_year, month, day, hour, minute })
}


/// In binary data mode (status B bit 2) with a 24-hour clock (bit 1) the
/// registers are the date as they stand: the year is the century register
/// times a hundred plus the year register, when the chip keeps a century.
pub proof fn lemma_binary_24h(raw: RawRtcSnapshot)
    requires
        raw.status_b & 0x04 != 0,
        raw.status_b & 0x02 != 0,
        raw.second < 60 && raw.minute < 60 && raw.hour < 24,
        1 <= raw.day <= 31 && 1 <= raw.month <= 12,
        raw.century != 0 && raw.century != 0xff,
    ensures
        snapshot_date(raw) == Some(
            (
                raw.century * 100 + raw.year as int,
                raw.month as int,
                raw.day as int,
                raw.hour as int,
                raw.minute as int,
            ),
        ),
{
    let h = raw.hour;
    assert((h & 0x7f) == h) by (bit_vector)
        requires
            h < 24,
    ;
}

/// Without a century register the year register picks the century: 70 and
/// above are 19xx, below 70 are 20xx (binary data mode).
pub proof fn lemma_binary_two_digit_year(raw: RawRtcSnapshot)
    requires
        raw.status_b & 0x04 != 0,
        raw.century == 0 || raw.century == 0xff,
    ensures
        full_year(raw) == if raw.year >= 70 {
            1900 + raw.year as int
        } else {
            2000 + raw.year as int
        },
{
}

/// In BCD data mode (status B bit 2 clear) each register holds two decimal
/// digits, the tens in the high nibble: with a 24-hour clock a valid
/// snapshot reads as those decimal numbers.
pub proof fn lemma_bcd_24h(raw: RawRtcSnapshot)
    requires
        raw.status_b & 0x04 == 0,
        raw.status_b & 0x02 != 0,
        raw.hour < 0x80,
        raw.century != 0 && raw.century != 0xff,
        snapshot_date(raw) is Some,
    ensures
        snapshot_date(raw) == Some(
            (
                (raw.century / 16 * 10 + raw.century % 16) * 100 + raw.year / 16 * 10 + raw.year % 16,
                raw.month / 16 * 10 + raw.month % 16,
                raw.day / 16 * 10 + raw.day % 16,
                raw.hour / 16 * 10 + raw.hour % 16,
                raw.minute / 16 * 10 + raw.minute % 16,
            ),
        ),
{
    let h = raw.hour;
    assert((h & 0x7f) == h) by (bit_vector)
        requires
            h < 0x80,
    ;
}

/// On a 12-hour clock (status B bit 1 clear) bit 7 of the hour marks the
/// afternoon: 12 is the first hour of its half, and the afternoon adds 12
/// (binary data mode).
pub proof fn lemma_binary_12h(raw: RawRtcSnapshot)
    requires
        raw.status_b & 0x04 != 0,
        raw.status_b & 0x02 == 0,
    ensures
        hour24(raw) == if raw.hour & 0x80 != 0 {
            (raw.hour & 0x7f) as int % 12 + 12
        } else {
            (raw.hour & 0x7f) as int % 12
        },
{
}

} // verus!
