use vstd::prelude::*;

verus! {

/// Width and height of a text cell in pixels.
pub const CHAR_W: usize = 16;
pub const CHAR_H: usize = 16;

/// Byte order of a framebuffer pixel.
#[derive(Debug, Clone, Copy, PartialEq, Eq, Structural)]
pub enum PixFmt {
    Bgr,
    Rgb,
}

/// The framebuffer the bootloader handed over.
#[derive(Debug, Clone, Copy)]
pub struct FbState {
    pub base: u64,
    pub width: usize,
    pub height: usize,
    pub stride: usize,
    pub bpp: usize,
    pub fmt: PixFmt,
}

/// The display, once it is set up.
pub struct Display {
    pub fb: Option<FbState>,
}

impl Display {
    pub fn new() -> (r: Display)
        ensures
            r.fb is None,
    {
        Display { fb: None }
    }
}

/// Records the framebuffer's geometry and pixel format.
pub fn init(d: &mut Display, base: u64, width: usize, height: usize, stride: usize, bpp: usize, fmt: PixFmt)
    ensures
        final(d).fb == Some(FbState { base, width, height, stride, bpp, fmt }),
{
    d.fb = Some(FbState { base, width, height, stride, bpp, fmt });
}

/// Screen width in pixels (0 before set-up).
pub fn width(d: &Display) -> (r: usize)
    ensures
        r == match d.fb {
            Some(s) => s.width,
            None => 0,
        },
{
    match &d.fb {
        Some(s) => s.width,
        None => 0,
    }
}

/// Screen height in pixels (0 before set-up).
pub fn height(d: &Display) -> (r: usize)
    ensures
        r == match d.fb {
            Some(s) => s.height,
            None => 0,
        },
{
    match &d.fb {
        Some(s) => s.height,
        None => 0,
    }
}

/// Pixels per scanline (0 before set-up).
pub fn stride(d: &Display) -> (r: usize)
    ensures
        r == match d.fb {
            Some(s) => s.stride,
            None => 0,
        },
{
    match &d.fb {
        Some(s) => s.stride,
        None => 0,
    }
}

/// Bytes per pixel (4 before set-up).
pub fn bpp(d: &Display) -> (r: usize)
    ensures
        r == match d.fb {
            Some(s) => s.bpp,
            None => 4,
        },
{
    match &d.fb {
        Some(s) => s.bpp,
        None => 4,
    }
}

/// Address of the first pixel (0 before set-up).
pub fn base(d: &Display) -> (r: u64)
    ensures
        r == match d.fb {
            Some(s) => s.base,
            None => 0,
        },
{
    match &d.fb {
        Some(s) => s.base,
        None => 0,
    }
}

/// Pixel format (BGR before set-up).
pub fn fmt(d: &Display) -> (r: PixFmt)
    ensures
        r == match d.fb {
            Some(s) => s.fmt,
            None => PixFmt::Bgr,
        },
{
    match &d.fb {
        Some(s) => s.fmt,
        None => PixFmt::Bgr,
    }
}

/// Text columns that fit on screen.
pub fn cols(d: &Display) -> (r: usize)
    ensures
        r == (match d.fb {
            Some(s) => s.width,
            None => 0,
        }) / CHAR_W,
{
    width(d) / CHAR_W
}

/// Text rows that fit on screen.
pub fn rows(d: &Display) -> (r: usize)
    ensures
        r == (match d.fb {
            Some(s) => s.height,
            None => 0,
        }) / CHAR_H,
{
    height(d) / CHAR_H
}

/// A colour `0x00RRGGBB` as the hardware stores it: unchanged for BGR, red
/// and blue swapped for RGB.
pub fn to_hw(color: u32, fmt: PixFmt) -> (r: u32)
    ensures
        fmt == PixFmt::Bgr ==> r == color,
        fmt == PixFmt::Rgb ==> r == ((color & 0x00FF_0000u32) >> 16u32) | (color & 0x0000_FF00u32)
            | ((color & 0x0000_00FFu32) << 16u32),
{
    match fmt {
        PixFmt::Bgr => color,
        PixFmt::Rgb => ((color & 0x00FF_0000u32) >> 16u32) | (color & 0x0000_FF00u32) | ((color
            & 0x0000_00FFu32) << 16u32),
    }
}

} // verus!
