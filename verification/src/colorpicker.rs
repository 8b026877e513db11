//! The colour picker's logic: the sixteen-colour palette, which swatch a
//! click lands on, and the text and tints shown for a colour.
use vstd::prelude::*;
use crate::canvas::{apply_ops, draw, op_ok, op_view, op_views, ops_ok, DrawOp, OpView, MAX_COORD};
use crate::text::{chars_of, dec, push_str, push_u64, string_chars, string_from};

verus! {

/// Columns and rows of the swatch grid.
pub const GRID_COLS: usize = 4;
pub const GRID_ROWS: usize = 4;
/// Swatch size, gap between swatches, and the grid's top-left corner.
pub const SWATCH: usize = 40;
pub const GAP: usize = 10;
pub const GRID_X: usize = 20;
pub const GRID_Y: usize = 52;

/// The classic EGA/VGA palette: name and RGB value of each colour.
pub open spec fn palette(i: usize) -> (Seq<char>, u32) {
    match i {
        0 => ("Black"@, 0x000000u32),
        1 => ("Blue"@, 0x0000AAu32),
        2 => ("Green"@, 0x00AA00u32),
        3 => ("Cyan"@, 0x00AAAAu32),
        4 => ("Red"@, 0xAA0000u32),
        5 => ("Magenta"@, 0xAA00AAu32),
        6 => ("Brown"@, 0xAA5500u32),
        7 => ("Lt Gray"@, 0xAAAAAAu32),
        8 => ("Dk Gray"@, 0x555555u32),
        9 => ("Lt Blue"@, 0x5555FFu32),
        10 => ("Lt Green"@, 0x55FF55u32),
        11 => ("Lt Cyan"@, 0x55FFFFu32),
        12 => ("Lt Red"@, 0xFF5555u32),
        13 => ("Pink"@, 0xFF55FFu32),
        14 => ("Yellow"@, 0xFFFF55u32),
        15 => ("White"@, 0xFFFFFFu32),
        _ => (Seq::empty(), 0u32),
    }
}

/// Name and RGB value of palette colour `i`.
pub fn color(i: usize) -> (r: (&'static str, u32))
    requires
        i < 16,
    ensures
        r.0@ == palette(i).0,
        r.1 == palette(i).1,
{
    match i {
        0 => ("Black", 0x000000u32),
        1 => ("Blue", 0x0000AAu32),
        2 => ("Green", 0x00AA00u32),
        3 => ("Cyan", 0x00AAAAu32),
        4 => ("Red", 0xAA0000u32),
        5 => ("Magenta", 0xAA00AAu32),
        6 => ("Brown", 0xAA5500u32),
        7 => ("Lt Gray", 0xAAAAAAu32),
        8 => ("Dk Gray", 0x555555u32),
        9 => ("Lt Blue", 0x5555FFu32),
        10 => ("Lt Green", 0x55FF55u32),
        11 => ("Lt Cyan", 0x55FFFFu32),
        12 => ("Lt Red", 0xFF5555u32),
        13 => ("Pink", 0xFF55FFu32),
        14 => ("Yellow", 0xFFFF55u32),
        15 => ("White", 0xFFFFFFu32),
        _ => ("White", 0xFFFFFFu32),
    }
}

/// The rule of the 16-colour EGA palette: blue, green and red are at 0xAA
/// when bits 0, 1 and 2 of the index are set, every channel gains 0x55 when
/// bit 3 (intensity) is set, and brown (index 6) has its green at 0x55.
pub open spec fn ega_rgb(i: int) -> int {
    let hi = if i >= 8 {
        0x55int
    } else {
        0int
    };
    let r = (if (i / 4) % 2 == 1 {
        0xAAint
    } else {
        0int
    }) + hi;
    let g = if i == 6 {
        0x55int
    } else {
        (if (i / 2) % 2 == 1 {
            0xAAint
        } else {
            0int
        }) + hi
    };
    let b = (if i % 2 == 1 {
        0xAAint
    } else {
        0int
    }) + hi;
    r * 65536 + g * 256 + b
}

/// Every palette colour is the EGA colour of its index.
pub proof fn lemma_ega_palette(i: usize)
    requires
        i < 16,
    ensures
        palette(i).1 as int == ega_rgb(i as int),
{
    if i == 0 {
    } else if i == 1 {
    } else if i == 2 {
    } else if i == 3 {
    } else if i == 4 {
    } else if i == 5 {
    } else if i == 6 {
    } else if i == 7 {
    } else if i == 8 {
    } else if i == 9 {
    } else if i == 10 {
    } else if i == 11 {
    } else if i == 12 {
    } else if i == 13 {
    } else if i == 14 {
    } else if i == 15 {
    }
}

/// The palette's names, in index order.
pub proof fn lemma_palette_names()
    ensures
        palette(0).0 == "Black"@ && palette(1).0 == "Blue"@ && palette(2).0 == "Green"@
            && palette(3).0 == "Cyan"@,
        palette(4).0 == "Red"@ && palette(5).0 == "Magenta"@ && palette(6).0 == "Brown"@
            && palette(7).0 == "Lt Gray"@,
        palette(8).0 == "Dk Gray"@ && palette(9).0 == "Lt Blue"@ && palette(10).0 == "Lt Green"@
            && palette(11).0 == "Lt Cyan"@,
        palette(12).0 == "Lt Red"@ && palette(13).0 == "Pink"@ && palette(14).0 == "Yellow"@
            && palette(15).0 == "White"@,
{
}

/// A click inside the tile of swatch `i` (4 by 4 tiles of 40 pixels, 10
/// apart, from (20, 52)) selects swatch `i`.
pub proof fn lemma_click_selects_tile(i: int, dx: int, dy: int)
    requires
        0 <= i < 16,
        0 <= dx < 40,
        0 <= dy < 40,
    ensures
        swatch_under(20 + (i % 4) * 50 + dx, 52 + (i / 4) * 50 + dy) == Some(i),
{
    let col = i % 4;
    let row = i / 4;
    assert((col * 50 + dx) / 50 == col) by (nonlinear_arith)
        requires
            0 <= col < 4,
            0 <= dx < 40,
    ;
    assert((row * 50 + dy) / 50 == row) by (nonlinear_arith)
        requires
            0 <= row < 4,
            0 <= dy < 40,
    ;
    assert(row * 4 + col == i);
}

/// The swatch under a click at window position `(lx, ly)`.
pub open spec fn swatch_under(lx: int, ly: int) -> Option<int> {
    if lx < 20 || ly < 52 {
        None
    } else {
        let col = (lx - 20) / 50;
        let row = (ly - 52) / 50;
        if col < 4 && row < 4 {
            Some(row * 4 + col)
        } else {
            None
        }
    }
}

/// Which swatch a click at `(lx, ly)` selects, if any.
pub fn swatch_at(lx: i32, ly: i32) -> (r: Option<usize>)
    ensures
        match swatch_under(lx as int, ly as int) {
            None => r is None,
            Some(i) => r == Some(i as usize),
        },
{
    if lx < GRID_X as i32 || ly < GRID_Y as i32 {
        return None;
    }
    let step = (SWATCH + GAP) as i32;
    let col = (lx - GRID_X as i32) / step;
    let row = (ly - GRID_Y as i32) / step;
    if col >= 0 && col < GRID_COLS as i32 && row >= 0 && row < GRID_ROWS as i32 {
        let idx = (row as usize) * GRID_COLS + col as usize;
        Some(idx)
    } else {
        None
    }
}

/// One channel moved from `ca` towards `cb` by `t`/255, at most 255.
pub open spec fn lerp(ca: u32, cb: u32, t: u32) -> int {
    if cb >= ca {
        let v = ca + (cb - ca) * t / 255;
        if v < 255 {
            v
        } else {
            255
        }
    } else {
        ca - (ca - cb) * t / 255
    }
}

fn lerp_channel(ca: u32, cb: u32, t: u32) -> (r: u32)
    requires
        ca <= 255,
        cb <= 255,
        t <= 255,
    ensures
        r == lerp(ca, cb, t),
        r <= 255,
{
    if cb >= ca {
        assert((cb - ca) * t <= 255 * 255) by (nonlinear_arith)
            requires
                cb - ca <= 255,
                t <= 255,
        ;
        let v = ca + (cb - ca) * t / 255;
        if v < 255 {
            v
        } else {
            255
        }
    } else {
        let d = ca - cb;
        assert(d * t <= d * 255) by (nonlinear_arith)
            requires
                t <= 255,
        ;
        assert(d * t / 255 <= d) by (nonlinear_arith)
            requires
                d * t <= d * 255,
        ;
        ca - d * t / 255
    }
}

/// Colour `a` blended towards `b` by `t`/255, channel by channel.
pub open spec fn blended(a: u32, b: u32, t: u32) -> int {
    lerp((a >> 16u32) & 0xFF, (b >> 16u32) & 0xFF, t) * 65536 + lerp((a >> 8u32) & 0xFF, (b >> 8u32) & 0xFF, t)
        * 256 + lerp(a & 0xFF, b & 0xFF, t)
}

pub fn blend_color(a: u32, b: u32, t: u32) -> (r: u32)
    requires
        t <= 255,
    ensures
        r == blended(a, b, t),
{
    assert(((a >> 16u32) & 0xFF) <= 255 && ((b >> 16u32) & 0xFF) <= 255) by (bit_vector);
    assert(((a >> 8u32) & 0xFF) <= 255 && ((b >> 8u32) & 0xFF) <= 255) by (bit_vector);
    assert((a & 0xFF) <= 255 && (b & 0xFF) <= 255) by (bit_vector);
    let r = lerp_channel((a >> 16) & 0xFF, (b >> 16) & 0xFF, t);
    let g = lerp_channel((a >> 8) & 0xFF, (b >> 8) & 0xFF, t);
    let bl = lerp_channel(a & 0xFF, b & 0xFF, t);
    r * 65536 + g * 256 + bl
}

/// An upper-case hex digit.
pub open spec fn hex_up(n: int) -> char {
    if n < 10 {
        ((n + 48) as u8) as char
    } else {
        ((n - 10 + 65) as u8) as char
    }
}

/// `#RRGGBB` for an RGB value, upper case.
pub open spec fn hex_text(rgb: u32) -> Seq<char> {
    let r = (rgb as int / 65536) % 256;
    let g = (rgb as int / 256) % 256;
    let b = rgb as int % 256;
    seq!['#', hex_up(r / 16), hex_up(r % 16), hex_up(g / 16), hex_up(g % 16), hex_up(b / 16), hex_up(b % 16)]
}

fn hex_digit_up(n: u32) -> (r: char)
    requires
        n < 16,
    ensures
        r == hex_up(n as int),
{
    if n < 10 {
        ((n as u8) + 48) as char
    } else {
        ((n as u8) - 10 + 65) as char
    }
}

/// The hex label of a colour.
pub fn hex_label(rgb: u32) -> (r: String)
    ensures
        r@ == hex_text(rgb),
{
    let r = (rgb / 65536) % 256;
    let g = (rgb / 256) % 256;
    let b = rgb % 256;
    let mut s = String::new();
    crate::text::push_char(&mut s, '#');
    crate::text::push_char(&mut s, hex_digit_up(r / 16));
    crate::text::push_char(&mut s, hex_digit_up(r % 16));
    crate::text::push_char(&mut s, hex_digit_up(g / 16));
    crate::text::push_char(&mut s, hex_digit_up(g % 16));
    crate::text::push_char(&mut s, hex_digit_up(b / 16));
    crate::text::push_char(&mut s, hex_digit_up(b % 16));
    assert(s@ =~= hex_text(rgb));
    s
}

/// `R r  G g  B b` for an RGB value.
pub open spec fn rgb_text(rgb: u32) -> Seq<char> {
    "R "@ + dec(((rgb as int / 65536) % 256) as nat) + "  G "@ + dec(((rgb as int / 256) % 256) as nat)
        + "  B "@ + dec((rgb as int % 256) as nat)
}

/// The channel line of a colour.
pub fn rgb_label(rgb: u32) -> (r: String)
    ensures
        r@ == rgb_text(rgb),
{
    let mut s = string_from("R ");
    push_u64(&mut s, ((rgb / 65536) % 256) as u64);
    push_str(&mut s, "  G ");
    push_u64(&mut s, ((rgb / 256) % 256) as u64);
    push_str(&mut s, "  B ");
    push_u64(&mut s, (rgb % 256) as u64);
    s
}

/// How much of a channel bar `w` pixels wide a channel value fills.
pub open spec fn bar_fill(w: usize, value: usize) -> int {
    let inner = if w >= 2 {
        w - 2
    } else {
        0
    };
    let v = if value < 255 {
        value as int
    } else {
        255
    };
    inner * v / 255
}

pub fn channel_fill(w: usize, value: usize) -> (r: usize)
    requires
        w <= 0x00FF_FFFF,
    ensures
        r == bar_fill(w, value),
{
    let inner = if w >= 2 {
        w - 2
    } else {
        0
    };
    let v = if value < 255 {
        value
    } else {
        255
    };
    assert(inner * v <= 0x00FF_FFFF * 255) by (nonlinear_arith)
        requires
            inner <= 0x00FF_FFFF,
            v <= 255,
    ;
    inner * v / 255
}


// ── Drawing ─────────────────────────────────────────────────────────────────

pub const BG_A: u32 = 0x0005_0715;
pub const BG_B: u32 = 0x0002_0309;
pub const PANEL: u32 = 0x0000_0B1C;
pub const PANEL_ALT: u32 = 0x0000_0F24;
pub const BORDER: u32 = 0x0000_4488;
pub const ACCENT: u32 = 0x00AA_55FF;
pub const LABEL: u32 = 0x00CC_EEFF;
pub const MUTED: u32 = 0x0066_AADD;
pub const WHITE: u32 = 0x00FF_FFFF;
pub const INNER: u32 = 0x0000_1830;
pub const BAR_BG: u32 = 0x0011_2233;
pub const PREVIEW_X: usize = 224;
pub const PREVIEW_Y: usize = 52;
pub const PREVIEW_W: usize = 232;
pub const PREVIEW_H: usize = 228;

/// The four one-pixel edges of a rectangle; none for an empty one.
pub open spec fn border(x: usize, y: usize, w: usize, h: usize, c: u32) -> Seq<OpView> {
    if w == 0 || h == 0 {
        Seq::empty()
    } else {
        seq![
            OpView::Fill(x, y, w, 1, c),
            OpView::Fill(x, (y + h - 1) as usize, w, 1, c),
            OpView::Fill(x, y, 1, h, c),
            OpView::Fill((x + w - 1) as usize, y, 1, h, c),
        ]
    }
}

/// A channel bar: its track, its edges, and the fill for `value`.
pub open spec fn bar(x: usize, y: usize, w: usize, h: usize, value: usize, fill: u32) -> Seq<OpView> {
    let fw = bar_fill(w, value);
    seq![OpView::Fill(x, y, w, h, BAR_BG)] + border(x, y, w, h, INNER) + if fw > 0 {
        seq![OpView::Fill((x + 1) as usize, (y + 1) as usize, fw as usize, (h - 2) as usize, fill)]
    } else {
        Seq::empty()
    }
}

/// The header, the preview panel's frame and the title lines.
pub open spec fn header_ops(stride: usize) -> Seq<OpView> {
    seq![
        OpView::Background(BG_A, BG_B),
        OpView::Fill(0, 0, stride, 34, PANEL_ALT),
        OpView::Fill(0, 0, stride, 3, ACCENT),
        OpView::Fill(0, 33, stride, 1, BORDER),
        OpView::Fill(224, 52, 232, 228, PANEL),
    ] + border(224, 52, 232, 228, BORDER) + border(225, 53, 230, 226, INNER) + seq![
        OpView::Text(18, 12, "PALETTE LAB"@, LABEL),
        OpView::Text(18, 24, "pick a swatch to inspect rgb and hex values"@, MUTED),
    ]
}

/// Swatch `i`: a tinted tile, its edge, the colour itself, and a double
/// frame when it is the selected one.
pub open spec fn swatch_ops(i: usize, sel: Option<usize>) -> Seq<OpView> {
    let x = (20 + (i % 4) * 50) as usize;
    let y = (52 + (i / 4) * 50) as usize;
    let c = palette(i).1;
    seq![OpView::Fill(x, y, 40, 40, blended(c, BG_A, 20) as u32)] + border(
        x,
        y,
        40,
        40,
        blended(c, WHITE, 60) as u32,
    ) + seq![OpView::Fill((x + 4) as usize, (y + 4) as usize, 32, 32, c)] + if sel == Some(i) {
        border((x - 3) as usize, (y - 3) as usize, 46, 46, ACCENT) + border(
            (x - 2) as usize,
            (y - 2) as usize,
            44,
            44,
            WHITE,
        )
    } else {
        Seq::empty()
    }
}

/// The first `n` swatches.
pub open spec fn swatches_ops(n: usize, sel: Option<usize>) -> Seq<OpView>
    decreases n,
{
    if n == 0 {
        Seq::empty()
    } else {
        swatches_ops((n - 1) as usize, sel) + swatch_ops((n - 1) as usize, sel)
    }
}

/// The preview of colour `idx`: name, large sample, hex and RGB values,
/// and a bar per channel.
pub open spec fn preview_ops(idx: usize) -> Seq<OpView> {
    preview_head(idx) + preview_channels(idx)
}

/// The preview's name, sample and values.
pub open spec fn preview_head(idx: usize) -> Seq<OpView> {
    let name = palette(idx).0;
    let rgb = palette(idx).1;
    seq![
        OpView::Text(240, 66, "CURRENT SWATCH"@, LABEL),
        OpView::Text(240, 82, name, WHITE),
        OpView::Fill(240, 102, 92, 92, rgb),
    ] + border(240, 102, 92, 92, WHITE) + border(336, 102, 104, 92, BORDER) + seq![
        OpView::Text(350, 114, "Hex"@, MUTED),
        OpView::Text(350, 130, hex_text(rgb), WHITE),
        OpView::Text(350, 152, "RGB"@, MUTED),
        OpView::Text(350, 168, rgb_text(rgb), WHITE),
    ]
}

/// The preview's channel bars and closing line.
pub open spec fn preview_channels(idx: usize) -> Seq<OpView> {
    let rgb = palette(idx).1;
    let r = ((rgb as int / 65536) % 256) as usize;
    let g = ((rgb as int / 256) % 256) as usize;
    let b = (rgb as int % 256) as usize;
    seq![
        OpView::Text(240, 212, "CHANNELS"@, LABEL),
        OpView::Text(240, 230, "RED"@, MUTED),
        OpView::Text(240, 254, "GREEN"@, MUTED),
        OpView::Text(240, 278, "BLUE"@, MUTED),
    ] + bar(294, 230, 140, 8, r, 0x00AA_0000) + bar(294, 254, 140, 8, g, 0x0000_AA00) + bar(
        294,
        278,
        140,
        8,
        b,
        0x0000_AAAA,
    ) + seq![OpView::Text(240, 306, "classic 16-colour ega palette"@, MUTED)]
}

/// Everything the picker draws, in order.
pub open spec fn picker_ops(sel: Option<usize>, stride: usize) -> Seq<OpView> {
    header_ops(stride) + swatches_ops(16, sel) + match sel {
        Some(idx) => preview_ops(idx),
        None => Seq::empty(),
    } + seq![OpView::Text(20, 288, "click any tile to sample"@, MUTED)]
}

fn push_op(out: &mut Vec<DrawOp>, op: DrawOp)
    requires
        op_ok(op_view(op)),
        ops_ok(op_views(old(out)@)),
    ensures
        op_views(final(out)@) == op_views(old(out)@).push(op_view(op)),
        ops_ok(op_views(final(out)@)),
{
    let ghost o = out@;
    out.push(op);
    assert(op_views(out@) =~= op_views(o).push(op_view(op)));
}

fn text_op(x: usize, y: usize, t: &str, c: u32) -> (r: DrawOp)
    ensures
        op_view(r) == OpView::Text(x, y, t@, c),
{
    DrawOp::Text(x, y, chars_of(t), c)
}

fn push_border(out: &mut Vec<DrawOp>, x: usize, y: usize, w: usize, h: usize, c: u32)
    requires
        ops_ok(op_views(old(out)@)),
        x + w <= MAX_COORD,
        y + h <= MAX_COORD,
    ensures
        ops_ok(op_views(final(out)@)),
        op_views(final(out)@) == op_views(old(out)@) + border(x, y, w, h, c),
{
    let ghost o = op_views(out@);
    if w == 0 || h == 0 {
        assert(o + border(x, y, w, h, c) =~= o);
        return;
    }
    push_op(out, DrawOp::Fill(x, y, w, 1, c));
    push_op(out, DrawOp::Fill(x, y + h - 1, w, 1, c));
    push_op(out, DrawOp::Fill(x, y, 1, h, c));
    push_op(out, DrawOp::Fill(x + w - 1, y, 1, h, c));
    assert(op_views(out@) =~= o + border(x, y, w, h, c));
}

fn push_bar(out: &mut Vec<DrawOp>, x: usize, y: usize, w: usize, h: usize, value: usize, fill: u32)
    requires
        ops_ok(op_views(old(out)@)),
        x + w <= MAX_COORD,
        y + h <= MAX_COORD,
        w <= 0x00FF_FFFF,
        h >= 2,
    ensures
        ops_ok(op_views(final(out)@)),
        op_views(final(out)@) == op_views(old(out)@) + bar(x, y, w, h, value, fill),
{
    let ghost o = op_views(out@);
    push_op(out, DrawOp::Fill(x, y, w, h, BAR_BG));
    push_border(out, x, y, w, h, INNER);
    let fw = channel_fill(w, value);
    if fw > 0 {
        assert(fw <= w) by (nonlinear_arith)
            requires
                fw == bar_fill(w, value),
        ;
        push_op(out, DrawOp::Fill(x + 1, y + 1, fw, h - 2, fill));
    }
    assert(op_views(out@) =~= o + bar(x, y, w, h, value, fill));
}

fn push_swatch(out: &mut Vec<DrawOp>, i: usize, sel: Option<usize>)
    requires
        ops_ok(op_views(old(out)@)),
        i < 16,
    ensures
        ops_ok(op_views(final(out)@)),
        op_views(final(out)@) == op_views(old(out)@) + swatch_ops(i, sel),
{
    let ghost o = op_views(out@);
    let x = 20 + (i % 4) * 50;
    let y = 52 + (i / 4) * 50;
    let (_, c) = color(i);
    push_op(out, DrawOp::Fill(x, y, 40, 40, blend_color(c, BG_A, 20)));
    push_border(out, x, y, 40, 40, blend_color(c, WHITE, 60));
    push_op(out, DrawOp::Fill(x + 4, y + 4, 32, 32, c));
    let selected = match sel {
        Some(s) => s == i,
        None => false,
    };
    if selected {
        push_border(out, x - 3, y - 3, 46, 46, ACCENT);
        push_border(out, x - 2, y - 2, 44, 44, WHITE);
    }
    assert(op_views(out@) =~= o + swatch_ops(i, sel));
}

fn push_preview_head(out: &mut Vec<DrawOp>, idx: usize)
    requires
        ops_ok(op_views(old(out)@)),
        idx < 16,
    ensures
        ops_ok(op_views(final(out)@)),
        op_views(final(out)@) == op_views(old(out)@) + preview_head(idx),
{
    let ghost o = op_views(out@);
    let (name, rgb) = color(idx);
    push_op(out, text_op(240, 66, "CURRENT SWATCH", LABEL));
    push_op(out, text_op(240, 82, name, WHITE));
    push_op(out, DrawOp::Fill(240, 102, 92, 92, rgb));
    push_border(out, 240, 102, 92, 92, WHITE);
    push_border(out, 336, 102, 104, 92, BORDER);
    push_op(out, text_op(350, 114, "Hex", MUTED));
    let hex = hex_label(rgb);
    push_op(out, DrawOp::Text(350, 130, string_chars(&hex), WHITE));
    push_op(out, text_op(350, 152, "RGB", MUTED));
    let line = rgb_label(rgb);
    push_op(out, DrawOp::Text(350, 168, string_chars(&line), WHITE));
    assert(op_views(out@) =~= o + preview_head(idx));
}

fn push_preview_channels(out: &mut Vec<DrawOp>, idx: usize)
    requires
        ops_ok(op_views(old(out)@)),
        idx < 16,
    ensures
        ops_ok(op_views(final(out)@)),
        op_views(final(out)@) == op_views(old(out)@) + preview_channels(idx),
{
    let ghost o = op_views(out@);
    let (_, rgb) = color(idx);
    let r = ((rgb / 65536) % 256) as usize;
    let g = ((rgb / 256) % 256) as usize;
    let b = (rgb % 256) as usize;
    push_op(out, text_op(240, 212, "CHANNELS", LABEL));
    push_op(out, text_op(240, 230, "RED", MUTED));
    push_op(out, text_op(240, 254, "GREEN", MUTED));
    push_op(out, text_op(240, 278, "BLUE", MUTED));
    let ghost o2 = op_views(out@);
    push_bar(out, 294, 230, 140, 8, r, 0x00AA_0000);
    push_bar(out, 294, 254, 140, 8, g, 0x0000_AA00);
    push_bar(out, 294, 278, 140, 8, b, 0x0000_AAAA);
    push_op(out, text_op(240, 306, "classic 16-colour ega palette", MUTED));
    assert(op_views(out@) =~= o + preview_channels(idx));
}

fn push_preview(out: &mut Vec<DrawOp>, idx: usize)
    requires
        ops_ok(op_views(old(out)@)),
        idx < 16,
    ensures
        ops_ok(op_views(final(out)@)),
        op_views(final(out)@) == op_views(old(out)@) + preview_ops(idx),
{
    let ghost o = op_views(out@);
    push_preview_head(out, idx);
    push_preview_channels(out, idx);
    assert(op_views(out@) =~= o + preview_ops(idx));
}

/// The drawing steps of the picker with `sel` selected, on a canvas
/// `stride` pixels wide.
pub fn picker_draw_list(sel: Option<usize>, stride: usize) -> (r: Vec<DrawOp>)
    requires
        sel matches Some(i) ==> i < 16,
        stride <= MAX_COORD,
    ensures
        op_views(r@) == picker_ops(sel, stride),
        ops_ok(op_views(r@)),
{
    let mut out: Vec<DrawOp> = Vec::new();
    assert(op_views(out@) =~= Seq::<OpView>::empty());
    push_op(&mut out, DrawOp::Background(BG_A, BG_B));
    push_op(&mut out, DrawOp::Fill(0, 0, stride, 34, PANEL_ALT));
    push_op(&mut out, DrawOp::Fill(0, 0, stride, 3, ACCENT));
    push_op(&mut out, DrawOp::Fill(0, 33, stride, 1, BORDER));
    push_op(&mut out, DrawOp::Fill(224, 52, 232, 228, PANEL));
    push_border(&mut out, 224, 52, 232, 228, BORDER);
    push_border(&mut out, 225, 53, 230, 226, INNER);
    push_op(&mut out, text_op(18, 12, "PALETTE LAB", LABEL));
    push_op(&mut out, text_op(18, 24, "pick a swatch to inspect rgb and hex values", MUTED));
    assert(op_views(out@) =~= header_ops(stride));
    let mut i: usize = 0;
    assert(header_ops(stride) + swatches_ops(0, sel) =~= header_ops(stride));
    while i < 16
        invariant
            i <= 16,
            stride <= MAX_COORD,
            ops_ok(op_views(out@)),
            op_views(out@) == header_ops(stride) + swatches_ops(i, sel),
        decreases 16 - i,
    {
        push_swatch(&mut out, i, sel);
        i = i + 1;
        assert(header_ops(stride) + swatches_ops(i, sel) =~= header_ops(stride) + swatches_ops(
            (i - 1) as usize,
            sel,
        ) + swatch_ops((i - 1) as usize, sel));
    }
    let ghost before = op_views(out@);
    match sel {
        Some(idx) => push_preview(&mut out, idx),
        None => {},
    }
    push_op(&mut out, text_op(20, 288, "click any tile to sample", MUTED));
    assert(op_views(out@) =~= picker_ops(sel, stride));
    out
}

/// Draws the picker with `sel` selected into a canvas `stride` pixels
/// wide with `height` content rows.
pub fn render(sel: Option<usize>, buf: &mut Vec<u32>, stride: usize, height: usize)
    requires
        sel matches Some(i) ==> i < 16,
        0 < stride <= MAX_COORD,
        height <= MAX_COORD,
    ensures
        final(buf)@ == apply_ops(old(buf)@, stride as nat, height as nat, picker_ops(sel, stride)),
{
    let ops = picker_draw_list(sel, stride);
    draw(buf, stride, height, &ops);
}


/// Swatch `i` shows its palette colour in a 32-pixel square inset by 4
/// within its tile, and the selected swatch gets an accent frame 3 pixels
/// outside its tile.
pub proof fn lemma_swatch_shows_colour(i: usize, sel: Option<usize>)
    requires
        i < 16,
    ensures
        swatch_ops(i, sel).contains(
            OpView::Fill(
                (20 + (i % 4) * 50 + 4) as usize,
                (52 + (i / 4) * 50 + 4) as usize,
                32,
                32,
                palette(i).1,
            ),
        ),
        sel == Some(i) ==> swatch_ops(i, sel).contains(
            OpView::Fill(
                (20 + (i % 4) * 50 - 3) as usize,
                (52 + (i / 4) * 50 - 3) as usize,
                46,
                1,
                ACCENT,
            ),
        ),
{
    let ops = swatch_ops(i, sel);
    assert(ops[5] == OpView::Fill(
        (20 + (i % 4) * 50 + 4) as usize,
        (52 + (i / 4) * 50 + 4) as usize,
        32,
        32,
        palette(i).1,
    ));
    if sel == Some(i) {
        assert(ops[6] == OpView::Fill(
            (20 + (i % 4) * 50 - 3) as usize,
            (52 + (i / 4) * 50 - 3) as usize,
            46,
            1,
            ACCENT,
        ));
    }
}

} // verus!

