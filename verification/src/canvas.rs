//! Pixel drawing into a window's buffer: rows of `stride` pixels, of which
//! `height` rows belong to the content area. Text uses the 8×8 glyphs of
//! the `font8x8` crate.
use vstd::prelude::*;
use font8x8::UnicodeFonts;

verus! {

/// Largest canvas dimension or coordinate the drawing code takes.
pub const MAX_COORD: usize = 0x7FFF_FFFF;

/// The glyph `font8x8` draws for a basic-Latin character.
pub uninterp spec fn basic_glyph(c: char) -> Seq<u8>;

/// `font8x8::BASIC_FONTS.get`: the 8×8 glyph of a character in
/// U+0000..=U+007F, one byte per row with bit 0 leftmost; none for any
/// other character. Which bits a glyph holds is left to the font's tables.
#[verifier::external_body]
fn basic_font_glyph(c: char) -> (r: Option<[u8; 8]>)
    ensures
        r is Some <==> (c as u32) < 128,
        r matches Some(g) ==> g@ == basic_glyph(c),
{
    font8x8::BASIC_FONTS.get(c)
}

/// The glyph drawn for `c`: its own, or a blank's for characters outside
/// the basic set.
pub open spec fn glyph_of(c: char) -> Seq<u8> {
    if (c as u32) < 128 {
        basic_glyph(c)
    } else {
        basic_glyph(' ')
    }
}

pub fn glyph(c: char) -> (r: [u8; 8])
    ensures
        r@ == glyph_of(c),
{
    match basic_font_glyph(c) {
        Some(g) => g,
        None => match basic_font_glyph(' ') {
            Some(g) => g,
            None => [0u8; 8],
        },
    }
}

/// Alternating bands of five rows in `a` and `b`.
pub open spec fn paint_background(buf: Seq<u32>, stride: nat, a: u32, b: u32) -> Seq<u32> {
    Seq::new(buf.len(), |i: int| if (i / (stride as int)) % 10 < 5 { a } else { b })
}

/// `buf` with the rectangle at `(x, y)` of size `w`×`h`, clipped to the
/// canvas, painted `color`.
pub open spec fn paint_fill(
    buf: Seq<u32>,
    stride: nat,
    height: nat,
    x: int,
    y: int,
    w: int,
    h: int,
    color: u32,
) -> Seq<u32> {
    Seq::new(
        buf.len(),
        |i: int|
            if y <= i / (stride as int) && i / (stride as int) < y + h && i / (stride as int)
                < height && x <= i % (stride as int) && i % (stride as int) < x + w {
                color
            } else {
                buf[i]
            },
    )
}

/// `buf` with the set bits of glyph `g` at `(px, py)` painted `fg`.
pub open spec fn paint_glyph(buf: Seq<u32>, stride: nat, px: int, py: int, g: Seq<u8>, fg: u32) -> Seq<
    u32,
> {
    Seq::new(
        buf.len(),
        |i: int|
            {
                let row = i / (stride as int);
                let col = i % (stride as int);
                if py <= row < py + 8 && px <= col < px + 8 && (g[row - py] >> ((col - px) as u8))
                    & 1 == 1 {
                    fg
                } else {
                    buf[i]
                }
            },
    )
}

/// `buf` with the characters of `s` drawn from `(px, py)` on, eight pixels
/// apart, as far as whole glyphs fit in the row.
pub open spec fn paint_text(buf: Seq<u32>, stride: nat, px: int, py: int, s: Seq<char>, fg: u32) -> Seq<
    u32,
>
    decreases s.len(),
{
    if s.len() == 0 {
        buf
    } else {
        let before = paint_text(buf, stride, px, py, s.drop_last(), fg);
        let gx = px + (s.len() - 1) * 8;
        if gx + 8 <= stride {
            paint_glyph(before, stride, gx, py, glyph_of(s.last()), fg)
        } else {
            before
        }
    }
}

proof fn lemma_rowcol(i: int, stride: int, row: int, col: int)
    requires
        stride > 0,
        0 <= col < stride,
        i == row * stride + col,
    ensures
        i / stride == row,
        i % stride == col,
{
    vstd::arithmetic::div_mod::lemma_fundamental_div_mod_converse(i, stride, row, col);
}

/// Paints the striped background.
pub fn background(buf: &mut Vec<u32>, stride: usize, a: u32, b: u32)
    requires
        stride > 0,
    ensures
        final(buf)@ == paint_background(old(buf)@, stride as nat, a, b),
{
    let n = buf.len();
    let mut i: usize = 0;
    while i < n
        invariant
            n == buf@.len(),
            n == old(buf)@.len(),
            stride > 0,
            i <= n,
            forall|k: int|
                0 <= k < i ==> buf@[k] == (if (k / (stride as int)) % 10 < 5 {
                    a
                } else {
                    b
                }),
        decreases n - i,
    {
        let py = i / stride;
        buf.set(i, if py % 10 < 5 {
            a
        } else {
            b
        });
        i = i + 1;
    }
    assert(buf@ =~= paint_background(old(buf)@, stride as nat, a, b));
}

fn fill_row(buf: &mut Vec<u32>, stride: usize, row: usize, x: usize, xe: usize, color: u32)
    requires
        0 < stride <= MAX_COORD,
        row <= 2 * MAX_COORD,
        xe <= stride,
    ensures
        final(buf)@ == Seq::new(
            old(buf)@.len(),
            |i: int|
                if i / (stride as int) == row && x <= i % (stride as int) && i % (stride as int) < xe {
                    color
                } else {
                    old(buf)@[i]
                },
        ),
{
    let ghost b0 = buf@;
    assert(row * stride <= 2 * MAX_COORD * MAX_COORD) by (nonlinear_arith)
        requires
            row <= 2 * MAX_COORD,
            stride <= MAX_COORD,
    ;
    let base: u64 = row as u64 * stride as u64;
    let mut col: usize = x;
    if col > xe {
        col = xe;
    }
    let start = col;
    while col < xe
        invariant
            0 < stride <= MAX_COORD,
            xe <= stride,
            start <= col <= xe,
            start <= x,
            start == x || start == xe,
            base == row * stride,
            base <= 2 * MAX_COORD * MAX_COORD,
            buf@.len() == b0.len(),
            forall|i: int|
                0 <= i < b0.len() ==> buf@[i] == (if i / (stride as int) == row && x <= i
                    % (stride as int) && i % (stride as int) < col {
                    color
                } else {
                    b0[i]
                }),
        decreases xe - col,
    {
        let idx: u64 = base + col as u64;
        proof {
            lemma_rowcol(idx as int, (stride as int), row as int, col as int);
        }
        if idx < buf.len() as u64 {
            buf.set(idx as usize, color);
        }
        proof {
            assert forall|i: int| 0 <= i < b0.len() implies buf@[i] == (if i / (stride as int)
                == row && x <= i % (stride as int) && i % (stride as int) < col + 1 {
                color
            } else {
                b0[i]
            }) by {
                if i == idx {
                } else if i / (stride as int) == row && i % (stride as int) == col {
                    vstd::arithmetic::div_mod::lemma_fundamental_div_mod(i, (stride as int));
                    assert(i == row * stride + col) by (nonlinear_arith)
                        requires
                            i == stride * (i / (stride as int)) + i % (stride as int),
                            i / (stride as int) == row,
                            i % (stride as int) == col,
                    ;
                }
            }
        }
        col = col + 1;
    }
    assert(buf@ =~= Seq::new(
        b0.len(),
        |i: int|
            if i / (stride as int) == row && x <= i % (stride as int) && i % (stride as int) < xe {
                color
            } else {
                b0[i]
            },
    ));
}


/// Paints a rectangle, clipped to the canvas.
pub fn fill_rect(
    buf: &mut Vec<u32>,
    stride: usize,
    height: usize,
    x: usize,
    y: usize,
    w: usize,
    h: usize,
    color: u32,
)
    requires
        0 < stride <= MAX_COORD,
        height <= MAX_COORD,
        x <= MAX_COORD && y <= MAX_COORD && w <= MAX_COORD && h <= MAX_COORD,
    ensures
        final(buf)@ == paint_fill(old(buf)@, stride as nat, height as nat, x as int, y as int, w as int, h as int, color),
{
    let ghost b0 = buf@;
    let xe: usize = if x + w < stride {
        x + w
    } else {
        stride
    };
    let ye: usize = if y + h < height {
        y + h
    } else {
        height
    };
    let mut row: usize = y;
    proof {
        assert(buf@ =~= Seq::new(
            b0.len(),
            |i: int|
                if y <= i / (stride as int) && i / (stride as int) < row && x <= i % (stride as int)
                    && i % (stride as int) < xe {
                    color
                } else {
                    b0[i]
                },
        ));
    }
    while row < ye
        invariant
            0 < stride <= MAX_COORD,
            y <= row,
            row <= ye || ye < y,
            ye < y ==> row == y,
            ye <= height,
            height <= MAX_COORD,
            xe <= stride,
            buf@.len() == b0.len(),
            buf@ == Seq::new(
                b0.len(),
                |i: int|
                    if y <= i / (stride as int) && i / (stride as int) < row && x <= i % (stride as int)
                        && i % (stride as int) < xe {
                        color
                    } else {
                        b0[i]
                    },
            ),
        decreases ye - row,
    {
        let ghost before = buf@;
        fill_row(buf, stride, row, x, xe, color);
        row = row + 1;
        assert(buf@ =~= Seq::new(
            b0.len(),
            |i: int|
                if y <= i / (stride as int) && i / (stride as int) < row && x <= i % (stride as int)
                    && i % (stride as int) < xe {
                    color
                } else {
                    b0[i]
                },
        ));
    }
    let ghost target = paint_fill(b0, stride as nat, height as nat, x as int, y as int, w as int, h as int, color);
    proof {
        assert(row == ye || (ye < y && row == y));
        assert forall|i: int| 0 <= i < b0.len() implies buf@[i] == target[i] by {
            vstd::arithmetic::div_mod::lemma_mod_pos_bound(i, stride as int);
            let r = i / (stride as int);
            let c = i % (stride as int);
            assert(c < xe <==> c < x + w);
            assert((y <= r && r < row) <==> (y <= r && r < y + h && r < height));
        }
    }
    assert(buf@ =~= target);
}

/// Glyph bits already drawn: those of the first `k` (row by row).
pub open spec fn glyph_done(i: int, stride: int, px: int, py: int, g: Seq<u8>, k: int) -> bool {
    let row = i / stride;
    let col = i % stride;
    py <= row < py + 8 && px <= col < px + 8 && (row - py) * 8 + (col - px) < k && (g[row - py] >> ((col - px) as u8)) & 1 == 1
}

/// Draws one glyph with its top-left corner at `(px, py)`.
pub fn put_char(buf: &mut Vec<u32>, stride: usize, px: usize, py: usize, c: char, fg: u32)
    requires
        0 < stride <= MAX_COORD,
        px + 8 <= stride,
        py <= MAX_COORD,
    ensures
        final(buf)@ == paint_glyph(old(buf)@, stride as nat, px as int, py as int, glyph_of(c), fg),
{
    let g = glyph(c);
    let ghost b0 = buf@;
    let mut k: usize = 0;
    while k < 64
        invariant
            0 < stride <= MAX_COORD,
            px + 8 <= stride,
            py <= MAX_COORD,
            k <= 64,
            g@ == glyph_of(c),
            buf@.len() == b0.len(),
            forall|i: int|
                0 <= i < b0.len() ==> buf@[i] == (if glyph_done(i, stride as int, px as int, py as int, g@, k as int) {
                    fg
                } else {
                    b0[i]
                }),
        decreases 64 - k,
    {
        let gy = k / 8;
        let bit = k % 8;
        let row = py + gy;
        let col = px + bit;
        assert(row * stride <= 2 * MAX_COORD * MAX_COORD) by (nonlinear_arith)
            requires
                row <= 2 * MAX_COORD,
                stride <= MAX_COORD,
        ;
        let idx: u64 = row as u64 * stride as u64 + col as u64;
        proof {
            lemma_rowcol(idx as int, stride as int, row as int, col as int);
        }
        let on = (g[gy] >> (bit as u8)) & 1 == 1;
        if on && idx < buf.len() as u64 {
            buf.set(idx as usize, fg);
        }
        proof {
            assert forall|i: int| 0 <= i < b0.len() implies buf@[i] == (if glyph_done(i, stride as int, px as int, py as int, g@, k + 1) {
                fg
            } else {
                b0[i]
            }) by {
                let r = i / (stride as int);
                let cc = i % (stride as int);
                if py <= r < py + 8 && px <= cc < px + 8 && (r - py) * 8 + (cc - px) == k {
                    vstd::arithmetic::div_mod::lemma_fundamental_div_mod(i, stride as int);
                    assert(r - py == gy && cc - px == bit);
                    assert(i == row * stride + col) by (nonlinear_arith)
                        requires
                            i == stride * r + cc,
                            r == row,
                            cc == col,
                    ;
                }
            }
        }
        k = k + 1;
    }
    assert(buf@ =~= paint_glyph(b0, stride as nat, px as int, py as int, glyph_of(c), fg));
}

proof fn lemma_text_stops(b: Seq<u32>, stride: nat, px: int, py: int, s: Seq<char>, fg: u32, n: int, m: int)
    requires
        0 <= n <= m <= s.len(),
        px + n * 8 + 8 > stride,
    ensures
        paint_text(b, stride, px, py, s.take(m), fg) == paint_text(b, stride, px, py, s.take(n), fg),
    decreases m - n,
{
    if m > n {
        lemma_text_stops(b, stride, px, py, s, fg, n, m - 1);
        assert(s.take(m).drop_last() =~= s.take(m - 1));
        assert(px + (m - 1) * 8 + 8 > stride) by (nonlinear_arith)
            requires
                px + n * 8 + 8 > stride,
                m - 1 >= n,
        ;
    }
}

/// Draws a line of text from `(px, py)`, eight pixels per character, as far
/// as whole glyphs fit in the row.
pub fn put_str(buf: &mut Vec<u32>, stride: usize, px: usize, py: usize, s: &[char], fg: u32)
    requires
        0 < stride <= MAX_COORD,
        px <= MAX_COORD,
        py <= MAX_COORD,
    ensures
        final(buf)@ == paint_text(old(buf)@, stride as nat, px as int, py as int, s@, fg),
{
    let ghost b0 = buf@;
    let mut ci: usize = 0;
    assert(s@.take(0) =~= Seq::<char>::empty());
    proof {
        if s@.len() == 0 {
            assert(s@.take(0) =~= s@);
        }
    }
    while ci < s.len()
        invariant
            0 < stride <= MAX_COORD,
            px <= MAX_COORD,
            py <= MAX_COORD,
            ci <= s@.len(),
            buf@ == paint_text(b0, stride as nat, px as int, py as int, s@.take(ci as int), fg),
            ci == s@.len() ==> s@.take(ci as int) == s@,
        ensures
            buf@ == paint_text(b0, stride as nat, px as int, py as int, s@, fg),
        decreases s@.len() - ci,
    {
        if ci > MAX_COORD || px as u64 + ci as u64 * 8 + 8 > stride as u64 {
            proof {
                assert(px + ci * 8 + 8 > stride);
                lemma_text_stops(b0, stride as nat, px as int, py as int, s@, fg, ci as int, s@.len() as int);
                assert(s@.take(s@.len() as int) =~= s@);
            }
            break;
        }
        assert(s@.take(ci + 1).drop_last() =~= s@.take(ci as int));
        assert(s@.take(ci + 1).last() == s@[ci as int]);
        let gx: usize = px + ci * 8;
        put_char(buf, stride, gx, py, s[ci], fg);
        ci = ci + 1;
        proof {
            if ci == s@.len() {
                assert(s@.take(ci as int) =~= s@);
            }
        }
    }
}


/// One drawing step.
pub enum DrawOp {
    /// The striped background in two colours.
    Background(u32, u32),
    /// A rectangle `(x, y, w, h)` in a colour.
    Fill(usize, usize, usize, usize, u32),
    /// A line of text at `(x, y)` in a colour.
    Text(usize, usize, Vec<char>, u32),
}

/// A drawing step, its text as a character sequence.
pub enum OpView {
    Background(u32, u32),
    Fill(usize, usize, usize, usize, u32),
    Text(usize, usize, Seq<char>, u32),
}

pub open spec fn op_view(op: DrawOp) -> OpView {
    match op {
        DrawOp::Background(a, b) => OpView::Background(a, b),
        DrawOp::Fill(x, y, w, h, c) => OpView::Fill(x, y, w, h, c),
        DrawOp::Text(x, y, t, c) => OpView::Text(x, y, t@, c),
    }
}

pub open spec fn op_views(v: Seq<DrawOp>) -> Seq<OpView> {
    v.map_values(|op: DrawOp| op_view(op))
}

/// A step whose coordinates the drawing code takes.
pub open spec fn op_ok(op: OpView) -> bool {
    match op {
        OpView::Background(_, _) => true,
        OpView::Fill(x, y, w, h, _) => x <= MAX_COORD && y <= MAX_COORD && w <= MAX_COORD && h
            <= MAX_COORD,
        OpView::Text(x, y, _, _) => x <= MAX_COORD && y <= MAX_COORD,
    }
}

pub open spec fn ops_ok(ops: Seq<OpView>) -> bool {
    forall|i: int| 0 <= i < ops.len() ==> op_ok(#[trigger] ops[i])
}

/// The canvas after one step.
pub open spec fn apply_op(b: Seq<u32>, stride: nat, height: nat, op: OpView) -> Seq<u32> {
    match op {
        OpView::Background(a, c) => paint_background(b, stride, a, c),
        OpView::Fill(x, y, w, h, c) => paint_fill(b, stride, height, x as int, y as int, w as int, h as int, c),
        OpView::Text(x, y, t, c) => paint_text(b, stride, x as int, y as int, t, c),
    }
}

/// The canvas after the steps, in order.
pub open spec fn apply_ops(b: Seq<u32>, stride: nat, height: nat, ops: Seq<OpView>) -> Seq<u32>
    decreases ops.len(),
{
    if ops.len() == 0 {
        b
    } else {
        apply_op(apply_ops(b, stride, height, ops.drop_last()), stride, height, ops.last())
    }
}

/// Carries out the drawing steps in order.
pub fn draw(buf: &mut Vec<u32>, stride: usize, height: usize, ops: &Vec<DrawOp>)
    requires
        0 < stride <= MAX_COORD,
        height <= MAX_COORD,
        ops_ok(op_views(ops@)),
    ensures
        final(buf)@ == apply_ops(old(buf)@, stride as nat, height as nat, op_views(ops@)),
{
    let ghost b0 = buf@;
    let ghost v = op_views(ops@);
    let mut i: usize = 0;
    assert(v.take(0) =~= Seq::<OpView>::empty());
    while i < ops.len()
        invariant
            0 < stride <= MAX_COORD,
            height <= MAX_COORD,
            v == op_views(ops@),
            ops_ok(v),
            i <= ops@.len(),
            buf@ == apply_ops(b0, stride as nat, height as nat, v.take(i as int)),
        decreases ops@.len() - i,
    {
        assert(v.take(i + 1).drop_last() =~= v.take(i as int));
        assert(v.take(i + 1).last() == op_view(ops@[i as int]));
        assert(op_ok(v[i as int]));
        match &ops[i] {
            DrawOp::Background(a, c) => background(buf, stride, *a, *c),
            DrawOp::Fill(x, y, w, h, c) => fill_rect(buf, stride, height, *x, *y, *w, *h, *c),
            DrawOp::Text(x, y, t, c) => put_str(buf, stride, *x, *y, t.as_slice(), *c),
        }
        i = i + 1;
    }
    assert(v.take(ops@.len() as int) =~= v);
}

} // verus!
