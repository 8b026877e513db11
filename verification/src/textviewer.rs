//! The text viewer: a document of lines shown a window-full at a time,
//! scrolled with `j` and `k` or the mouse wheel.
use vstd::prelude::*;
use crate::text::{dec, lines_of, push_str, push_u64, string_from, views};

verus! {

/// Height of one text line in pixels.
pub const LINE_H: usize = 12;
/// Width of one character in pixels.
pub const CHAR_W: usize = 8;

/// A document and the part of it in view.
pub struct TextView {
    pub lines: Vec<String>,
    pub scroll: usize,
    pub rows: usize,
}

pub open spec fn line_views(v: Seq<String>) -> Seq<Seq<char>> {
    v.map_values(|s: String| s@)
}

/// The built-in "About" document.
pub open spec fn about_text() -> Seq<Seq<char>> {
    seq![
        " coolOS v1.16"@,
        " Bare-metal OS in Rust"@,
        ""@,
        " == Phases =="@,
        " 1. Pixel framebuffer"@,
        " 2. PS/2 mouse driver"@,
        " 3. Window manager"@,
        " 4. Desktop shell"@,
        " 5. Applications"@,
        " 6. High-res framebuffer"@,
        " 7-13. Scheduler, userspace, VMM, FS, ELF, IPC"@,
        " 16. Desktop shell in progress"@,
        ""@,
        " == Commands =="@,
        " help    - list commands"@,
        " echo    - print text"@,
        " info    - CPU + heap"@,
        " touch   - create file"@,
        " mkdir   - create folder"@,
        " uptime  - tick count"@,
        " clear   - clear term"@,
        " reboot  - restart OS"@,
        ""@,
        " == Controls =="@,
        " j / k   scroll dn/up"@,
        " Drag title bar: move"@,
        " x button: close win"@,
        " Right-click: new app"@,
        " File Manager: browse FAT32 + create files/folders"@,
        ""@,
        " github.com/codenz92"@,
        "   /cool-os"@
    ]
}

/// The lines of the "About" document.
pub fn about_lines() -> (r: Vec<String>)
    ensures
        line_views(r@) == about_text(),
{
    let mut v: Vec<String> = Vec::new();
    v.push(string_from(" coolOS v1.16"));
    v.push(string_from(" Bare-metal OS in Rust"));
    v.push(string_from(""));
    v.push(string_from(" == Phases =="));
    v.push(string_from(" 1. Pixel framebuffer"));
    v.push(string_from(" 2. PS/2 mouse driver"));
    v.push(string_from(" 3. Window manager"));
    v.push(string_from(" 4. Desktop shell"));
    v.push(string_from(" 5. Applications"));
    v.push(string_from(" 6. High-res framebuffer"));
    v.push(string_from(" 7-13. Scheduler, userspace, VMM, FS, ELF, IPC"));
    v.push(string_from(" 16. Desktop shell in progress"));
    v.push(string_from(""));
    v.push(string_from(" == Commands =="));
    v.push(string_from(" help    - list commands"));
    v.push(string_from(" echo    - print text"));
    v.push(string_from(" info    - CPU + heap"));
    v.push(string_from(" touch   - create file"));
    v.push(string_from(" mkdir   - create folder"));
    v.push(string_from(" uptime  - tick count"));
    v.push(string_from(" clear   - clear term"));
    v.push(string_from(" reboot  - restart OS"));
    v.push(string_from(""));
    v.push(string_from(" == Controls =="));
    v.push(string_from(" j / k   scroll dn/up"));
    v.push(string_from(" Drag title bar: move"));
    v.push(string_from(" x button: close win"));
    v.push(string_from(" Right-click: new app"));
    v.push(string_from(" File Manager: browse FAT32 + create files/folders"));
    v.push(string_from(""));
    v.push(string_from(" github.com/codenz92"));
    v.push(string_from("   /cool-os"));
    assert(line_views(v@) =~= about_text());
    v
}

/// The lines a text file is shown as: its lines, or a placeholder when it
/// is empty.
pub open spec fn document_of(text: Seq<char>) -> Seq<Seq<char>> {
    if text.len() == 0 {
        seq!["(empty file)"@]
    } else {
        lines_of(text)
    }
}

/// The document for a file's text.
pub fn document(text: &str) -> (r: Vec<String>)
    ensures
        line_views(r@) == document_of(text@),
{
    let cs = crate::text::chars_of(text);
    let mut out: Vec<String> = Vec::new();
    if cs.len() == 0 {
        out.push(string_from("(empty file)"));
        assert(line_views(out@) =~= document_of(text@));
        return out;
    }
    let ls = crate::text::lines(cs.as_slice());
    let mut i: usize = 0;
    while i < ls.len()
        invariant
            i <= ls@.len(),
            views(ls@) == lines_of(cs@),
            line_views(out@) == views(ls@).take(i as int),
        decreases ls@.len() - i,
    {
        let ghost o = line_views(out@);
        out.push(crate::text::string_of(ls[i].as_slice()));
        assert(line_views(out@) =~= o.push(ls@[i as int]@));
        i = i + 1;
        assert(line_views(out@) =~= views(ls@).take(i as int));
    }
    assert(views(ls@).take(ls@.len() as int) =~= views(ls@));
    out
}

/// A new view of `lines`, at the top.
pub fn new_view(lines: Vec<String>) -> (r: TextView)
    ensures
        r.lines@ == lines@,
        r.scroll == 0,
        r.rows == 0,
{
    TextView { lines, scroll: 0, rows: 0 }
}

/// `j` scrolls down a line while there is more below, `k` up a line while
/// not at the top; any other key changes nothing. Says whether the view
/// moved.
pub fn handle_key(v: &mut TextView, c: char) -> (r: bool)
    ensures
        final(v).lines@ == old(v).lines@,
        final(v).rows == old(v).rows,
        r == (final(v).scroll != old(v).scroll),
        final(v).scroll == if (c == 'j' || c == 'J') && old(v).scroll + old(v).rows < old(
            v,
        ).lines@.len() {
            old(v).scroll + 1
        } else if (c == 'k' || c == 'K') && old(v).scroll > 0 {
            old(v).scroll - 1
        } else {
            old(v).scroll as int
        },
{
    if c == 'j' || c == 'J' {
        if v.scroll < v.lines.len() && v.rows < v.lines.len() - v.scroll {
            v.scroll = v.scroll + 1;
            return true;
        }
        false
    } else if c == 'k' || c == 'K' {
        if v.scroll > 0 {
            v.scroll = v.scroll - 1;
            return true;
        }
        false
    } else {
        false
    }
}

/// The furthest the view can scroll: the last rows of the document in
/// view.
pub open spec fn max_scroll(len: int, rows: int) -> int {
    if len > rows {
        len - rows
    } else {
        0
    }
}

/// The wheel moves the view three lines per notch in the wheel's direction,
/// kept between the top and [`max_scroll`].
pub open spec fn wheel_scroll(scroll: int, delta: int, max: int) -> int {
    let step = if delta > 0 {
        3int
    } else if delta < 0 {
        -3int
    } else {
        0int
    };
    let t = scroll + step;
    if t < 0 {
        0
    } else if t > max {
        max
    } else {
        t
    }
}

/// Scrolls by a wheel movement; says whether the view moved.
pub fn handle_scroll(v: &mut TextView, delta: i32) -> (r: bool)
    requires
        old(v).scroll <= i32::MAX - 3,
        old(v).lines@.len() <= i32::MAX,
    ensures
        final(v).lines@ == old(v).lines@,
        final(v).rows == old(v).rows,
        final(v).scroll == wheel_scroll(
            old(v).scroll as int,
            delta as int,
            max_scroll(old(v).lines@.len() as int, old(v).rows as int),
        ),
        r == (final(v).scroll != old(v).scroll),
{
    let max: usize = if v.lines.len() > v.rows {
        v.lines.len() - v.rows
    } else {
        0
    };
    let step: i64 = if delta > 0 {
        3
    } else if delta < 0 {
        -3
    } else {
        0
    };
    let t: i64 = v.scroll as i64 + step;
    let new: usize = if t < 0 {
        0
    } else if t as usize > max {
        max
    } else {
        t as usize
    };
    if new != v.scroll {
        v.scroll = new;
        true
    } else {
        false
    }
}

/// Text rows that fit in a content area `content_h` pixels high, below the
/// header and above the footer.
pub open spec fn rows_for(content_h: usize) -> int {
    let text_h = if content_h >= 70 {
        content_h - 70
    } else {
        0
    };
    text_h / 12
}

/// Fits the view to a content area `content_h` pixels high.
pub fn fit(v: &mut TextView, content_h: usize)
    ensures
        final(v).lines@ == old(v).lines@,
        final(v).scroll == old(v).scroll,
        final(v).rows == rows_for(content_h),
{
    let text_h = if content_h >= 70 {
        content_h - 70
    } else {
        0
    };
    v.rows = text_h / LINE_H;
}

/// The lines in view, top first.
pub open spec fn in_view(lines: Seq<Seq<char>>, scroll: int, rows: int) -> Seq<Seq<char>> {
    if scroll >= lines.len() {
        Seq::empty()
    } else if scroll + rows < lines.len() {
        lines.subrange(scroll, scroll + rows)
    } else {
        lines.subrange(scroll, lines.len() as int)
    }
}

/// Copies of the lines in view.
pub fn visible(v: &TextView) -> (r: Vec<String>)
    ensures
        line_views(r@) == in_view(line_views(v.lines@), v.scroll as int, v.rows as int),
{
    let n = v.lines.len();
    let mut out: Vec<String> = Vec::new();
    if v.scroll >= n {
        assert(line_views(out@) =~= in_view(line_views(v.lines@), v.scroll as int, v.rows as int));
        return out;
    }
    let end: usize = if v.rows < n - v.scroll {
        v.scroll + v.rows
    } else {
        n
    };
    let ghost lv = line_views(v.lines@);
    let mut i: usize = v.scroll;
    while i < end
        invariant
            v.scroll <= i <= end,
            end <= n,
            n == v.lines@.len(),
            lv == line_views(v.lines@),
            line_views(out@) == lv.subrange(v.scroll as int, i as int),
        decreases end - i,
    {
        let ghost o = line_views(out@);
        out.push(v.lines[i].clone());
        assert(line_views(out@) =~= o.push(lv[i as int]));
        i = i + 1;
        assert(line_views(out@) =~= lv.subrange(v.scroll as int, i as int));
    }
    out
}

/// `j/k scroll   line N/M`: the first line in view and the line count.
pub open spec fn footer_text(scroll: usize, len: usize) -> Seq<char> {
    "j/k scroll   line "@ + dec(scroll as nat + 1) + "/"@ + dec(if len > 0 {
        len as nat
    } else {
        1
    })
}

pub fn footer(v: &TextView) -> (r: String)
    requires
        v.scroll < u64::MAX,
    ensures
        r@ == footer_text(v.scroll, v.lines@.len() as usize),
{
    let mut s = string_from("j/k scroll   line ");
    push_u64(&mut s, v.scroll as u64 + 1);
    push_str(&mut s, "/");
    let n = v.lines.len();
    push_u64(&mut s, if n > 0 {
        n as u64
    } else {
        1
    });
    s
}

/// How far through the document the bottom of the view is, in percent.
pub open spec fn progress_of(scroll: int, rows: int, len: int) -> int {
    if len == 0 {
        0
    } else {
        let bottom = if scroll + rows < len {
            scroll + rows
        } else {
            len
        };
        bottom * 100 / len
    }
}

pub fn progress(v: &TextView) -> (r: usize)
    requires
        v.lines@.len() * 100 <= usize::MAX,
    ensures
        r == progress_of(v.scroll as int, v.rows as int, v.lines@.len() as int),
{
    let n = v.lines.len();
    if n == 0 {
        return 0;
    }
    let bottom = if v.scroll < n && v.rows < n - v.scroll {
        v.scroll + v.rows
    } else {
        n
    };
    assert(bottom * 100 <= n * 100) by (nonlinear_arith)
        requires
            bottom <= n,
    ;
    bottom * 100 / n
}

} // verus!
