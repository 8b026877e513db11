use vstd::prelude::*;
use crate::text::{dec, push_str, push_u64, string_from};

verus! {

/// What the clipboard holds.
pub enum ClipboardPayload {
    Text(String),
    Paths { paths: Vec<String>, cut: bool },
}

pub struct ClipboardState {
    pub tick: u64,
    pub payload: ClipboardPayload,
}

pub open spec fn strings(v: Seq<String>) -> Seq<Seq<char>> {
    v.map_values(|s: String| s@)
}

/// Tick, then either the text or the paths and the cut flag.
pub open spec fn clip_view(s: ClipboardState) -> (u64, Option<Seq<char>>, Seq<Seq<char>>, bool) {
    match s.payload {
        ClipboardPayload::Text(t) => (s.tick, Some(t@), Seq::empty(), false),
        ClipboardPayload::Paths { paths, cut } => (s.tick, None, strings(paths@), cut),
    }
}

/// The shared clipboard.
pub struct Clipboard {
    pub state: Option<ClipboardState>,
}

impl Clipboard {
    pub fn new() -> (r: Clipboard)
        ensures
            r.state is None,
    {
        Clipboard { state: None }
    }
}

/// Puts text on the clipboard.
pub fn set_text(cb: &mut Clipboard, tick: u64, text: &str)
    ensures
        final(cb).state matches Some(s) && clip_view(s) == (tick, Some(text@), Seq::<Seq<char>>::empty(), false),
{
    cb.state = Some(ClipboardState { tick, payload: ClipboardPayload::Text(string_from(text)) });
}

/// Puts file paths on the clipboard, to be moved when `cut` is set.
pub fn set_paths(cb: &mut Clipboard, tick: u64, paths: Vec<String>, cut: bool)
    ensures
        final(cb).state matches Some(s) && clip_view(s) == (tick, None::<Seq<char>>, strings(paths@), cut),
{
    cb.state = Some(ClipboardState { tick, payload: ClipboardPayload::Paths { paths, cut } });
}

fn copy_strings(v: &Vec<String>) -> (r: Vec<String>)
    ensures
        strings(r@) == strings(v@),
{
    let mut out: Vec<String> = Vec::new();
    let mut i: usize = 0;
    while i < v.len()
        invariant
            i <= v@.len(),
            strings(out@) == strings(v@).take(i as int),
        decreases v@.len() - i,
    {
        let ghost o = out@;
        let s = v[i].clone();
        out.push(s);
        assert(strings(out@) =~= strings(o).push(s@));
        i = i + 1;
        assert(strings(out@) =~= strings(v@).take(i as int));
    }
    assert(strings(v@).take(v@.len() as int) =~= strings(v@));
    out
}

/// A copy of the clipboard's contents.
pub fn get(cb: &Clipboard) -> (r: Option<ClipboardState>)
    ensures
        match cb.state {
            None => r is None,
            Some(s) => r matches Some(t) && clip_view(t) == clip_view(s),
        },
{
    match &cb.state {
        None => None,
        Some(s) => {
            let payload = match &s.payload {
                ClipboardPayload::Text(t) => ClipboardPayload::Text(t.clone()),
                ClipboardPayload::Paths { paths, cut } => ClipboardPayload::Paths {
                    paths: copy_strings(paths),
                    cut: *cut,
                },
            };
            Some(ClipboardState { tick: s.tick, payload })
        },
    }
}

/// The clipboard's text, when it holds text.
pub fn get_text(cb: &Clipboard) -> (r: Option<String>)
    ensures
        match cb.state {
            Some(s) => match clip_view(s).1 {
                Some(t) => r matches Some(x) && x@ == t,
                None => r is None,
            },
            None => r is None,
        },
{
    match &cb.state {
        Some(s) => match &s.payload {
            ClipboardPayload::Text(t) => Some(t.clone()),
            _ => None,
        },
        None => None,
    }
}

/// The clipboard's paths and cut flag, when it holds paths.
pub fn get_paths(cb: &Clipboard) -> (r: Option<(Vec<String>, bool)>)
    ensures
        match cb.state {
            Some(s) => match clip_view(s).1 {
                None => r matches Some(p) && strings(p.0@) == clip_view(s).2 && p.1 == clip_view(
                    s,
                ).3,
                Some(_) => r is None,
            },
            None => r is None,
        },
{
    match &cb.state {
        Some(s) => match &s.payload {
            ClipboardPayload::Paths { paths, cut } => Some((copy_strings(paths), *cut)),
            _ => None,
        },
        None => None,
    }
}

/// A one-line description of the clipboard's contents.
pub open spec fn summary_text(state: Option<ClipboardState>) -> Seq<char> {
    match state {
        None => "empty"@,
        Some(s) => match s.payload {
            ClipboardPayload::Text(t) => "text "@ + dec(
                (vstd::utf8::encode_utf8(t@).len() as usize) as nat,
            ) + " bytes"@,
            ClipboardPayload::Paths { paths, cut } => dec(paths@.len()) + if cut {
                " cut path(s)"@
            } else {
                " copied path(s)"@
            },
        },
    }
}

pub fn summary(cb: &Clipboard) -> (r: String)
    ensures
        r@ == summary_text(cb.state),
{
    match &cb.state {
        None => string_from("empty"),
        Some(s) => match &s.payload {
            ClipboardPayload::Text(t) => {
                let ts = t.as_str();
                let n = ts.len();
                assert(ts@ == t@);
                assert(n == vstd::utf8::encode_utf8(t@).len() as usize);
                let mut out = string_from("text ");
                push_u64(&mut out, n as u64);
                push_str(&mut out, " bytes");
                assert(out@ =~= summary_text(cb.state));
                out
            },
            ClipboardPayload::Paths { paths, cut } => {
                let mut out = String::new();
                push_u64(&mut out, paths.len() as u64);
                if *cut {
                    push_str(&mut out, " cut path(s)");
                } else {
                    push_str(&mut out, " copied path(s)");
                }
                assert(out@ =~= summary_text(cb.state));
                out
            },
        },
    }
}

} // verus!
