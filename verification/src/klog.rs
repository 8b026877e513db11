use vstd::prelude::*;
use crate::bounded::{bounded_push, push_bounded};
use crate::fat32::{create_check, replaced, Disk, FsError};
use crate::text::{dec, push_str, push_u64};

verus! {

/// How many lines the kernel log keeps.
pub const MAX_LINES: usize = 96;

/// The kernel log: its most recent lines, oldest first.
pub struct KernelLog {
    pub lines: Vec<String>,
}

pub open spec fn line_views(v: Seq<String>) -> Seq<Seq<char>> {
    v.map_values(|s: String| s@)
}

/// A log line: the tick, two spaces, the message.
pub open spec fn log_line(tick: u64, message: Seq<char>) -> Seq<char> {
    dec(tick as nat) + "  "@ + message
}

impl KernelLog {
    pub fn new() -> (r: KernelLog)
        ensures
            r.lines@.len() == 0,
    {
        KernelLog { lines: Vec::new() }
    }
}

/// Appends `message` stamped with `tick`, keeping at most [`MAX_LINES`].
pub fn log(klog: &mut KernelLog, tick: u64, message: &str)
    ensures
        line_views(final(klog).lines@) == bounded_push(
            line_views(old(klog).lines@),
            log_line(tick, message@),
            MAX_LINES as nat,
        ),
{
    let mut line = String::new();
    push_u64(&mut line, tick);
    push_str(&mut line, "  ");
    push_str(&mut line, message);
    assert(line@ =~= log_line(tick, message@));
    let ghost before = klog.lines@;
    push_bounded(&mut klog.lines, line, MAX_LINES);
    assert(line_views(before.push(line)) =~= line_views(before).push(line@));
    assert(line_views(before.push(line).drop_first()) =~= line_views(before).push(
        line@,
    ).drop_first());
}

pub fn log_owned(klog: &mut KernelLog, tick: u64, message: String)
    ensures
        line_views(final(klog).lines@) == bounded_push(
            line_views(old(klog).lines@),
            log_line(tick, message@),
            MAX_LINES as nat,
        ),
{
    log(klog, tick, message.as_str());
}

/// Logs `key: value`.
pub fn log_kv(klog: &mut KernelLog, tick: u64, key: &str, value: &str)
    ensures
        line_views(final(klog).lines@) == bounded_push(
            line_views(old(klog).lines@),
            log_line(tick, key@ + ": "@ + value@),
            MAX_LINES as nat,
        ),
{
    let mut m = String::new();
    push_str(&mut m, key);
    push_str(&mut m, ": ");
    push_str(&mut m, value);
    assert(m@ =~= key@ + ": "@ + value@);
    log(klog, tick, m.as_str());
}

/// Copies of the log lines, oldest first.
pub fn lines(klog: &KernelLog) -> (r: Vec<String>)
    ensures
        line_views(r@) == line_views(klog.lines@),
{
    let mut out: Vec<String> = Vec::new();
    let mut i: usize = 0;
    while i < klog.lines.len()
        invariant
            i <= klog.lines@.len(),
            line_views(out@) == line_views(klog.lines@).take(i as int),
        decreases klog.lines@.len() - i,
    {
        let ghost o = out@;
        let s = klog.lines[i].clone();
        out.push(s);
        assert(line_views(out@) =~= line_views(o).push(s@));
        i = i + 1;
        assert(line_views(out@) =~= line_views(klog.lines@).take(i as int));
    }
    assert(line_views(klog.lines@).take(klog.lines@.len() as int) =~= line_views(klog.lines@));
    out
}

/// Every line followed by a newline.
pub open spec fn joined(v: Seq<Seq<char>>) -> Seq<char>
    decreases v.len(),
{
    if v.len() == 0 {
        Seq::empty()
    } else {
        joined(v.drop_last()) + v.last() + seq!['\n']
    }
}

/// The text the log file holds.
pub fn log_text(klog: &KernelLog) -> (r: String)
    ensures
        r@ == joined(line_views(klog.lines@)),
{
    let ghost v = line_views(klog.lines@);
    let mut out = String::new();
    let mut i: usize = 0;
    while i < klog.lines.len()
        invariant
            v == line_views(klog.lines@),
            i <= klog.lines@.len(),
            out@ == joined(v.take(i as int)),
        decreases klog.lines@.len() - i,
    {
        assert(v.take(i + 1).drop_last() =~= v.take(i as int));
        push_str(&mut out, klog.lines[i].as_str());
        crate::text::push_char(&mut out, '\n');
        i = i + 1;
    }
    assert(v.take(i as int) =~= v);
    out
}

/// Writes the log to `/LOGS/KERNEL.TXT`, creating the directory and file
/// when needed; nothing is written when persisting is switched off.
pub fn flush_to_disk(klog: &KernelLog, disk: &mut Disk, persist: bool) -> (r: Result<(), FsError>)
    ensures
        !persist ==> r is Ok && final(disk)@ == old(disk)@,
        persist && r is Ok ==> exists|d2: Seq<u8>|
            #[trigger] replaced(
                d2,
                "/LOGS/KERNEL.TXT"@,
                vstd::utf8::encode_utf8(joined(line_views(klog.lines@))),
                final(disk)@,
            ),
        persist && create_check(old(disk)@, "/LOGS"@) is Err ==> match create_check(
            old(disk)@,
            "/LOGS/KERNEL.TXT"@,
        ) {
            Err(e) => e != FsError::AlreadyExists ==> r == Err::<(), FsError>(e) && final(disk)@
                == old(disk)@,
            Ok(()) => true,
        },
        final(disk)@.len() == old(disk)@.len(),
{
    if !persist {
        return Ok(());
    }
    let _ = crate::fat32::create_dir(disk, "/LOGS");
    match crate::fat32::create_file(disk, "/LOGS/KERNEL.TXT") {
        Ok(()) => {},
        Err(FsError::AlreadyExists) => {},
        Err(e) => {
            return Err(e);
        },
    }
    let text = log_text(klog);
    let chars = crate::text::string_chars(&text);
    let bytes = crate::fat32::utf8_bytes(chars.as_slice());
    if bytes.len() > 0xFFFF_FFFF {
        return Err(FsError::NoSpace);
    }
    crate::fat32::safe_write_file(disk, "/LOGS/KERNEL.TXT", bytes.as_slice())
}

/// Starts the log with its first line and writes it out.
pub fn init(klog: &mut KernelLog, disk: &mut Disk, tick: u64, persist: bool)
    ensures
        line_views(final(klog).lines@) == bounded_push(
            line_views(old(klog).lines@),
            log_line(tick, "kernel log initialized"@),
            MAX_LINES as nat,
        ),
        !persist ==> final(disk)@ == old(disk)@,
        final(disk)@.len() == old(disk)@.len(),
{
    log(klog, tick, "kernel log initialized");
    let _ = flush_to_disk(klog, disk, persist);
}

} // verus!
