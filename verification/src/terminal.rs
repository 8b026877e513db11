//! The shell's command line: splitting a line into words, resolving paths
//! against the working directory, and telling which command was asked for.
use vstd::prelude::*;
use crate::text::{
    chars_of, dec, is, is_whitespace, is_ws, lemma_split_on_nonempty, pad_left, parse_nat,
    parse_u64_chars, push_chars, push_str, push_u64, split_chars, split_on, string_from, trim,
    trim_chars, views,
};

verus! {

// ── Paths ───────────────────────────────────────────────────────────────────

/// The directories left after walking `parts` from the root: empty parts
/// and `.` stay put, `..` goes up (never above the root).
pub open spec fn walk_parts(parts: Seq<Seq<char>>) -> Seq<Seq<char>>
    decreases parts.len(),
{
    if parts.len() == 0 {
        Seq::empty()
    } else {
        let st = walk_parts(parts.drop_last());
        let p = parts.last();
        if p.len() == 0 || p == "."@ {
            st
        } else if p == ".."@ {
            if st.len() > 0 {
                st.drop_last()
            } else {
                st
            }
        } else {
            st.push(p)
        }
    }
}

/// The components joined by `/`.
pub open spec fn join_slash(parts: Seq<Seq<char>>) -> Seq<char>
    decreases parts.len(),
{
    if parts.len() == 0 {
        Seq::empty()
    } else if parts.len() == 1 {
        parts[0]
    } else {
        join_slash(parts.drop_last()) + "/"@ + parts.last()
    }
}

/// A path with `.`, `..` and repeated slashes worked out: `/` then the
/// remaining components.
pub open spec fn normalized(path: Seq<char>) -> Seq<char> {
    "/"@ + join_slash(walk_parts(split_on(path, '/')))
}

/// `input` taken from the directory `cwd`, normalized.
pub open spec fn resolved(cwd: Seq<char>, input: Seq<char>) -> Seq<char> {
    if input.len() > 0 && input[0] == '/' {
        normalized(input)
    } else if cwd.len() > 0 && cwd.last() == '/' {
        normalized(cwd + input)
    } else {
        normalized(cwd + "/"@ + input)
    }
}

fn join_parts(parts: &Vec<Vec<char>>) -> (r: Vec<char>)
    ensures
        r@ == "/"@ + join_slash(views(parts@)),
{
    let mut out: Vec<char> = Vec::new();
    out.push('/');
    let mut i: usize = 0;
    proof {
        reveal_strlit("/");
        assert(views(parts@).take(0) =~= Seq::<Seq<char>>::empty());
        assert(out@ =~= "/"@ + join_slash(views(parts@).take(0)));
    }
    while i < parts.len()
        invariant
            i <= parts@.len(),
            out@ == "/"@ + join_slash(views(parts@).take(i as int)),
        decreases parts@.len() - i,
    {
        let ghost v = views(parts@);
        assert(v.take(i + 1).drop_last() =~= v.take(i as int));
        assert(v.take(i + 1).last() == parts@[i as int]@);
        if i > 0 {
            out.push('/');
        }
        let ghost before = out@;
        let mut k: usize = 0;
        while k < parts[i].len()
            invariant
                i < parts@.len(),
                k <= parts@[i as int]@.len(),
                out@ == before + parts@[i as int]@.take(k as int),
            decreases parts@[i as int]@.len() - k,
        {
            out.push(parts[i][k]);
            k = k + 1;
            assert(out@ =~= before + parts@[i as int]@.take(k as int));
        }
        assert(parts@[i as int]@.take(k as int) =~= parts@[i as int]@);
        i = i + 1;
        proof {
            reveal_strlit("/");
            if i == 1 {
                assert(v.take(1) =~= seq![v[0]]);
                assert(out@ =~= "/"@ + join_slash(v.take(i as int)));
            } else {
                assert(out@ =~= "/"@ + join_slash(v.take(i as int)));
            }
        }
    }
    assert(views(parts@).take(parts@.len() as int) =~= views(parts@));
    out
}

/// Works out `.`, `..` and repeated slashes in a path.
pub fn normalize_path(path: &[char]) -> (r: Vec<char>)
    ensures
        r@ == normalized(path@),
{
    let pieces = split_chars(path, '/');
    let mut stack: Vec<Vec<char>> = Vec::new();
    let mut i: usize = 0;
    proof {
        assert(views(pieces@).take(0) =~= Seq::<Seq<char>>::empty());
        assert(views(stack@) =~= walk_parts(views(pieces@).take(0)));
    }
    while i < pieces.len()
        invariant
            i <= pieces@.len(),
            views(stack@) == walk_parts(views(pieces@).take(i as int)),
        decreases pieces@.len() - i,
    {
        let ghost v = views(pieces@);
        assert(v.take(i + 1).drop_last() =~= v.take(i as int));
        assert(v.take(i + 1).last() == pieces@[i as int]@);
        let ghost before = views(stack@);
        let p = &pieces[i];
        if p.len() == 0 || is(p.as_slice(), ".") {
        } else if is(p.as_slice(), "..") {
            if stack.len() > 0 {
                stack.pop();
                assert(views(stack@) =~= before.drop_last());
            }
        } else {
            stack.push(p.clone());
            assert(views(stack@) =~= before.push(p@));
        }
        i = i + 1;
    }
    assert(views(pieces@).take(pieces@.len() as int) =~= views(pieces@));
    join_parts(&stack)
}

/// The path `input` names when typed in the directory `cwd`.
pub fn resolve_path(cwd: &str, input: &str) -> (r: Vec<char>)
    ensures
        r@ == resolved(cwd@, input@),
{
    let inp = chars_of(input);
    if inp.len() > 0 && inp[0] == '/' {
        return normalize_path(inp.as_slice());
    }
    let mut base = chars_of(cwd);
    let ends = base.len() > 0 && base[base.len() - 1] == '/';
    if !ends {
        base.push('/');
    }
    let ghost b = base@;
    let mut k: usize = 0;
    while k < inp.len()
        invariant
            k <= inp@.len(),
            base@ == b + inp@.take(k as int),
        decreases inp@.len() - k,
    {
        base.push(inp[k]);
        k = k + 1;
        assert(base@ =~= b + inp@.take(k as int));
    }
    assert(inp@.take(k as int) =~= inp@);
    proof {
        reveal_strlit("/");
        if !ends {
            assert(b =~= cwd@ + "/"@);
        }
    }
    normalize_path(base.as_slice())
}

// ── Words ───────────────────────────────────────────────────────────────────

/// The pieces of `s` between whitespace characters, empty ones included.
pub open spec fn ws_pieces(s: Seq<char>) -> Seq<Seq<char>>
    decreases s.len(),
{
    if s.len() == 0 {
        seq![Seq::empty()]
    } else {
        let pre = ws_pieces(s.drop_last());
        if is_ws(s.last()) {
            pre.push(Seq::empty())
        } else {
            pre.update(pre.len() - 1, pre.last().push(s.last()))
        }
    }
}

/// The non-empty pieces, in order.
pub open spec fn nonempty(ps: Seq<Seq<char>>) -> Seq<Seq<char>>
    decreases ps.len(),
{
    if ps.len() == 0 {
        Seq::empty()
    } else if ps.last().len() > 0 {
        nonempty(ps.drop_last()).push(ps.last())
    } else {
        nonempty(ps.drop_last())
    }
}

/// `str::split_whitespace`.
pub open spec fn words_of(s: Seq<char>) -> Seq<Seq<char>> {
    nonempty(ws_pieces(s))
}

proof fn lemma_ws_pieces_nonempty(s: Seq<char>)
    ensures
        ws_pieces(s).len() >= 1,
    decreases s.len(),
{
    if s.len() > 0 {
        lemma_ws_pieces_nonempty(s.drop_last());
    }
}

/// The words of a line, split at whitespace.
pub fn split_words(s: &[char]) -> (r: Vec<Vec<char>>)
    ensures
        views(r@) == words_of(s@),
{
    let mut words: Vec<Vec<char>> = Vec::new();
    let mut cur: Vec<char> = Vec::new();
    let mut i: usize = 0;
    proof {
        assert(s@.take(0) =~= Seq::<char>::empty());
        assert(views(words@) =~= nonempty(ws_pieces(s@.take(0)).drop_last()));
    }
    while i < s.len()
        invariant
            i <= s@.len(),
            ws_pieces(s@.take(i as int)).len() >= 1,
            ws_pieces(s@.take(i as int)).last() == cur@,
            views(words@) == nonempty(ws_pieces(s@.take(i as int)).drop_last()),
        decreases s@.len() - i,
    {
        let ghost pre = ws_pieces(s@.take(i as int));
        assert(s@.take(i + 1).drop_last() =~= s@.take(i as int));
        assert(s@.take(i + 1).last() == s@[i as int]);
        let c = s[i];
        if is_whitespace(c) {
            let ghost wv = views(words@);
            if cur.len() > 0 {
                words.push(cur);
                assert(views(words@) =~= wv.push(pre.last()));
            }
            cur = Vec::new();
            proof {
                let now = ws_pieces(s@.take(i + 1));
                assert(now == pre.push(Seq::empty()));
                assert(now.drop_last() =~= pre);
                assert(pre.drop_last() =~= pre.take(pre.len() - 1));
                assert(views(words@) =~= nonempty(pre));
            }
        } else {
            cur.push(c);
            proof {
                let now = ws_pieces(s@.take(i + 1));
                assert(now.drop_last() =~= pre.drop_last());
            }
        }
        i = i + 1;
    }
    assert(s@.take(s@.len() as int) =~= s@);
    let ghost wv = views(words@);
    if cur.len() > 0 {
        words.push(cur);
        assert(views(words@) =~= wv.push(ws_pieces(s@).last()));
    }
    proof {
        let ps = ws_pieces(s@);
        assert(ps.drop_last() =~= ps.take(ps.len() - 1));
    }
    words
}


// ── Commands ────────────────────────────────────────────────────────────────

/// What a command line asks for. Paths are already resolved against the
/// working directory.
pub enum Command {
    /// A blank line.
    Empty,
    /// `echo`: the words to print.
    Echo(Vec<Vec<char>>),
    /// `cd`: the directory to change to.
    Cd(Vec<char>),
    /// `ls`: the directory to list.
    Ls(Vec<char>),
    /// `touch`: the file to create.
    Touch(Vec<char>),
    /// `mkdir`: the directory to create.
    Mkdir(Vec<char>),
    /// `cat`: the file to print.
    Cat(Vec<char>),
    /// `kill`: the process to end.
    Kill(usize),
    /// `wait`: the process to wait for.
    Wait(usize),
    /// `clip`: the text to copy, or the clipboard's summary when empty.
    Clip(Vec<char>),
    /// `search`: the query, or the index summary when empty.
    Search(Vec<char>),
    /// `exec`: the program and its arguments.
    Exec(Vec<char>, Vec<Vec<char>>),
    /// A command missing its argument: the usage line to print.
    Usage(Vec<char>),
    /// Another built-in command, with its arguments.
    Other(Vec<char>, Vec<Vec<char>>),
    /// A name that is no command.
    Unknown(Vec<char>),
}

/// A command, with its text as character sequences.
pub enum CommandView {
    Empty,
    Echo(Seq<Seq<char>>),
    Cd(Seq<char>),
    Ls(Seq<char>),
    Touch(Seq<char>),
    Mkdir(Seq<char>),
    Cat(Seq<char>),
    Kill(usize),
    Wait(usize),
    Clip(Seq<char>),
    Search(Seq<char>),
    Exec(Seq<char>, Seq<Seq<char>>),
    Usage(Seq<char>),
    Other(Seq<char>, Seq<Seq<char>>),
    Unknown(Seq<char>),
}

pub open spec fn command_view(c: Command) -> CommandView {
    match c {
        Command::Empty => CommandView::Empty,
        Command::Echo(w) => CommandView::Echo(views(w@)),
        Command::Cd(p) => CommandView::Cd(p@),
        Command::Ls(p) => CommandView::Ls(p@),
        Command::Touch(p) => CommandView::Touch(p@),
        Command::Mkdir(p) => CommandView::Mkdir(p@),
        Command::Cat(p) => CommandView::Cat(p@),
        Command::Kill(n) => CommandView::Kill(n),
        Command::Wait(n) => CommandView::Wait(n),
        Command::Clip(t) => CommandView::Clip(t@),
        Command::Search(t) => CommandView::Search(t@),
        Command::Exec(p, a) => CommandView::Exec(p@, views(a@)),
        Command::Usage(m) => CommandView::Usage(m@),
        Command::Other(n, a) => CommandView::Other(n@, views(a@)),
        Command::Unknown(n) => CommandView::Unknown(n@),
    }
}

/// The built-in commands whose work lies outside the command line itself.
pub open spec fn known(name: Seq<char>) -> bool {
    name == "help"@ || name == "clear"@ || name == "reboot"@ || name == "pwd"@ || name == "ps"@ || name == "reap"@ || name == "info"@ || name == "uptime"@ || name == "devices"@ || name == "net"@ || name == "netproto"@ || name == "http"@ || name == "power"@ || name == "log"@ || name == "fsck"@ || name == "fsrepair"@ || name == "mounts"@ || name == "journal"@ || name == "df"@ || name == "shortcuts"@ || name == "access"@ || name == "apps"@ || name == "pinned"@ || name == "recent"@ || name == "startup"@ || name == "index"@ || name == "drivers"@ || name == "users"@ || name == "security"@ || name == "pkg"@ || name == "proc"@ || name == "zombies"@ || name == "signal"@ || name == "pgroup"@ || name == "events"@ || name == "services"@ || name == "crash"@ || name == "notify"@ || name == "paste"@ || name == "ipc"@ || name == "keydemo"@ || name == "term"@ || name == "usb"@
}

fn is_known(name: &[char]) -> (r: bool)
    ensures
        r == known(name@),
{
    is(name, "help") || is(name, "clear") || is(name, "reboot") || is(name, "pwd") || is(name, "ps") || is(name, "reap") || is(name, "info") || is(name, "uptime") || is(name, "devices") || is(name, "net") || is(name, "netproto") || is(name, "http") || is(name, "power") || is(name, "log") || is(name, "fsck") || is(name, "fsrepair") || is(name, "mounts") || is(name, "journal") || is(name, "df") || is(name, "shortcuts") || is(name, "access") || is(name, "apps") || is(name, "pinned") || is(name, "recent") || is(name, "startup") || is(name, "index") || is(name, "drivers") || is(name, "users") || is(name, "security") || is(name, "pkg") || is(name, "proc") || is(name, "zombies") || is(name, "signal") || is(name, "pgroup") || is(name, "events") || is(name, "services") || is(name, "crash") || is(name, "notify") || is(name, "paste") || is(name, "ipc") || is(name, "keydemo") || is(name, "term") || is(name, "usb")
}

/// The words joined by single spaces.
pub open spec fn join_space(ws: Seq<Seq<char>>) -> Seq<char>
    decreases ws.len(),
{
    if ws.len() == 0 {
        Seq::empty()
    } else if ws.len() == 1 {
        ws[0]
    } else {
        join_space(ws.drop_last()) + " "@ + ws.last()
    }
}

/// A decimal process id.
pub open spec fn pid_of(w: Seq<char>) -> Option<usize> {
    match parse_nat(w) {
        Some(n) => if n <= usize::MAX {
            Some(n as usize)
        } else {
            None
        },
        None => None,
    }
}

/// A command taking a path, or its usage line when the path is missing.
pub open spec fn path_command(
    name: Seq<char>,
    args: Seq<Seq<char>>,
    cwd: Seq<char>,
    make: spec_fn(Seq<char>) -> CommandView,
) -> CommandView {
    if args.len() > 0 {
        make(resolved(cwd, args[0]))
    } else {
        CommandView::Usage("usage: "@ + name + " <path>\n"@)
    }
}

/// A command taking a process id, or its usage line when it is missing or
/// not a number.
pub open spec fn pid_command(name: Seq<char>, args: Seq<Seq<char>>, make: spec_fn(usize) -> CommandView) -> CommandView {
    if args.len() > 0 && pid_of(args[0]) is Some {
        make(pid_of(args[0])->0)
    } else {
        CommandView::Usage("usage: "@ + name + " <pid>\n"@)
    }
}

/// What the words of a command line ask for, typed in the directory `cwd`.
pub open spec fn command_of(words: Seq<Seq<char>>, cwd: Seq<char>) -> CommandView {
    if words.len() == 0 {
        CommandView::Empty
    } else {
        let name = words[0];
        let args = words.skip(1);
        if name == "echo"@ {
            CommandView::Echo(args)
        } else if name == "cd"@ {
            CommandView::Cd(if args.len() > 0 { resolved(cwd, args[0]) } else { "/"@ })
        } else if name == "ls"@ {
            CommandView::Ls(if args.len() > 0 { resolved(cwd, args[0]) } else { cwd })
        } else if name == "touch"@ {
            path_command(name, args, cwd, |p: Seq<char>| CommandView::Touch(p))
        } else if name == "mkdir"@ {
            path_command(name, args, cwd, |p: Seq<char>| CommandView::Mkdir(p))
        } else if name == "cat"@ {
            path_command(name, args, cwd, |p: Seq<char>| CommandView::Cat(p))
        } else if name == "kill"@ {
            pid_command(name, args, |n: usize| CommandView::Kill(n))
        } else if name == "wait"@ {
            pid_command(name, args, |n: usize| CommandView::Wait(n))
        } else if name == "clip"@ {
            CommandView::Clip(join_space(args))
        } else if name == "search"@ {
            CommandView::Search(join_space(args))
        } else if name == "exec"@ {
            if args.len() > 0 {
                CommandView::Exec(resolved(cwd, args[0]), args.skip(1))
            } else {
                CommandView::Usage("usage: exec <path> [args...]\n"@)
            }
        } else if known(name) {
            CommandView::Other(name, args)
        } else {
            CommandView::Unknown(name)
        }
    }
}

proof fn lemma_differ(a: Seq<char>, b: Seq<char>)
    requires
        a.len() != b.len() || (a.len() > 0 && b.len() > 0 && a[0] != b[0]),
    ensures
        a != b,
{
}

/// Command names that differ from the ones checked before them.
proof fn lemma_names_differ()
    ensures
        "mkdir"@ != "echo"@ && "mkdir"@ != "cd"@ && "mkdir"@ != "ls"@ && "mkdir"@ != "touch"@,
        "touch"@ != "echo"@ && "touch"@ != "cd"@ && "touch"@ != "ls"@,
        "cat"@ != "echo"@ && "cat"@ != "cd"@ && "cat"@ != "ls"@ && "cat"@ != "touch"@ && "cat"@
            != "mkdir"@,
        "cd"@ != "echo"@,
        "ls"@ != "echo"@ && "ls"@ != "cd"@,
        "kill"@ != "echo"@ && "kill"@ != "cd"@ && "kill"@ != "ls"@ && "kill"@ != "touch"@ && "kill"@
            != "mkdir"@ && "kill"@ != "cat"@,
        "wait"@ != "echo"@ && "wait"@ != "cd"@ && "wait"@ != "ls"@ && "wait"@ != "touch"@ && "wait"@
            != "mkdir"@ && "wait"@ != "cat"@ && "wait"@ != "kill"@,
{
    reveal_strlit("echo");
    reveal_strlit("cd");
    reveal_strlit("ls");
    reveal_strlit("touch");
    reveal_strlit("mkdir");
    reveal_strlit("cat");
    reveal_strlit("kill");
    reveal_strlit("wait");
    assert("mkdir"@.len() == 5);
    assert("echo"@.len() == 4);
    lemma_differ("mkdir"@, "echo"@);
    lemma_differ("mkdir"@, "cd"@);
    lemma_differ("mkdir"@, "ls"@);
    lemma_differ("mkdir"@, "touch"@);
    lemma_differ("touch"@, "echo"@);
    lemma_differ("touch"@, "cd"@);
    lemma_differ("touch"@, "ls"@);
    lemma_differ("cat"@, "echo"@);
    lemma_differ("cat"@, "cd"@);
    lemma_differ("cat"@, "ls"@);
    lemma_differ("cat"@, "touch"@);
    lemma_differ("cat"@, "mkdir"@);
    lemma_differ("cd"@, "echo"@);
    lemma_differ("ls"@, "echo"@);
    lemma_differ("ls"@, "cd"@);
    lemma_differ("kill"@, "echo"@);
    lemma_differ("kill"@, "cd"@);
    lemma_differ("kill"@, "ls"@);
    lemma_differ("kill"@, "touch"@);
    lemma_differ("kill"@, "mkdir"@);
    lemma_differ("kill"@, "cat"@);
    lemma_differ("wait"@, "echo"@);
    lemma_differ("wait"@, "cd"@);
    lemma_differ("wait"@, "ls"@);
    lemma_differ("wait"@, "touch"@);
    lemma_differ("wait"@, "mkdir"@);
    lemma_differ("wait"@, "cat"@);
    lemma_differ("wait"@, "kill"@);
}

/// Each file command does what its name says: `touch`, `mkdir` and `cat`
/// followed by a path ask to create a file, create a directory and print a
/// file at that path taken from the working directory; `cd` and `ls` change
/// to and list it; without the path the three file commands answer with
/// their usage line.
pub proof fn lemma_path_commands(words: Seq<Seq<char>>, cwd: Seq<char>)
    requires
        words.len() >= 1,
    ensures
        words.len() >= 2 && words[0] == "touch"@ ==> command_of(words, cwd) == CommandView::Touch(
            resolved(cwd, words[1]),
        ),
        words.len() >= 2 && words[0] == "mkdir"@ ==> command_of(words, cwd) == CommandView::Mkdir(
            resolved(cwd, words[1]),
        ),
        words.len() >= 2 && words[0] == "cat"@ ==> command_of(words, cwd) == CommandView::Cat(
            resolved(cwd, words[1]),
        ),
        words.len() >= 2 && words[0] == "cd"@ ==> command_of(words, cwd) == CommandView::Cd(
            resolved(cwd, words[1]),
        ),
        words.len() >= 2 && words[0] == "ls"@ ==> command_of(words, cwd) == CommandView::Ls(
            resolved(cwd, words[1]),
        ),
        words.len() == 1 && words[0] == "cd"@ ==> command_of(words, cwd) == CommandView::Cd("/"@),
        words.len() == 1 && words[0] == "ls"@ ==> command_of(words, cwd) == CommandView::Ls(cwd),
        words.len() == 1 && words[0] == "touch"@ ==> command_of(words, cwd) == CommandView::Usage(
            "usage: touch <path>\n"@,
        ),
        words.len() == 1 && words[0] == "mkdir"@ ==> command_of(words, cwd) == CommandView::Usage(
            "usage: mkdir <path>\n"@,
        ),
        words.len() == 1 && words[0] == "cat"@ ==> command_of(words, cwd) == CommandView::Usage(
            "usage: cat <path>\n"@,
        ),
{
    reveal_strlit("echo");
    reveal_strlit("cd");
    reveal_strlit("ls");
    reveal_strlit("touch");
    reveal_strlit("mkdir");
    reveal_strlit("cat");
    reveal_strlit("usage: ");
    reveal_strlit(" <path>\n");
    reveal_strlit("usage: touch <path>\n");
    reveal_strlit("usage: mkdir <path>\n");
    reveal_strlit("usage: cat <path>\n");
    lemma_names_differ();
    if words.len() >= 2 {
        assert(words.skip(1)[0] == words[1]);
    }
    if words.len() == 1 {
        assert(words.skip(1).len() == 0);
        if words[0] == "touch"@ {
            assert("usage: "@ + words[0] + " <path>\n"@ =~= "usage: touch <path>\n"@);
        }
        if words[0] == "mkdir"@ {
            assert("usage: "@ + words[0] + " <path>\n"@ =~= "usage: mkdir <path>\n"@);
        }
        if words[0] == "cat"@ {
            assert("usage: "@ + words[0] + " <path>\n"@ =~= "usage: cat <path>\n"@);
        }
    }
}

/// `echo` prints the rest of the line's words; `kill` and `wait` take the
/// process whose decimal id follows them.
pub proof fn lemma_echo_and_pid_commands(words: Seq<Seq<char>>, cwd: Seq<char>)
    requires
        words.len() >= 1,
    ensures
        words[0] == "echo"@ ==> command_of(words, cwd) == CommandView::Echo(words.skip(1)),
        words.len() >= 2 && words[0] == "kill"@ && pid_of(words[1]) is Some ==> command_of(words, cwd)
            == CommandView::Kill(pid_of(words[1])->0),
        words.len() >= 2 && words[0] == "wait"@ && pid_of(words[1]) is Some ==> command_of(words, cwd)
            == CommandView::Wait(pid_of(words[1])->0),
{
    reveal_strlit("echo");
    reveal_strlit("cd");
    reveal_strlit("ls");
    reveal_strlit("touch");
    reveal_strlit("mkdir");
    reveal_strlit("cat");
    reveal_strlit("kill");
    reveal_strlit("wait");
    lemma_names_differ();
    if words.len() >= 2 {
        assert(words.skip(1)[0] == words[1]);
    }
}

/// A resolved path is absolute, and an absolute input does not depend on
/// the working directory.
pub proof fn lemma_resolved_absolute(c1: Seq<char>, c2: Seq<char>, input: Seq<char>)
    ensures
        resolved(c1, input).len() >= 1 && resolved(c1, input)[0] == '/',
        input.len() > 0 && input[0] == '/' ==> resolved(c1, input) == resolved(c2, input),
{
    reveal_strlit("/");
}

fn copy_words(ws: &Vec<Vec<char>>, from: usize) -> (r: Vec<Vec<char>>)
    requires
        from <= ws@.len(),
    ensures
        views(r@) == views(ws@).skip(from as int),
{
    let mut out: Vec<Vec<char>> = Vec::new();
    let mut i: usize = from;
    while i < ws.len()
        invariant
            from <= i <= ws@.len(),
            views(out@) == views(ws@).subrange(from as int, i as int),
        decreases ws@.len() - i,
    {
        let ghost o = views(out@);
        out.push(ws[i].clone());
        assert(views(out@) =~= o.push(ws@[i as int]@));
        i = i + 1;
        assert(views(out@) =~= views(ws@).subrange(from as int, i as int));
    }
    assert(views(ws@).subrange(from as int, ws@.len() as int) =~= views(ws@).skip(from as int));
    out
}

fn join_words(ws: &Vec<Vec<char>>, from: usize) -> (r: Vec<char>)
    requires
        from <= ws@.len(),
    ensures
        r@ == join_space(views(ws@).skip(from as int)),
{
    let ghost v = views(ws@).skip(from as int);
    let mut out: Vec<char> = Vec::new();
    let mut i: usize = from;
    proof {
        reveal_strlit(" ");
        assert(v.take(0) =~= Seq::<Seq<char>>::empty());
    }
    while i < ws.len()
        invariant
            from <= i <= ws@.len(),
            v == views(ws@).skip(from as int),
            out@ == join_space(v.take(i - from)),
        decreases ws@.len() - i,
    {
        let j: usize = i - from;
        assert(v.take(j + 1).drop_last() =~= v.take(j as int));
        assert(v.take(j + 1).last() == ws@[i as int]@);
        if i > from {
            out.push(' ');
        }
        let ghost before = out@;
        let mut k: usize = 0;
        while k < ws[i].len()
            invariant
                i < ws@.len(),
                k <= ws@[i as int]@.len(),
                out@ == before + ws@[i as int]@.take(k as int),
            decreases ws@[i as int]@.len() - k,
        {
            out.push(ws[i][k]);
            k = k + 1;
            assert(out@ =~= before + ws@[i as int]@.take(k as int));
        }
        assert(ws@[i as int]@.take(k as int) =~= ws@[i as int]@);
        i = i + 1;
        proof {
            reveal_strlit(" ");
            if j == 0 {
                assert(v.take(1) =~= seq![v[0]]);
            }
            assert(out@ =~= join_space(v.take(i - from)));
        }
    }
    assert(v.take(ws@.len() - from) =~= v);
    out
}

/// A decimal process id; `None` for anything else or a value too large.
pub fn parse_usize(w: &[char]) -> (r: Option<usize>)
    ensures
        r == pid_of(w@),
{
    match parse_u64_chars(w) {
        Some(v) => {
            if v <= usize::MAX as u64 {
                Some(v as usize)
            } else {
                None
            }
        },
        None => None,
    }
}

fn usage(name: &[char], what: &str) -> (r: Vec<char>)
    ensures
        r@ == "usage: "@ + name@ + " "@ + what@ + "\n"@,
{
    let mut s = string_from("usage: ");
    push_chars(&mut s, name);
    push_str(&mut s, " ");
    push_str(&mut s, what);
    push_str(&mut s, "\n");
    crate::text::string_chars(&s)
}

/// Reads a command line typed in the directory `cwd`.
pub fn parse_command(line: &str, cwd: &str) -> (r: Command)
    ensures
        command_view(r) == command_of(words_of(line@), cwd@),
{
    let cs = chars_of(line);
    let words = split_words(cs.as_slice());
    if words.len() == 0 {
        return Command::Empty;
    }
    let ghost wv = views(words@);
    let name = &words[0];
    let n = name.as_slice();
    assert(wv[0] == name@);
    proof {
        assert(wv.skip(1).len() == wv.len() - 1);
        if wv.len() > 1 {
            assert(wv.skip(1)[0] == wv[1]);
            assert(wv[1] == words@[1]@);
        }
        if wv.len() >= 2 {
            assert(wv.skip(2) =~= wv.skip(1).skip(1));
        }
        reveal_strlit(" ");
        reveal_strlit("usage: ");
        reveal_strlit(" <path>\n");
        reveal_strlit(" <pid>\n");
        reveal_strlit("<path>");
        reveal_strlit("<pid>");
        reveal_strlit("\n");
    }
    if is(n, "echo") {
        Command::Echo(copy_words(&words, 1))
    } else if is(n, "cd") {
        if words.len() > 1 {
            Command::Cd(resolve_path(cwd, crate::text::string_of(words[1].as_slice()).as_str()))
        } else {
            Command::Cd(chars_of("/"))
        }
    } else if is(n, "ls") {
        if words.len() > 1 {
            Command::Ls(resolve_path(cwd, crate::text::string_of(words[1].as_slice()).as_str()))
        } else {
            Command::Ls(chars_of(cwd))
        }
    } else if is(n, "touch") || is(n, "mkdir") || is(n, "cat") {
        if words.len() > 1 {
            let p = resolve_path(cwd, crate::text::string_of(words[1].as_slice()).as_str());
            if is(n, "touch") {
                Command::Touch(p)
            } else if is(n, "mkdir") {
                Command::Mkdir(p)
            } else {
                Command::Cat(p)
            }
        } else {
            let m = usage(n, "<path>");
            assert(m@ =~= "usage: "@ + n@ + " <path>\n"@);
            Command::Usage(m)
        }
    } else if is(n, "kill") || is(n, "wait") {
        let pid = if words.len() > 1 {
            parse_usize(words[1].as_slice())
        } else {
            None
        };
        match pid {
            Some(p) => if is(n, "kill") {
                Command::Kill(p)
            } else {
                Command::Wait(p)
            },
            None => {
                let m = usage(n, "<pid>");
                assert(m@ =~= "usage: "@ + n@ + " <pid>\n"@);
                Command::Usage(m)
            },
        }
    } else if is(n, "clip") {
        Command::Clip(join_words(&words, 1))
    } else if is(n, "search") {
        Command::Search(join_words(&words, 1))
    } else if is(n, "exec") {
        if words.len() > 1 {
            let p = resolve_path(cwd, crate::text::string_of(words[1].as_slice()).as_str());
            Command::Exec(p, copy_words(&words, 2))
        } else {
            Command::Usage(chars_of("usage: exec <path> [args...]\n"))
        }
    } else if is_known(n) {
        Command::Other(name.clone(), copy_words(&words, 1))
    } else {
        Command::Unknown(name.clone())
    }
}


// ── Output ──────────────────────────────────────────────────────────────────

/// What `echo` prints: each word followed by a space, then a line break.
pub open spec fn echo_out(ws: Seq<Seq<char>>) -> Seq<char>
    decreases ws.len(),
{
    if ws.len() == 0 {
        seq!['\n']
    } else {
        echo_out(ws.drop_last()).drop_last() + ws.last() + seq![' ', '\n']
    }
}

proof fn lemma_echo_out_ends(ws: Seq<Seq<char>>)
    ensures
        echo_out(ws).len() >= 1,
    decreases ws.len(),
{
    if ws.len() > 0 {
        lemma_echo_out_ends(ws.drop_last());
    }
}

/// The text `echo` prints for its words.
pub fn echo_text(ws: &Vec<Vec<char>>) -> (r: String)
    ensures
        r@ == echo_out(views(ws@)),
{
    let ghost v = views(ws@);
    let mut s = String::new();
    let mut i: usize = 0;
    proof {
        assert(v.take(0) =~= Seq::<Seq<char>>::empty());
        assert(s@ + seq!['\n'] =~= echo_out(v.take(0)));
    }
    while i < ws.len()
        invariant
            i <= ws@.len(),
            v == views(ws@),
            s@ + seq!['\n'] == echo_out(v.take(i as int)),
        decreases ws@.len() - i,
    {
        let ghost before = s@;
        assert(v.take(i + 1).drop_last() =~= v.take(i as int));
        assert(v.take(i + 1).last() == ws@[i as int]@);
        push_chars(&mut s, ws[i].as_slice());
        crate::text::push_char(&mut s, ' ');
        i = i + 1;
        proof {
            lemma_echo_out_ends(v.take(i - 1));
            assert((before + seq!['\n']).drop_last() =~= before);
            assert(s@ + seq!['\n'] =~= echo_out(v.take(i as int)));
        }
    }
    assert(v.take(ws@.len() as int) =~= v);
    crate::text::push_char(&mut s, '\n');
    s
}

/// Two digits, with a leading zero below ten.
pub open spec fn two_digits(n: nat) -> Seq<char> {
    if n < 10 {
        "0"@ + dec(n)
    } else {
        dec(n)
    }
}

/// What `uptime` prints after `ticks` timer ticks: hours, minutes and
/// seconds, then the raw tick count.
pub open spec fn uptime_out(ticks: u64) -> Seq<char> {
    let secs = ticks as nat / 288;
    "Up: "@ + dec(secs / 3600) + ":"@ + two_digits((secs / 60) % 60) + ":"@ + two_digits(secs % 60)
        + "  ("@ + dec(ticks as nat) + " ticks)\n"@
}

fn push_two_digits(s: &mut String, n: u64)
    ensures
        final(s)@ == old(s)@ + two_digits(n as nat),
{
    if n < 10 {
        push_str(s, "0");
    }
    push_u64(s, n);
}

/// The text `uptime` prints.
pub fn uptime_text(ticks: u64) -> (r: String)
    ensures
        r@ == uptime_out(ticks),
{
    let secs = ticks / 288;
    let mins = secs / 60;
    let hours = mins / 60;
    assert(hours as nat == (ticks as nat / 288) / 3600) by (nonlinear_arith)
        requires
            secs == ticks / 288,
            mins == secs / 60,
            hours == mins / 60,
    ;
    let mut s = string_from("Up: ");
    push_u64(&mut s, hours);
    push_str(&mut s, ":");
    push_two_digits(&mut s, mins % 60);
    push_str(&mut s, ":");
    push_two_digits(&mut s, secs % 60);
    push_str(&mut s, "  (");
    push_u64(&mut s, ticks);
    push_str(&mut s, " ticks)\n");
    s
}

/// What the shell prints for a name that is no command.
pub fn not_found_text(name: &[char]) -> (r: String)
    ensures
        r@ == name@ + ": not found. type help\n"@,
{
    let mut s = String::new();
    push_chars(&mut s, name);
    push_str(&mut s, ": not found. type help\n");
    s
}


// ── Help and info ───────────────────────────────────────────────────────────

/// How many commands `help` lists.
pub const HELP_COUNT: usize = 53;

/// The `i`-th command `help` lists, with its description.
pub open spec fn help_entry(i: usize) -> (Seq<char>, Seq<char>) {
    match i {
        0 => ("help"@, "list commands"@),
        1 => ("clear"@, "clear terminal"@),
        2 => ("reboot"@, "restart OS"@),
        3 => ("pwd"@, "print working directory"@),
        4 => ("cd <dir>"@, "change directory"@),
        5 => ("ls [path]"@, "list directory contents"@),
        6 => ("touch <path>"@, "create empty file"@),
        7 => ("mkdir <path>"@, "create folder"@),
        8 => ("cat <path>"@, "print file to terminal"@),
        9 => ("ps"@, "list running processes"@),
        10 => ("kill <pid>"@, "terminate a task"@),
        11 => ("wait <pid>"@, "reap an exited child"@),
        12 => ("reap"@, "reap all exited tasks"@),
        13 => ("exec <path>"@, "run ELF binary"@),
        14 => ("info"@, "CPU, memory, and system info"@),
        15 => ("uptime"@, "time since boot"@),
        16 => ("usb"@, "USB controller status"@),
        17 => ("devices"@, "PCI/USB/device registry"@),
        18 => ("drivers"@, "driver binding + /DEV nodes"@),
        19 => ("net"@, "network stack status"@),
        20 => ("netproto"@, "ARP/IP/UDP/DNS/HTTP status"@),
        21 => ("http <host> [path]"@, "build basic HTTP request"@),
        22 => ("power <op>"@, "ACPI power status"@),
        23 => ("log"@, "kernel log tail"@),
        24 => ("fsck"@, "filesystem check summary"@),
        25 => ("fsrepair"@, "repair standard FS dirs"@),
        26 => ("mounts"@, "mount/cache/journal status"@),
        27 => ("journal"@, "filesystem journal tail"@),
        28 => ("df"@, "filesystem free space"@),
        29 => ("shortcuts"@, "configured shortcut keys"@),
        30 => ("access [key on/off]"@, "accessibility settings"@),
        31 => ("apps"@, "app lifecycle metadata"@),
        32 => ("pinned [apps...]"@, "view/set pinned apps"@),
        33 => ("recent"@, "recent files and commands"@),
        34 => ("startup [apps...]"@, "view/set startup apps"@),
        35 => ("search <query>"@, "search indexed files"@),
        36 => ("index"@, "rebuild desktop search index"@),
        37 => ("users"@, "user/security status"@),
        38 => ("pkg <op>"@, "package list/install/remove"@),
        39 => ("proc"@, "process groups and signals"@),
        40 => ("zombies"@, "zombie cleanup policy"@),
        41 => ("signal <pid> <sig>"@, "queue signal to task"@),
        42 => ("pgroup <pid> <grp>"@, "set process group"@),
        43 => ("events"@, "event bus tail"@),
        44 => ("services <op>"@, "service supervisor"@),
        45 => ("crash"@, "crash dump summary"@),
        46 => ("notify <op>"@, "notification history/actions"@),
        47 => ("clip [text]"@, "shared clipboard"@),
        48 => ("paste"@, "paste shared clipboard text"@),
        49 => ("echo <text>"@, "print text"@),
        50 => ("ipc"@, "pipe demo"@),
        51 => ("keydemo"@, "keyboard event stream"@),
        52 => ("term"@, "userspace terminal"@),
        _ => (Seq::empty(), Seq::empty()),
    }
}

fn help_entry_text(i: usize) -> (r: (&'static str, &'static str))
    requires
        i < HELP_COUNT,
    ensures
        r.0@ == help_entry(i).0,
        r.1@ == help_entry(i).1,
{
    match i {
        0 => ("help", "list commands"),
        1 => ("clear", "clear terminal"),
        2 => ("reboot", "restart OS"),
        3 => ("pwd", "print working directory"),
        4 => ("cd <dir>", "change directory"),
        5 => ("ls [path]", "list directory contents"),
        6 => ("touch <path>", "create empty file"),
        7 => ("mkdir <path>", "create folder"),
        8 => ("cat <path>", "print file to terminal"),
        9 => ("ps", "list running processes"),
        10 => ("kill <pid>", "terminate a task"),
        11 => ("wait <pid>", "reap an exited child"),
        12 => ("reap", "reap all exited tasks"),
        13 => ("exec <path>", "run ELF binary"),
        14 => ("info", "CPU, memory, and system info"),
        15 => ("uptime", "time since boot"),
        16 => ("usb", "USB controller status"),
        17 => ("devices", "PCI/USB/device registry"),
        18 => ("drivers", "driver binding + /DEV nodes"),
        19 => ("net", "network stack status"),
        20 => ("netproto", "ARP/IP/UDP/DNS/HTTP status"),
        21 => ("http <host> [path]", "build basic HTTP request"),
        22 => ("power <op>", "ACPI power status"),
        23 => ("log", "kernel log tail"),
        24 => ("fsck", "filesystem check summary"),
        25 => ("fsrepair", "repair standard FS dirs"),
        26 => ("mounts", "mount/cache/journal status"),
        27 => ("journal", "filesystem journal tail"),
        28 => ("df", "filesystem free space"),
        29 => ("shortcuts", "configured shortcut keys"),
        30 => ("access [key on/off]", "accessibility settings"),
        31 => ("apps", "app lifecycle metadata"),
        32 => ("pinned [apps...]", "view/set pinned apps"),
        33 => ("recent", "recent files and commands"),
        34 => ("startup [apps...]", "view/set startup apps"),
        35 => ("search <query>", "search indexed files"),
        36 => ("index", "rebuild desktop search index"),
        37 => ("users", "user/security status"),
        38 => ("pkg <op>", "package list/install/remove"),
        39 => ("proc", "process groups and signals"),
        40 => ("zombies", "zombie cleanup policy"),
        41 => ("signal <pid> <sig>", "queue signal to task"),
        42 => ("pgroup <pid> <grp>", "set process group"),
        43 => ("events", "event bus tail"),
        44 => ("services <op>", "service supervisor"),
        45 => ("crash", "crash dump summary"),
        46 => ("notify <op>", "notification history/actions"),
        47 => ("clip [text]", "shared clipboard"),
        48 => ("paste", "paste shared clipboard text"),
        49 => ("echo <text>", "print text"),
        50 => ("ipc", "pipe demo"),
        51 => ("keydemo", "keyboard event stream"),
        52 => ("term", "userspace terminal"),
        _ => ("", ""),
    }
}

/// `n` spaces.
pub open spec fn spaces(n: int) -> Seq<char> {
    Seq::new(if n > 0 { n as nat } else { 0 }, |i: int| ' ')
}

/// One line of `help`: the command indented by two, padded to column 20,
/// then its description.
pub open spec fn help_line(name: Seq<char>, desc: Seq<char>) -> Seq<char> {
    "  "@ + name + spaces(18 - name.len()) + desc + "\n"@
}

/// The first `n` lines of `help`.
pub open spec fn help_lines(n: usize) -> Seq<char>
    decreases n,
{
    if n == 0 {
        Seq::empty()
    } else {
        help_lines((n - 1) as usize) + help_line(help_entry((n - 1) as usize).0, help_entry((n - 1) as usize).1)
    }
}

/// What `help` prints.
pub open spec fn help_out() -> Seq<char> {
    "Commands:\n"@ + help_lines(HELP_COUNT)
}

pub fn help_text() -> (r: String)
    ensures
        r@ == help_out(),
{
    let mut s = string_from("Commands:\n");
    let mut i: usize = 0;
    while i < HELP_COUNT
        invariant
            i <= HELP_COUNT,
            s@ == "Commands:\n"@ + help_lines(i),
        decreases HELP_COUNT - i,
    {
        let ghost before = s@;
        let (name, desc) = help_entry_text(i);
        push_str(&mut s, "  ");
        push_str(&mut s, name);
        let n = name.unicode_len();
        let pad: usize = if n < 18 {
            18 - n
        } else {
            0
        };
        let ghost mid = s@;
        let mut k: usize = 0;
        while k < pad
            invariant
                k <= pad,
                s@ == mid + spaces(k as int),
            decreases pad - k,
        {
            crate::text::push_char(&mut s, ' ');
            k = k + 1;
            assert(s@ =~= mid + spaces(k as int));
        }
        assert(spaces(k as int) =~= spaces(18 - name@.len()));
        push_str(&mut s, desc);
        push_str(&mut s, "\n");
        i = i + 1;
        assert(s@ =~= "Commands:\n"@ + help_lines(i));
    }
    s
}

/// A size in bytes as `info` shows it: whole megabytes, kilobytes or
/// bytes.
pub open spec fn size_text(bytes: usize) -> Seq<char> {
    if bytes >= 1048576 {
        dec((bytes / 1048576) as nat) + " MB"@
    } else if bytes >= 1024 {
        dec((bytes / 1024) as nat) + " KB"@
    } else {
        dec(bytes as nat) + " B"@
    }
}

fn push_size(s: &mut String, bytes: usize)
    ensures
        final(s)@ == old(s)@ + size_text(bytes),
{
    if bytes >= 1048576 {
        push_u64(s, (bytes / 1048576) as u64);
        push_str(s, " MB");
    } else if bytes >= 1024 {
        push_u64(s, (bytes / 1024) as u64);
        push_str(s, " KB");
    } else {
        push_u64(s, bytes as u64);
        push_str(s, " B");
    }
}

/// What `info` prints: heap use, task count, the CPU's vendor and brand
/// when it reports them, and the working directory.
pub open spec fn info_out(
    heap_used: usize,
    heap_total: usize,
    tasks: u64,
    vendor: Option<Seq<char>>,
    brand: Option<Seq<char>>,
    cwd: Seq<char>,
) -> Seq<char> {
    "Heap  : "@ + size_text(heap_used) + " / "@ + size_text(heap_total) + "\n"@ + "Tasks : "@ + dec(
        tasks as nat,
    ) + "\n"@ + match vendor {
        Some(v) => "CPU   : "@ + v + "\n"@,
        None => Seq::empty(),
    } + match brand {
        Some(b) => "Brand : "@ + trim(b) + "\n"@,
        None => Seq::empty(),
    } + "CWD   : "@ + cwd + "\n"@
}

pub fn info_text(
    heap_used: usize,
    heap_total: usize,
    tasks: u64,
    vendor: Option<&str>,
    brand: Option<&str>,
    cwd: &str,
) -> (r: String)
    ensures
        r@ == info_out(
            heap_used,
            heap_total,
            tasks,
            match vendor {
                Some(v) => Some(v@),
                None => None,
            },
            match brand {
                Some(b) => Some(b@),
                None => None,
            },
            cwd@,
        ),
{
    let mut s = string_from("Heap  : ");
    push_size(&mut s, heap_used);
    push_str(&mut s, " / ");
    push_size(&mut s, heap_total);
    push_str(&mut s, "\n");
    push_str(&mut s, "Tasks : ");
    push_u64(&mut s, tasks);
    push_str(&mut s, "\n");
    match vendor {
        Some(v) => {
            push_str(&mut s, "CPU   : ");
            push_str(&mut s, v);
            push_str(&mut s, "\n");
        },
        None => {},
    }
    match brand {
        Some(b) => {
            push_str(&mut s, "Brand : ");
            let t = trim_chars(chars_of(b).as_slice());
            push_chars(&mut s, t.as_slice());
            push_str(&mut s, "\n");
        },
        None => {},
    }
    push_str(&mut s, "CWD   : ");
    push_str(&mut s, cwd);
    push_str(&mut s, "\n");
    assert(s@ =~= info_out(
        heap_used,
        heap_total,
        tasks,
        match vendor {
            Some(v) => Some(v@),
            None => None,
        },
        match brand {
            Some(b) => Some(b@),
            None => None,
        },
        cwd@,
    ));
    s
}

} // verus!
