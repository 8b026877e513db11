use vstd::prelude::*;
use crate::text::string_from;

verus! {

/// Signals a process can be sent.
#[derive(Debug, Clone, Copy, PartialEq, Eq, Structural)]
pub enum Signal {
    Term,
    Int,
    User1,
}

pub open spec fn signal_named(name: Seq<char>) -> Option<Signal> {
    if name == "term"@ || name == "TERM"@ || name == "sigterm"@ {
        Some(Signal::Term)
    } else if name == "int"@ || name == "INT"@ || name == "sigint"@ {
        Some(Signal::Int)
    } else if name == "usr1"@ || name == "USR1"@ || name == "user1"@ {
        Some(Signal::User1)
    } else {
        None
    }
}

pub open spec fn signal_text(s: Signal) -> Seq<char> {
    match s {
        Signal::Term => "TERM"@,
        Signal::Int => "INT"@,
        Signal::User1 => "USR1"@,
    }
}

impl Signal {
    /// The signal a shell name stands for.
    pub fn parse(name: &str) -> (r: Option<Signal>)
        ensures
            r == signal_named(name@),
    {
        let c = crate::text::chars_of(name);
        let s = c.as_slice();
        if crate::text::is(s, "term") || crate::text::is(s, "TERM") || crate::text::is(s, "sigterm") {
            Some(Signal::Term)
        } else if crate::text::is(s, "int") || crate::text::is(s, "INT") || crate::text::is(
            s,
            "sigint",
        ) {
            Some(Signal::Int)
        } else if crate::text::is(s, "usr1") || crate::text::is(s, "USR1") || crate::text::is(
            s,
            "user1",
        ) {
            Some(Signal::User1)
        } else {
            None
        }
    }

    pub fn label(self) -> (r: &'static str)
        ensures
            r@ == signal_text(self),
    {
        match self {
            Signal::Term => "TERM",
            Signal::Int => "INT",
            Signal::User1 => "USR1",
        }
    }
}

/// How exited children are reaped.
pub fn zombie_policy_lines() -> (r: Vec<String>)
    ensures
        r@.len() == 3,
        r@[0]@ == "policy: exited children remain zombies until waitpid/reap"@,
        r@[1]@ == "shell reap command may reap all exited tasks"@,
        r@[2]@ == "future: service supervisor will reap owned service children"@,
{
    let mut v: Vec<String> = Vec::new();
    v.push(string_from("policy: exited children remain zombies until waitpid/reap"));
    v.push(string_from("shell reap command may reap all exited tasks"));
    v.push(string_from("future: service supervisor will reap owned service children"));
    v
}

} // verus!
