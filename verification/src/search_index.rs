use vstd::prelude::*;
use vstd::string::StringSliceAdditionalSpecFns;
use vstd::utf8::encode_utf8;
use crate::fat32::{file_contents, read_file, string_from_utf8, Disk};
use crate::text::{chars_of, is, push_char, push_str, string_chars, string_from, to_upper, upper_seq};

verus! {

/// One indexed file, folder or app.
pub struct SearchEntry {
    pub path: String,
    pub name: String,
    pub kind: String,
    pub snippet: String,
}

/// An ASCII byte folded to lower case; other bytes unchanged.
pub open spec fn fold(b: u8) -> u8 {
    if 65 <= b && b <= 90 {
        (b + 32) as u8
    } else {
        b
    }
}

fn fold_byte(b: u8) -> (r: u8)
    ensures
        r == fold(b),
{
    if b >= 65 && b <= 90 {
        b + 32
    } else {
        b
    }
}

/// The first position at or after `pos` whose byte equals `c`, ignoring
/// ASCII case.
pub open spec fn first_match(hay: Seq<u8>, c: u8, pos: int) -> Option<int>
    decreases hay.len() - pos,
{
    if pos < 0 || pos >= hay.len() {
        None
    } else if fold(hay[pos]) == fold(c) {
        Some(pos)
    } else {
        first_match(hay, c, pos + 1)
    }
}

/// Score of matching `needle[j..]` in order against `hay[pos..]`: each
/// byte found right where the previous one left off earns 8, one found
/// further on earns 3; `None` when some byte is not found.
pub open spec fn walk(hay: Seq<u8>, needle: Seq<u8>, j: int, pos: int) -> Option<int>
    decreases needle.len() - j,
{
    if j < 0 || j >= needle.len() {
        Some(0)
    } else {
        match first_match(hay, needle[j], pos) {
            None => None,
            Some(idx) => match walk(hay, needle, j + 1, idx + 1) {
                None => None,
                Some(s) => Some(s + if idx == pos { 8int } else { 3int }),
            },
        }
    }
}

/// `needle` occurs in `hay` at `start`, ignoring ASCII case.
pub open spec fn occurs_at(hay: Seq<u8>, needle: Seq<u8>, start: int) -> bool {
    0 <= start && start + needle.len() <= hay.len() && forall|i: int|
        0 <= i < needle.len() ==> #[trigger] fold(hay[start + i]) == fold(needle[i])
}

/// `needle` occurs somewhere in `hay`, ignoring ASCII case.
pub open spec fn contains_ic(hay: Seq<u8>, needle: Seq<u8>) -> bool {
    needle.len() == 0 || exists|start: int| occurs_at(hay, needle, start)
}

/// The fuzzy score of `needle` against `hay`: 1 for an empty needle, else
/// the in-order match score plus 20 when the needle occurs as a whole.
pub open spec fn fuzzy(hay: Seq<u8>, needle: Seq<u8>) -> Option<int> {
    if needle.len() == 0 {
        Some(1)
    } else {
        match walk(hay, needle, 0, 0) {
            None => None,
            Some(s) => Some(s + if contains_ic(hay, needle) { 20int } else { 0int }),
        }
    }
}

proof fn lemma_walk_bound(hay: Seq<u8>, needle: Seq<u8>, j: int, pos: int)
    requires
        0 <= j <= needle.len(),
    ensures
        walk(hay, needle, j, pos) matches Some(s) ==> 0 <= s <= 8 * (needle.len() - j),
    decreases needle.len() - j,
{
    if j < needle.len() {
        if let Some(idx) = first_match(hay, needle[j], pos) {
            lemma_walk_bound(hay, needle, j + 1, idx + 1);
        }
    }
}

proof fn lemma_fuzzy_bound(hay: Seq<u8>, needle: Seq<u8>)
    ensures
        fuzzy(hay, needle) matches Some(s) ==> 0 <= s <= 8 * needle.len() + 20,
{
    lemma_walk_bound(hay, needle, 0, 0);
}

proof fn lemma_first_match_range(hay: Seq<u8>, c: u8, pos: int)
    ensures
        first_match(hay, c, pos) matches Some(idx) ==> pos <= idx < hay.len(),
    decreases hay.len() - pos,
{
    if 0 <= pos < hay.len() && fold(hay[pos]) != fold(c) {
        lemma_first_match_range(hay, c, pos + 1);
    }
}

fn find_folded(hay: &[u8], c: u8, pos: usize) -> (r: Option<usize>)
    requires
        pos <= hay@.len(),
    ensures
        match first_match(hay@, c, pos as int) {
            None => r is None,
            Some(idx) => r == Some(idx as usize),
        },
{
    let mut i: usize = pos;
    while i < hay.len()
        invariant
            pos <= i <= hay@.len(),
            first_match(hay@, c, pos as int) == first_match(hay@, c, i as int),
        decreases hay@.len() - i,
    {
        if fold_byte(hay[i]) == fold_byte(c) {
            return Some(i);
        }
        i = i + 1;
    }
    None
}

fn occurs_at_exec(hay: &[u8], needle: &[u8], start: usize) -> (r: bool)
    requires
        start + needle@.len() <= hay@.len(),
    ensures
        r == occurs_at(hay@, needle@, start as int),
{
    let hl: usize = hay.len();
    let mut i: usize = 0;
    while i < needle.len()
        invariant
            hl == hay@.len(),
            start + needle@.len() <= hay@.len(),
            i <= needle@.len(),
            forall|k: int| 0 <= k < i ==> #[trigger] fold(hay@[start + k]) == fold(needle@[k]),
        decreases needle@.len() - i,
    {
        if fold_byte(hay[start + i]) != fold_byte(needle[i]) {
            assert(fold(hay@[start + i as int]) != fold(needle@[i as int]));
            return false;
        }
        i = i + 1;
    }
    true
}

/// Whether `needle` occurs in `haystack`, ignoring ASCII case.
pub fn contains_ignore_ascii(haystack: &str, needle: &str) -> (r: bool)
    ensures
        r == contains_ic(haystack.spec_bytes(), needle.spec_bytes()),
{
    let hay = haystack.as_bytes();
    let nee = needle.as_bytes();
    if nee.len() == 0 {
        return true;
    }
    if nee.len() > hay.len() {
        assert forall|s: int| !occurs_at(hay@, nee@, s) by {}
        return false;
    }
    let hl: usize = hay.len();
    let last: usize = hl - nee.len();
    let mut start: usize = 0;
    while start <= last
        invariant
            hl == hay@.len(),
            hay@ == haystack.spec_bytes(),
            nee@ == needle.spec_bytes(),
            nee@.len() >= 1,
            last == hay@.len() - nee@.len(),
            start <= last + 1,
            forall|s: int| 0 <= s < start ==> !occurs_at(hay@, nee@, s),
        decreases last + 1 - start,
    {
        if occurs_at_exec(hay, nee, start) {
            assert(occurs_at(hay@, nee@, start as int));
            return true;
        }
        start = start + 1;
    }
    assert forall|s: int| !occurs_at(hay@, nee@, s) by {}
    false
}

/// Fuzzy match score of `needle` in `haystack`, ignoring ASCII case;
/// `None` when the needle's bytes do not all occur in order.
pub fn fuzzy_score(haystack: &str, needle: &str) -> (r: Option<usize>)
    requires
        needle.spec_bytes().len() * 8 + 20 <= usize::MAX,
    ensures
        match fuzzy(haystack.spec_bytes(), needle.spec_bytes()) {
            None => r is None,
            Some(s) => r == Some(s as usize),
        },
{
    let hay = haystack.as_bytes();
    let nee = needle.as_bytes();
    if nee.len() == 0 {
        return Some(1);
    }
    let hl: usize = hay.len();
    let mut score: usize = 0;
    let mut pos: usize = 0;
    let mut j: usize = 0;
    while j < nee.len()
        invariant
            hl == hay@.len(),
            hay@ == haystack.spec_bytes(),
            nee@ == needle.spec_bytes(),
            nee@.len() * 8 + 20 <= usize::MAX,
            j <= nee@.len(),
            pos <= hay@.len(),
            score <= 8 * j,
            match walk(hay@, nee@, j as int, pos as int) {
                None => walk(hay@, nee@, 0, 0) is None,
                Some(s) => walk(hay@, nee@, 0, 0) == Some(s + score),
            },
        decreases nee@.len() - j,
    {
        proof {
            lemma_first_match_range(hay@, nee@[j as int], pos as int);
        }
        let found = find_folded(hay, nee[j], pos);
        match found {
            None => {
                assert(walk(hay@, nee@, j as int, pos as int) is None);
                return None;
            },
            Some(idx) => {
                let step: usize = if idx == pos { 8 } else { 3 };
                assert(walk(hay@, nee@, j as int, pos as int) == match walk(
                    hay@,
                    nee@,
                    j + 1,
                    idx + 1,
                ) {
                    None => None,
                    Some(s) => Some(s + if idx == pos { 8int } else { 3int }),
                });
                score = score + step;
                pos = idx + 1;
            },
        }
        j = j + 1;
    }
    proof {
        lemma_walk_bound(hay@, nee@, 0, 0);
    }
    if contains_ignore_ascii(haystack, needle) {
        score = score + 20;
    }
    Some(score)
}

/// A score lowered by `d`, not below zero.
pub open spec fn lowered(s: Option<int>, d: int) -> int {
    match s {
        None => 0,
        Some(v) => if v >= d { v - d } else { 0 },
    }
}

/// How well an entry matches a query: the best of its name's score, its
/// path's less 2 and its snippet's less 4; `None` when that is zero.
pub open spec fn entry_score(name: Seq<u8>, path: Seq<u8>, snippet: Seq<u8>, query: Seq<u8>) -> Option<int> {
    let a = lowered(fuzzy(name, query), 0);
    let b = lowered(fuzzy(path, query), 2);
    let c = lowered(fuzzy(snippet, query), 4);
    let m1 = if b > a { b } else { a };
    let m = if c > m1 { c } else { m1 };
    if m == 0 {
        None
    } else {
        Some(m)
    }
}

fn lowered_score(s: Option<usize>, d: usize) -> (r: usize)
    ensures
        s matches Some(v) ==> r == lowered(Some(v as int), d as int),
        s is None ==> r == 0,
{
    match s {
        None => 0,
        Some(v) => v.saturating_sub(d),
    }
}

/// Scores an entry against a query.
pub fn score_entry(entry: &SearchEntry, query: &str) -> (r: Option<usize>)
    requires
        query.spec_bytes().len() * 8 + 20 <= usize::MAX,
    ensures
        match entry_score(
            encode_utf8(entry.name@),
            encode_utf8(entry.path@),
            encode_utf8(entry.snippet@),
            query.spec_bytes(),
        ) {
            None => r is None,
            Some(m) => r == Some(m as usize),
        },
{
    let name = entry.name.as_str();
    let path = entry.path.as_str();
    let snippet = entry.snippet.as_str();
    assert(name.spec_bytes() == encode_utf8(entry.name@));
    assert(path.spec_bytes() == encode_utf8(entry.path@));
    assert(snippet.spec_bytes() == encode_utf8(entry.snippet@));
    proof {
        lemma_fuzzy_bound(name.spec_bytes(), query.spec_bytes());
        lemma_fuzzy_bound(path.spec_bytes(), query.spec_bytes());
        lemma_fuzzy_bound(snippet.spec_bytes(), query.spec_bytes());
    }
    let a = lowered_score(fuzzy_score(name, query), 0);
    let b = lowered_score(fuzzy_score(path, query), 2);
    let c = lowered_score(fuzzy_score(snippet, query), 4);
    assert(a == lowered(fuzzy(name.spec_bytes(), query.spec_bytes()), 0));
    assert(b == lowered(fuzzy(path.spec_bytes(), query.spec_bytes()), 2));
    assert(c == lowered(fuzzy(snippet.spec_bytes(), query.spec_bytes()), 4));
    let mut score: usize = a;
    if b > score {
        score = b;
    }
    if c > score {
        score = c;
    }
    if score == 0 {
        None
    } else {
        Some(score)
    }
}

/// Whether a directory is left out of the index: `/DEV` and `/LOGS`, in
/// any ASCII case.
pub fn is_skipped_dir(path: &str) -> (r: bool)
    ensures
        r == (upper_seq(path@) == "/DEV"@ || upper_seq(path@) == "/LOGS"@),
{
    let cs = chars_of(path);
    let upper = to_upper(cs.as_slice());
    is(upper.as_slice(), "/DEV") || is(upper.as_slice(), "/LOGS")
}

/// The path of `name` inside the directory `parent`.
pub fn join_path(parent: &str, name: &str) -> (r: String)
    ensures
        r@ == if parent@ == "/"@ {
            "/"@ + name@
        } else {
            parent@ + "/"@ + name@
        },
{
    let root = is(chars_of(parent).as_slice(), "/");
    if root {
        let mut out = string_from("/");
        push_str(&mut out, name);
        out
    } else {
        let mut out = string_from(parent);
        push_str(&mut out, "/");
        push_str(&mut out, name);
        out
    }
}

/// A control character of a snippet (newline, return, tab) shown as a space.
pub open spec fn blank(c: char) -> char {
    if c == '\n' || c == '\r' || c == '\t' {
        ' '
    } else {
        c
    }
}

/// The snippet shown for a file's bytes: its first 42 characters with line
/// breaks and tabs blanked, or `binary` when the bytes are not UTF-8.
pub open spec fn snippet_of(bytes: Seq<u8>) -> Seq<char> {
    if !vstd::utf8::valid_utf8(bytes) {
        "binary"@
    } else {
        let text = vstd::utf8::decode_utf8(bytes);
        let n = if text.len() < 42 { text.len() } else { 42 };
        text.take(n as int).map_values(|c: char| blank(c))
    }
}

/// The snippet of a file's bytes.
pub fn snippet_text(bytes: &[u8]) -> (r: String)
    ensures
        r@ == snippet_of(bytes@),
{
    let text = match string_from_utf8(bytes) {
        Some(t) => t,
        None => {
            return string_from("binary");
        },
    };
    let cs = string_chars(&text);
    let n: usize = if cs.len() < 42 { cs.len() } else { 42 };
    let mut out = String::new();
    let mut i: usize = 0;
    while i < n
        invariant
            n <= cs@.len(),
            i <= n,
            out@ == cs@.take(i as int).map_values(|c: char| blank(c)),
        decreases n - i,
    {
        let c = cs[i];
        let shown = if c == '\n' || c == '\r' || c == '\t' { ' ' } else { c };
        push_char(&mut out, shown);
        i = i + 1;
        assert(out@ =~= cs@.take(i as int).map_values(|c: char| blank(c)));
    }
    out
}

/// The snippet of the file at `path`; empty when it cannot be read.
pub fn file_snippet(disk: &Disk, path: &str) -> (r: String)
    ensures
        r@ == match file_contents(disk@, path@) {
            None => Seq::<char>::empty(),
            Some(b) => snippet_of(b),
        },
{
    match read_file(disk, path) {
        None => String::new(),
        Some(bytes) => snippet_text(bytes.as_slice()),
    }
}

} // verus!
