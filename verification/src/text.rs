use vstd::prelude::*;
use vstd::string::*;

verus! {

// ── Character classes ───────────────────────────────────────────────────────

/// Unicode `White_Space`, as `char::is_whitespace` defines it.
pub open spec fn is_ws(c: char) -> bool {
    let v = c as u32;
    (9 <= v && v <= 13) || v == 32 || v == 0x85 || v == 0xA0 || v == 0x1680 || (0x2000 <= v
        && v <= 0x200A) || v == 0x2028 || v == 0x2029 || v == 0x202F || v == 0x205F || v == 0x3000
}

/// ASCII lower-casing of one character; other characters are unchanged.
pub open spec fn lower(c: char) -> char {
    if 65 <= c as u32 && c as u32 <= 90 {
        ((c as u32 + 32) as u8) as char
    } else {
        c
    }
}

/// ASCII upper-casing of one character; other characters are unchanged.
pub open spec fn upper(c: char) -> char {
    if 97 <= c as u32 && c as u32 <= 122 {
        ((c as u32 - 32) as u8) as char
    } else {
        c
    }
}

pub open spec fn lower_seq(s: Seq<char>) -> Seq<char> {
    s.map_values(|c: char| lower(c))
}

pub open spec fn upper_seq(s: Seq<char>) -> Seq<char> {
    s.map_values(|c: char| upper(c))
}

/// ASCII case-insensitive equality (`str::eq_ignore_ascii_case`).
pub open spec fn eq_ic(a: Seq<char>, b: Seq<char>) -> bool {
    lower_seq(a) == lower_seq(b)
}

pub open spec fn is_digit(c: char) -> bool {
    48 <= c as u32 && c as u32 <= 57
}

pub open spec fn digit_val(c: char) -> nat {
    (c as u32 - 48) as nat
}

// ── Decimal rendering ───────────────────────────────────────────────────────

/// The ASCII digit for a value below ten.
pub open spec fn digit_char(d: nat) -> char {
    ((d + 48) as u8) as char
}

/// Decimal digits of a natural number, most significant first.
pub open spec fn dec(n: nat) -> Seq<char>
    decreases n,
{
    if n < 10 {
        seq![digit_char(n)]
    } else {
        dec(n / 10).push(digit_char(n % 10))
    }
}

/// Decimal rendering of a signed integer, with a leading minus when negative.
pub open spec fn dec_int(v: int) -> Seq<char> {
    if v < 0 {
        seq!['-'] + dec((-v) as nat)
    } else {
        dec(v as nat)
    }
}

/// Value of a string of decimal digits.
pub open spec fn digits_value(s: Seq<char>) -> nat
    decreases s.len(),
{
    if s.len() == 0 {
        0
    } else {
        digits_value(s.drop_last()) * 10 + digit_val(s.last())
    }
}

pub open spec fn all_digits(s: Seq<char>) -> bool {
    forall|i: int| 0 <= i < s.len() ==> is_digit(#[trigger] s[i])
}

/// An unsigned decimal number: one or more digits.
pub open spec fn parse_nat(s: Seq<char>) -> Option<nat> {
    if s.len() > 0 && all_digits(s) {
        Some(digits_value(s))
    } else {
        None
    }
}

/// `str::parse::<i32>`: an optional sign followed by one or more digits,
/// in range.
pub open spec fn parse_i32_spec(s: Seq<char>) -> Option<i32> {
    let neg = s.len() > 0 && s[0] == '-';
    let body = if s.len() > 0 && (s[0] == '-' || s[0] == '+') {
        s.drop_first()
    } else {
        s
    };
    match parse_nat(body) {
        Some(n) => {
            let v: int = if neg {
                -(n as int)
            } else {
                n as int
            };
            if i32::MIN <= v && v <= i32::MAX {
                Some(v as i32)
            } else {
                None
            }
        },
        None => None,
    }
}

// ── Trimming, searching, splitting ──────────────────────────────────────────

pub open spec fn trim_start(s: Seq<char>) -> Seq<char>
    decreases s.len(),
{
    if s.len() > 0 && is_ws(s[0]) {
        trim_start(s.drop_first())
    } else {
        s
    }
}

pub open spec fn trim_end(s: Seq<char>) -> Seq<char>
    decreases s.len(),
{
    if s.len() > 0 && is_ws(s.last()) {
        trim_end(s.drop_last())
    } else {
        s
    }
}

/// `str::trim`.
pub open spec fn trim(s: Seq<char>) -> Seq<char> {
    trim_end(trim_start(s))
}

/// Index of the first `c` at or after `i`.
pub open spec fn find_from(s: Seq<char>, c: char, i: int) -> Option<int>
    decreases s.len() - i,
{
    if i < 0 || i >= s.len() {
        None
    } else if s[i] == c {
        Some(i)
    } else {
        find_from(s, c, i + 1)
    }
}

/// Index of the last `c` in `s`.
pub open spec fn rfind(s: Seq<char>, c: char) -> Option<int>
    decreases s.len(),
{
    if s.len() == 0 {
        None
    } else if s.last() == c {
        Some(s.len() - 1)
    } else {
        rfind(s.drop_last(), c)
    }
}

/// `str::split_once` on a single character.
pub open spec fn split_once(s: Seq<char>, c: char) -> Option<(Seq<char>, Seq<char>)> {
    match find_from(s, c, 0) {
        Some(i) => Some((s.take(i), s.skip(i + 1))),
        None => None,
    }
}

/// `str::split` on a single character: always at least one piece.
pub open spec fn split_on(s: Seq<char>, c: char) -> Seq<Seq<char>>
    decreases s.len(),
{
    if s.len() == 0 {
        seq![Seq::empty()]
    } else {
        let pre = split_on(s.drop_last(), c);
        if s.last() == c {
            pre.push(Seq::empty())
        } else {
            pre.update(pre.len() - 1, pre.last().push(s.last()))
        }
    }
}

pub open spec fn strip_cr(s: Seq<char>) -> Seq<char> {
    if s.len() > 0 && s.last() == '\r' {
        s.drop_last()
    } else {
        s
    }
}

/// `str::lines`: pieces between newlines, a `\r` before a newline removed,
/// no piece after a final newline.
pub open spec fn lines_of(s: Seq<char>) -> Seq<Seq<char>> {
    let parts = split_on(s, '\n');
    let kept = if parts.last().len() == 0 {
        parts.drop_last()
    } else {
        parts
    };
    Seq::new(
        kept.len(),
        |i: int|
            if i < parts.len() - 1 {
                strip_cr(kept[i])
            } else {
                kept[i]
            },
    )
}

/// Pieces of `s` split on `c`, trimmed, empty pieces dropped.
pub open spec fn trimmed_list(s: Seq<char>, c: char) -> Seq<Seq<char>> {
    split_on(s, c).map_values(|p: Seq<char>| trim(p)).filter(|p: Seq<char>| p.len() > 0)
}

/// The character views of a sequence of character vectors.
pub open spec fn views(v: Seq<Vec<char>>) -> Seq<Seq<char>> {
    Seq::new(v.len(), |i: int| v[i]@)
}

// ── Proofs about the definitions ────────────────────────────────────────────

pub proof fn lemma_split_on_nonempty(s: Seq<char>, c: char)
    ensures
        split_on(s, c).len() >= 1,
    decreases s.len(),
{
    if s.len() > 0 {
        lemma_split_on_nonempty(s.drop_last(), c);
    }
}

proof fn lemma_find_from_bounds(s: Seq<char>, c: char, i: int)
    requires
        0 <= i,
    ensures
        match find_from(s, c, i) {
            Some(j) => i <= j < s.len() && s[j] == c && forall|k: int|
                i <= k < j ==> s[k] != c,
            None => forall|k: int| i <= k < s.len() ==> s[k] != c,
        },
    decreases s.len() - i,
{
    if i < 0 || i >= s.len() {
    } else if s[i] == c {
    } else {
        lemma_find_from_bounds(s, c, i + 1);
    }
}

proof fn lemma_rfind_bounds(s: Seq<char>, c: char)
    ensures
        match rfind(s, c) {
            Some(j) => 0 <= j < s.len() && s[j] == c && forall|k: int|
                j < k < s.len() ==> s[k] != c,
            None => forall|k: int| 0 <= k < s.len() ==> s[k] != c,
        },
    decreases s.len(),
{
    if s.len() > 0 && s.last() != c {
        lemma_rfind_bounds(s.drop_last(), c);
        assert forall|k: int| 0 <= k < s.len() - 1 implies s.drop_last()[k] == s[k] by {}
    }
}

proof fn lemma_find_from_first(s: Seq<char>, c: char, i: int, j: int)
    requires
        0 <= i <= j < s.len(),
        s[j] == c,
        forall|k: int| i <= k < j ==> s[k] != c,
    ensures
        find_from(s, c, i) == Some(j),
    decreases j - i,
{
    if i < j {
        lemma_find_from_first(s, c, i + 1, j);
    }
}

proof fn lemma_find_from_none(s: Seq<char>, c: char, i: int)
    requires
        0 <= i,
        forall|k: int| i <= k < s.len() ==> s[k] != c,
    ensures
        find_from(s, c, i) is None,
    decreases s.len() - i,
{
    if i < s.len() {
        lemma_find_from_none(s, c, i + 1);
    }
}

proof fn lemma_rfind_last(s: Seq<char>, c: char, j: int)
    requires
        0 <= j < s.len(),
        s[j] == c,
        forall|k: int| j < k < s.len() ==> s[k] != c,
    ensures
        rfind(s, c) == Some(j),
    decreases s.len(),
{
    if j < s.len() - 1 {
        lemma_rfind_last(s.drop_last(), c, j);
    }
}

proof fn lemma_rfind_none(s: Seq<char>, c: char)
    requires
        forall|k: int| 0 <= k < s.len() ==> s[k] != c,
    ensures
        rfind(s, c) is None,
    decreases s.len(),
{
    if s.len() > 0 {
        lemma_rfind_none(s.drop_last(), c);
    }
}

proof fn lemma_trim_start_skip(s: Seq<char>, i: int)
    requires
        0 <= i <= s.len(),
        forall|k: int| 0 <= k < i ==> is_ws(#[trigger] s[k]),
    ensures
        trim_start(s) == trim_start(s.skip(i)),
    decreases i,
{
    if i > 0 {
        assert(s.skip(1).skip(i - 1) =~= s.skip(i));
        lemma_trim_start_skip(s.drop_first(), i - 1);
        assert(s.drop_first() =~= s.skip(1));
    } else {
        assert(s.skip(0) =~= s);
    }
}

proof fn lemma_trim_end_take(s: Seq<char>, j: int)
    requires
        0 <= j <= s.len(),
        forall|k: int| j <= k < s.len() ==> is_ws(#[trigger] s[k]),
    ensures
        trim_end(s) == trim_end(s.take(j)),
    decreases s.len() - j,
{
    if j < s.len() {
        assert(s.drop_last().take(j) =~= s.take(j));
        lemma_trim_end_take(s.drop_last(), j);
    } else {
        assert(s.take(j) =~= s);
    }
}

proof fn lemma_digits_value_push(s: Seq<char>, c: char)
    ensures
        digits_value(s.push(c)) == digits_value(s) * 10 + digit_val(c),
{
    assert(s.push(c).drop_last() =~= s);
}

// ── Executable helpers ──────────────────────────────────────────────────────

/// Appends one character to a string.
#[verifier::external_body]
pub(crate) fn push_char(out: &mut String, c: char)
    ensures
        final(out)@ == old(out)@.push(c),
{
    out.push(c);
}

/// Appends a string slice to a string.
pub fn push_str(out: &mut String, s: &str)
    ensures
        final(out)@ == old(out)@ + s@,
{
    out.append(s);
}

/// A fresh string holding `s`.
pub fn string_from(s: &str) -> (r: String)
    ensures
        r@ == s@,
{
    String::from_str(s)
}

/// The characters of a string slice.
pub fn chars_of(s: &str) -> (r: Vec<char>)
    ensures
        r@ == s@,
{
    let n = s.unicode_len();
    let mut out: Vec<char> = Vec::new();
    let mut i: usize = 0;
    while i < n
        invariant
            n == s@.len(),
            i <= n,
            out@ == s@.take(i as int),
        decreases n - i,
    {
        let c = s.get_char(i);
        out.push(c);
        i = i + 1;
        assert(out@ =~= s@.take(i as int));
    }
    assert(out@ =~= s@);
    out
}

/// A string holding the given characters.
pub fn string_of(cs: &[char]) -> (r: String)
    ensures
        r@ == cs@,
{
    let mut out = String::new();
    let mut i: usize = 0;
    while i < cs.len()
        invariant
            i <= cs@.len(),
            out@ == cs@.take(i as int),
        decreases cs@.len() - i,
    {
        push_char(&mut out, cs[i]);
        i = i + 1;
        assert(out@ =~= cs@.take(i as int));
    }
    assert(out@ =~= cs@);
    out
}

/// Appends the characters of `cs` to `out`.
pub fn push_chars(out: &mut String, cs: &[char])
    ensures
        final(out)@ == old(out)@ + cs@,
{
    let ghost start = out@;
    let mut i: usize = 0;
    while i < cs.len()
        invariant
            i <= cs@.len(),
            out@ == start + cs@.take(i as int),
        decreases cs@.len() - i,
    {
        push_char(out, cs[i]);
        i = i + 1;
        assert(out@ =~= start + cs@.take(i as int));
    }
    assert(cs@.take(cs@.len() as int) =~= cs@);
}

/// Characters of a string.
pub fn string_chars(s: &String) -> (r: Vec<char>)
    ensures
        r@ == s@,
{
    chars_of(s.as_str())
}

pub fn lower_char(c: char) -> (r: char)
    ensures
        r == lower(c),
{
    let v = c as u32;
    if 65 <= v && v <= 90 {
        ((v + 32) as u8) as char
    } else {
        c
    }
}

pub fn upper_char(c: char) -> (r: char)
    ensures
        r == upper(c),
{
    let v = c as u32;
    if 97 <= v && v <= 122 {
        ((v - 32) as u8) as char
    } else {
        c
    }
}

/// ASCII upper-casing of every character.
pub fn to_upper(cs: &[char]) -> (r: Vec<char>)
    ensures
        r@ == upper_seq(cs@),
{
    let mut out: Vec<char> = Vec::new();
    let mut i: usize = 0;
    while i < cs.len()
        invariant
            i <= cs@.len(),
            out@ == upper_seq(cs@.take(i as int)),
        decreases cs@.len() - i,
    {
        out.push(upper_char(cs[i]));
        i = i + 1;
        assert(out@ =~= upper_seq(cs@.take(i as int)));
    }
    assert(cs@.take(cs@.len() as int) =~= cs@);
    out
}

/// ASCII case-insensitive equality of two character sequences.
pub fn eq_ignore_case(a: &[char], b: &[char]) -> (r: bool)
    ensures
        r == eq_ic(a@, b@),
{
    if a.len() != b.len() {
        assert(lower_seq(a@).len() != lower_seq(b@).len());
        return false;
    }
    let mut i: usize = 0;
    while i < a.len()
        invariant
            a@.len() == b@.len(),
            i <= a@.len(),
            forall|k: int| 0 <= k < i ==> lower(a@[k]) == lower(b@[k]),
        decreases a@.len() - i,
    {
        if lower_char(a[i]) != lower_char(b[i]) {
            assert(lower_seq(a@)[i as int] != lower_seq(b@)[i as int]);
            return false;
        }
        i = i + 1;
    }
    assert(lower_seq(a@) =~= lower_seq(b@));
    true
}

/// ASCII case-insensitive equality of two string slices.
pub fn str_eq_ignore_case(a: &str, b: &str) -> (r: bool)
    ensures
        r == eq_ic(a@, b@),
{
    let x = chars_of(a);
    let y = chars_of(b);
    eq_ignore_case(x.as_slice(), y.as_slice())
}

/// Exact equality of two character sequences.
pub fn chars_eq(a: &[char], b: &[char]) -> (r: bool)
    ensures
        r == (a@ == b@),
{
    if a.len() != b.len() {
        return false;
    }
    let mut i: usize = 0;
    while i < a.len()
        invariant
            a@.len() == b@.len(),
            i <= a@.len(),
            forall|k: int| 0 <= k < i ==> a@[k] == b@[k],
        decreases a@.len() - i,
    {
        if a[i] != b[i] {
            return false;
        }
        i = i + 1;
    }
    assert(a@ =~= b@);
    true
}

/// Whether `s` equals the string slice `lit` exactly.
pub fn is(s: &[char], lit: &str) -> (r: bool)
    ensures
        r == (s@ == lit@),
{
    let l = chars_of(lit);
    chars_eq(s, l.as_slice())
}

pub fn is_whitespace(c: char) -> (r: bool)
    ensures
        r == is_ws(c),
{
    let v = c as u32;
    (9 <= v && v <= 13) || v == 32 || v == 0x85 || v == 0xA0 || v == 0x1680 || (0x2000 <= v && v
        <= 0x200A) || v == 0x2028 || v == 0x2029 || v == 0x202F || v == 0x205F || v == 0x3000
}

/// `str::trim` on a character sequence.
pub fn trim_chars(s: &[char]) -> (r: Vec<char>)
    ensures
        r@ == trim(s@),
{
    let n = s.len();
    let mut i: usize = 0;
    while i < n && is_whitespace(s[i])
        invariant
            n == s@.len(),
            i <= n,
            forall|k: int| 0 <= k < i ==> is_ws(#[trigger] s@[k]),
        decreases n - i,
    {
        i = i + 1;
    }
    proof {
        lemma_trim_start_skip(s@, i as int);
        if i < n {
            assert(!is_ws(s@.skip(i as int)[0]));
        }
    }
    let ghost t = s@.skip(i as int);
    assert(trim_start(s@) == t);
    let mut j: usize = n;
    while j > i && is_whitespace(s[j - 1])
        invariant
            n == s@.len(),
            i <= j <= n,
            forall|k: int| j <= k < n ==> is_ws(#[trigger] s@[k]),
        decreases j,
    {
        j = j - 1;
    }
    let mut out: Vec<char> = Vec::new();
    let mut k: usize = i;
    while k < j
        invariant
            i <= k <= j <= n,
            n == s@.len(),
            out@ == s@.subrange(i as int, k as int),
        decreases j - k,
    {
        out.push(s[k]);
        k = k + 1;
        assert(out@ =~= s@.subrange(i as int, k as int));
    }
    proof {
        assert forall|m: int| (j - i) <= m < t.len() implies is_ws(#[trigger] t[m]) by {
            assert(t[m] == s@[m + i]);
        }
        lemma_trim_end_take(t, (j - i) as int);
        assert(t.take((j - i) as int) =~= s@.subrange(i as int, j as int));
        if j > i {
            assert(!is_ws(t.take((j - i) as int).last()));
        }
    }
    out
}

/// Index of the first `c` in `s`.
pub fn find_char(s: &[char], c: char) -> (r: Option<usize>)
    ensures
        match r {
            Some(i) => find_from(s@, c, 0) == Some(i as int),
            None => find_from(s@, c, 0) is None,
        },
{
    let mut i: usize = 0;
    while i < s.len()
        invariant
            i <= s@.len(),
            forall|k: int| 0 <= k < i ==> s@[k] != c,
        decreases s@.len() - i,
    {
        if s[i] == c {
            proof {
                lemma_find_from_first(s@, c, 0, i as int);
            }
            return Some(i);
        }
        i = i + 1;
    }
    proof {
        lemma_find_from_none(s@, c, 0);
    }
    None
}

/// Index of the last `c` in `s`.
pub fn rfind_char(s: &[char], c: char) -> (r: Option<usize>)
    ensures
        match r {
            Some(i) => rfind(s@, c) == Some(i as int),
            None => rfind(s@, c) is None,
        },
{
    let mut i: usize = s.len();
    while i > 0
        invariant
            i <= s@.len(),
            forall|k: int| i <= k < s@.len() ==> s@[k] != c,
        decreases i,
    {
        if s[i - 1] == c {
            proof {
                lemma_rfind_last(s@, c, i - 1);
            }
            return Some(i - 1);
        }
        i = i - 1;
    }
    proof {
        lemma_rfind_none(s@, c);
    }
    None
}

/// Whether `s` holds `c`.
pub fn contains_char(s: &[char], c: char) -> (r: bool)
    ensures
        r == s@.contains(c),
{
    let f = find_char(s, c);
    proof {
        lemma_find_from_bounds(s@, c, 0);
    }
    f.is_some()
}

/// Copy of `s[from..to]`.
pub fn slice_chars(s: &[char], from: usize, to: usize) -> (r: Vec<char>)
    requires
        from <= to <= s@.len(),
    ensures
        r@ == s@.subrange(from as int, to as int),
{
    let mut out: Vec<char> = Vec::new();
    let mut k: usize = from;
    while k < to
        invariant
            from <= k <= to <= s@.len(),
            out@ == s@.subrange(from as int, k as int),
        decreases to - k,
    {
        out.push(s[k]);
        k = k + 1;
        assert(out@ =~= s@.subrange(from as int, k as int));
    }
    out
}

/// `str::split_once` on a single character.
pub fn split_once_char(s: &[char], c: char) -> (r: Option<(Vec<char>, Vec<char>)>)
    ensures
        match r {
            Some((a, b)) => split_once(s@, c) == Some((a@, b@)),
            None => split_once(s@, c) is None,
        },
{
    match find_char(s, c) {
        Some(i) => {
            proof {
                lemma_find_from_bounds(s@, c, 0);
            }
            let n = s.len();
            assert(i < n);
            let a = slice_chars(s, 0, i);
            let b = slice_chars(s, i + 1, s.len());
            assert(a@ =~= s@.take(i as int));
            assert(b@ =~= s@.skip(i + 1));
            Some((a, b))
        },
        None => None,
    }
}

/// `str::split` on a single character.
pub fn split_chars(s: &[char], c: char) -> (r: Vec<Vec<char>>)
    ensures
        views(r@) == split_on(s@, c),
{
    let mut parts: Vec<Vec<char>> = Vec::new();
    let mut cur: Vec<char> = Vec::new();
    let mut i: usize = 0;
    assert(s@.take(0) =~= Seq::<char>::empty());
    while i < s.len()
        invariant
            i <= s@.len(),
            views(parts@).push(cur@) == split_on(s@.take(i as int), c),
        decreases s@.len() - i,
    {
        let ghost pre = s@.take(i as int);
        assert(s@.take(i + 1).drop_last() =~= pre);
        let ghost old_dv = views(parts@);
        let ghost old_cur = cur@;
        if s[i] == c {
            parts.push(cur);
            cur = Vec::new();
            proof {
                assert(views(parts@) =~= old_dv.push(old_cur));
            }
        } else {
            proof {
                lemma_split_on_nonempty(pre, c);
            }
            cur.push(s[i]);
            assert(cur@ == old_cur.push(s@[i as int]));
        }
        i = i + 1;
        proof {
            assert(views(parts@).push(cur@) =~= split_on(s@.take(i as int), c));
        }
    }
    parts.push(cur);
    assert(s@.take(s@.len() as int) =~= s@);
    parts
}

/// `str::lines`.
pub fn lines(s: &[char]) -> (r: Vec<Vec<char>>)
    ensures
        views(r@) == lines_of(s@),
{
    let parts = split_chars(s, '\n');
    proof {
        lemma_split_on_nonempty(s@, '\n');
    }
    let n = parts.len();
    let keep = if parts[n - 1].len() == 0 {
        n - 1
    } else {
        n
    };
    let ghost kept = if views(parts@).last().len() == 0 {
        views(parts@).drop_last()
    } else {
        views(parts@)
    };
    let mut out: Vec<Vec<char>> = Vec::new();
    let mut i: usize = 0;
    while i < keep
        invariant
            n == parts@.len(),
            n >= 1,
            keep <= n,
            keep == kept.len(),
            kept == (if views(parts@).last().len() == 0 {
                views(parts@).drop_last()
            } else {
                views(parts@)
            }),
            i <= keep,
            views(out@) == lines_of(s@).take(i as int),
            views(parts@) == split_on(s@, '\n'),
        decreases keep - i,
    {
        let p = &parts[i];
        let piece = if i < n - 1 && p.len() > 0 && p[p.len() - 1] == '\r' {
            slice_chars(p.as_slice(), 0, p.len() - 1)
        } else {
            slice_chars(p.as_slice(), 0, p.len())
        };
        proof {
            assert(views(parts@)[i as int] == p@);
            if i < n - 1 && p@.len() > 0 && p@.last() == '\r' {
                assert(piece@ =~= p@.drop_last());
            } else {
                assert(piece@ =~= p@);
            }
        }
        let ghost old_out = views(out@);
        proof {
            assert(lines_of(s@).len() == keep);
            assert(kept[i as int] == p@);
            assert(lines_of(s@)[i as int] == piece@);
        }
        out.push(piece);
        assert(views(out@) =~= old_out.push(piece@));
        i = i + 1;
        assert(views(out@) =~= lines_of(s@).take(i as int));
    }
    assert(lines_of(s@).take(keep as int) =~= lines_of(s@));
    out
}

/// Parses one or more decimal digits into a `u64`; `None` on any other
/// character or on overflow.
pub fn parse_u64_chars(s: &[char]) -> (r: Option<u64>)
    ensures
        match r {
            Some(v) => parse_nat(s@) == Some(v as nat),
            None => parse_nat(s@) is None || parse_nat(s@)->0 > u64::MAX,
        },
{
    if s.len() == 0 {
        return None;
    }
    let mut out: u64 = 0;
    let mut i: usize = 0;
    while i < s.len()
        invariant
            i <= s@.len(),
            all_digits(s@.take(i as int)),
            out as nat == digits_value(s@.take(i as int)),
        decreases s@.len() - i,
    {
        let c = s[i];
        let v = c as u32;
        proof {
            assert(s@.take(i + 1) =~= s@.take(i as int).push(c));
            lemma_digits_value_push(s@.take(i as int), c);
        }
        if !(48 <= v && v <= 57) {
            assert(!all_digits(s@));
            return None;
        }
        let d = (v - 48) as u64;
        if out > (u64::MAX - d) / 10 {
            proof {
                assert(all_digits(s@.take(i + 1)));
                lemma_prefix_value_bound(s@, (i + 1) as int);
            }
            return None;
        }
        out = out * 10 + d;
        i = i + 1;
    }
    assert(s@.take(s@.len() as int) =~= s@);
    Some(out)
}

proof fn lemma_prefix_value_bound(s: Seq<char>, k: int)
    requires
        0 <= k <= s.len(),
        all_digits(s.take(k)),
    ensures
        all_digits(s) ==> digits_value(s.take(k)) <= digits_value(s),
    decreases s.len() - k,
{
    if k < s.len() && all_digits(s) {
        assert(s.take(k + 1) =~= s.take(k).push(s[k]));
        lemma_digits_value_push(s.take(k), s[k]);
        lemma_prefix_value_bound(s, k + 1);
    } else if k == s.len() {
        assert(s.take(k) =~= s);
    }
}

/// `str::parse::<i32>`.
pub fn parse_i32_chars(s: &[char]) -> (r: Option<i32>)
    ensures
        r == parse_i32_spec(s@),
{
    let neg = s.len() > 0 && s[0] == '-';
    let body = if s.len() > 0 && (s[0] == '-' || s[0] == '+') {
        slice_chars(s, 1, s.len())
    } else {
        slice_chars(s, 0, s.len())
    };
    assert(body@ =~= (if s@.len() > 0 && (s@[0] == '-' || s@[0] == '+') {
        s@.drop_first()
    } else {
        s@
    }));
    match parse_u64_chars(body.as_slice()) {
        Some(n) => {
            if neg {
                if n <= 2147483648 {
                    Some((0i64 - n as i64) as i32)
                } else {
                    None
                }
            } else {
                if n <= 2147483647 {
                    Some(n as i32)
                } else {
                    None
                }
            }
        },
        None => None,
    }
}

fn digit(d: u64) -> (c: char)
    requires
        d < 10,
    ensures
        c == digit_char(d as nat),
{
    let b: u8 = 48u8 + d as u8;
    b as char
}

/// Appends the decimal form of `value`.
pub fn push_u64(out: &mut String, value: u64)
    ensures
        final(out)@ == old(out)@ + dec(value as nat),
    decreases value,
{
    if value < 10 {
        push_char(out, digit(value));
    } else {
        push_u64(out, value / 10);
        push_char(out, digit(value % 10));
    }
}

/// Appends the decimal form of a signed value.
pub fn push_i64(out: &mut String, value: i64)
    ensures
        final(out)@ == old(out)@ + dec_int(value as int),
{
    if value < 0 {
        push_char(out, '-');
        let mag: u64 = if value == i64::MIN {
            9223372036854775808u64
        } else {
            (0 - value) as u64
        };
        push_u64(out, mag);
        assert(final(out)@ =~= old(out)@ + dec_int(value as int)) by {
            assert(mag as int == -(value as int));
        }
    } else {
        push_u64(out, value as u64);
    }
}

/// Decimal text of a `u64`.
pub fn u64_text(value: u64) -> (r: String)
    ensures
        r@ == dec(value as nat),
{
    let mut s = String::new();
    push_u64(&mut s, value);
    assert(s@ =~= dec(value as nat));
    s
}


// ── Padded and hexadecimal rendering ────────────────────────────────────────

/// The lower-case hexadecimal digit for a value below sixteen.
pub open spec fn hex_char(d: nat) -> char {
    if d < 10 {
        digit_char(d)
    } else {
        ((d - 10 + 97) as u8) as char
    }
}

/// Lower-case hexadecimal digits of a natural number, most significant
/// first.
pub open spec fn hex(n: nat) -> Seq<char>
    decreases n,
{
    if n < 16 {
        seq![hex_char(n)]
    } else {
        hex(n / 16).push(hex_char(n % 16))
    }
}

/// `s` filled on the left with `c` up to `w` characters.
pub open spec fn pad_left(s: Seq<char>, w: nat, c: char) -> Seq<char> {
    if s.len() >= w {
        s
    } else {
        Seq::new((w - s.len()) as nat, |i: int| c) + s
    }
}

/// `s` filled on the right with spaces up to `w` characters.
pub open spec fn pad_right(s: Seq<char>, w: nat) -> Seq<char> {
    if s.len() >= w {
        s
    } else {
        s + Seq::new((w - s.len()) as nat, |i: int| ' ')
    }
}

fn hex_digit(d: u64) -> (c: char)
    requires
        d < 16,
    ensures
        c == hex_char(d as nat),
{
    if d < 10 {
        digit(d)
    } else {
        let b: u8 = 87u8 + d as u8;
        b as char
    }
}

/// Appends the lower-case hexadecimal form of `value`.
pub fn push_hex_digits(out: &mut String, value: u64)
    ensures
        final(out)@ == old(out)@ + hex(value as nat),
    decreases value,
{
    if value < 16 {
        push_char(out, hex_digit(value));
    } else {
        push_hex_digits(out, value / 16);
        push_char(out, hex_digit(value % 16));
    }
}

/// Appends `fill` `n` times.
pub fn push_fill(out: &mut String, fill: char, n: usize)
    ensures
        final(out)@ == old(out)@ + Seq::new(n as nat, |i: int| fill),
{
    let ghost start = out@;
    let mut i: usize = 0;
    while i < n
        invariant
            i <= n,
            out@ == start + Seq::new(i as nat, |k: int| fill),
        decreases n - i,
    {
        push_char(out, fill);
        i = i + 1;
        assert(out@ =~= start + Seq::new(i as nat, |k: int| fill));
    }
}

/// Appends `s` filled on the left with `fill` up to `width` characters.
pub fn push_padded_left(out: &mut String, s: &str, width: usize, fill: char)
    ensures
        final(out)@ == old(out)@ + pad_left(s@, width as nat, fill),
{
    let n = s.unicode_len();
    if n < width {
        push_fill(out, fill, width - n);
    }
    let ghost mid = out@;
    push_str(out, s);
    assert(out@ =~= old(out)@ + pad_left(s@, width as nat, fill));
}

/// Appends `s` filled on the right with spaces up to `width` characters.
pub fn push_padded_right(out: &mut String, s: &str, width: usize)
    ensures
        final(out)@ == old(out)@ + pad_right(s@, width as nat),
{
    let n = s.unicode_len();
    push_str(out, s);
    if n < width {
        push_fill(out, ' ', width - n);
    }
    assert(out@ =~= old(out)@ + pad_right(s@, width as nat));
}

/// Appends the decimal form of `value`, filled on the left up to `width`.
pub fn push_u64_padded(out: &mut String, value: u64, width: usize, fill: char)
    ensures
        final(out)@ == old(out)@ + pad_left(dec(value as nat), width as nat, fill),
{
    let t = u64_text(value);
    push_padded_left(out, t.as_str(), width, fill);
}

/// Appends the hexadecimal form of `value`, zero-filled up to `width`.
pub fn push_hex(out: &mut String, value: u64, width: usize)
    ensures
        final(out)@ == old(out)@ + pad_left(hex(value as nat), width as nat, '0'),
{
    let mut t = String::new();
    push_hex_digits(&mut t, value);
    assert(t@ =~= hex(value as nat));
    push_padded_left(out, t.as_str(), width, '0');
}

/// Exact equality of two strings.
pub fn str_eq(a: &str, b: &str) -> (r: bool)
    ensures
        r == (a@ == b@),
{
    let x = chars_of(a);
    let y = chars_of(b);
    chars_eq(x.as_slice(), y.as_slice())
}

} // verus!
