//! Decimal rendering of integers and building of output text.

use vstd::prelude::*;
use vstd::string::StrSliceExecFns;

verus! {

/// The ASCII digit for `d < 10`.
pub open spec fn digit_char(d: nat) -> char {
    ((48 + d) as u32) as char
}

/// The decimal representation of `x`, without sign or leading zeros.
pub open spec fn dec(x: nat) -> Seq<char>
    decreases x,
{
    if x < 10 {
        seq![digit_char(x)]
    } else {
        dec(x / 10).push(digit_char(x % 10))
    }
}

/// Renders `x` in decimal (`u64`'s `Display`, which prints the decimal digits).
#[verifier::external_body]
pub(crate) fn u64_to_string(x: u64) -> (s: String)
    ensures
        s@ == dec(x as nat),
{
    x.to_string()
}

/// Renders `x` in decimal (`u32`'s `Display`, which prints the decimal digits).
#[verifier::external_body]
pub(crate) fn u32_to_string(x: u32) -> (s: String)
    ensures
        s@ == dec(x as nat),
{
    x.to_string()
}

/// The decimal representation of a signed integer, with a leading `-` when negative.
pub open spec fn dec_int(x: int) -> Seq<char> {
    if x < 0 {
        seq!['-'] + dec((-x) as nat)
    } else {
        dec(x as nat)
    }
}

/// Renders `x` in decimal (`i64`'s `Display`: a `-` sign for negative values, then the digits).
#[verifier::external_body]
pub(crate) fn i64_to_string(x: i64) -> (s: String)
    ensures
        s@ == dec_int(x as int),
{
    x.to_string()
}

/// The code of `c` with ASCII upper-case letters mapped to lower case.
pub open spec fn ascii_lower(c: char) -> u32 {
    if 'A' <= c && c <= 'Z' {
        ((c as u32) + 32) as u32
    } else {
        c as u32
    }
}

/// The two texts are equal up to the case of ASCII letters.
pub open spec fn eq_ascii_case_insensitive(a: Seq<char>, b: Seq<char>) -> bool {
    a.len() == b.len() && forall|i: int| 0 <= i < a.len() ==> ascii_lower(#[trigger] a[i]) == ascii_lower(b[i])
}

/// `s` ends with `suffix`.
pub open spec fn has_suffix(s: Seq<char>, suffix: Seq<char>) -> bool {
    suffix.len() <= s.len() && s.subrange(s.len() - suffix.len(), s.len() as int) == suffix
}

/// The code of `c` as lower case, for ASCII letters.
fn to_ascii_lower(c: char) -> (r: u32)
    ensures
        r == ascii_lower(c),
{
    if 'A' <= c && c <= 'Z' {
        (c as u32) + 32
    } else {
        c as u32
    }
}

/// The two texts are the same.
pub fn same_text(a: &str, b: &str) -> (r: bool)
    ensures
        r == (a@ == b@),
{
    let n = a.unicode_len();
    if n != b.unicode_len() {
        return false;
    }
    let mut i: usize = 0;
    while i < n
        invariant
            0 <= i <= n,
            n == a@.len(),
            n == b@.len(),
            forall|j: int| 0 <= j < i ==> a@[j] == b@[j],
        decreases n - i,
    {
        if a.get_char(i) != b.get_char(i) {
            return false;
        }
        i = i + 1;
    }
    assert(a@ =~= b@);
    true
}

/// ASCII case-insensitive comparison (`str::eq_ignore_ascii_case`).
pub fn eq_ignore_ascii_case(a: &str, b: &str) -> (r: bool)
    ensures
        r == eq_ascii_case_insensitive(a@, b@),
{
    let n = a.unicode_len();
    if n != b.unicode_len() {
        return false;
    }
    let mut i: usize = 0;
    while i < n
        invariant
            0 <= i <= n,
            n == a@.len(),
            n == b@.len(),
            forall|j: int| 0 <= j < i ==> ascii_lower(#[trigger] a@[j]) == ascii_lower(b@[j]),
        decreases n - i,
    {
        if to_ascii_lower(a.get_char(i)) != to_ascii_lower(b.get_char(i)) {
            return false;
        }
        i = i + 1;
    }
    true
}

/// `s` ends with `suffix` (`str::ends_with`).
pub fn ends_with(s: &str, suffix: &str) -> (r: bool)
    ensures
        r == has_suffix(s@, suffix@),
{
    let n = s.unicode_len();
    let m = suffix.unicode_len();
    if m > n {
        return false;
    }
    let off = n - m;
    let mut i: usize = 0;
    while i < m
        invariant
            0 <= i <= m,
            m <= n,
            off == n - m,
            n == s@.len(),
            m == suffix@.len(),
            forall|j: int| 0 <= j < i ==> s@[off + j] == suffix@[j],
        decreases m - i,
    {
        if s.get_char(off + i) != suffix.get_char(i) {
            assert(s@.subrange(off as int, n as int)[i as int] == s@[off + i]);
            return false;
        }
        i = i + 1;
    }
    assert(s@.subrange(off as int, n as int) =~= suffix@);
    true
}

/// The characters that Unicode gives the `White_Space` property
/// (`char::is_whitespace`).
pub open spec fn is_white(c: char) -> bool {
    ||| c == '\t'
    ||| c == '\n'
    ||| c == '\u{0B}'
    ||| c == '\u{0C}'
    ||| c == '\r'
    ||| c == ' '
    ||| c == '\u{85}'
    ||| c == '\u{A0}'
    ||| c == '\u{1680}'
    ||| ('\u{2000}' <= c && c <= '\u{200A}')
    ||| c == '\u{2028}'
    ||| c == '\u{2029}'
    ||| c == '\u{202F}'
    ||| c == '\u{205F}'
    ||| c == '\u{3000}'
}

fn white(c: char) -> (b: bool)
    ensures
        b == is_white(c),
{
    c == '\t' || c == '\n' || c == '\u{0B}' || c == '\u{0C}' || c == '\r' || c == ' ' || c == '\u{85}'
        || c == '\u{A0}' || c == '\u{1680}' || ('\u{2000}' <= c && c <= '\u{200A}') || c == '\u{2028}'
        || c == '\u{2029}' || c == '\u{202F}' || c == '\u{205F}' || c == '\u{3000}'
}

/// The index of the first `\n` of `s`, or its length.
pub open spec fn line_end(s: Seq<char>) -> int {
    if exists|i: int| 0 <= i < s.len() && s[i] == '\n' {
        choose|i: int| 0 <= i < s.len() && s[i] == '\n' && forall|j: int| 0 <= j < i ==> s[j] != '\n'
    } else {
        s.len() as int
    }
}

/// `s` without white space at either end (`str::trim`).
pub open spec fn trimmed(s: Seq<char>) -> Seq<char>
    decreases s.len(),
{
    if s.len() > 0 && is_white(s[0]) {
        trimmed(s.drop_first())
    } else if s.len() > 0 && is_white(s.last()) {
        trimmed(s.drop_last())
    } else {
        s
    }
}

/// The first line of `s`, trimmed (`s.lines().next().map(str::trim)`): `None` for
/// empty text.
pub open spec fn first_line_trimmed(s: Seq<char>) -> Option<Seq<char>> {
    if s.len() == 0 {
        None
    } else {
        Some(trimmed(s.subrange(0, line_end(s))))
    }
}

/// The first line of `s`, trimmed.
pub fn first_line(s: &str) -> (r: Option<String>)
    ensures
        r matches Some(t) ==> first_line_trimmed(s@) == Some(t@),
        r is None ==> first_line_trimmed(s@) is None,
{
    let n = s.unicode_len();
    if n == 0 {
        return None;
    }
    let mut end: usize = 0;
    while end < n
        invariant
            0 <= end <= n,
            n == s@.len(),
            forall|j: int| 0 <= j < end ==> s@[j] != '\n',
        ensures
            0 <= end <= n,
            forall|j: int| 0 <= j < end ==> s@[j] != '\n',
            end < n ==> s@[end as int] == '\n',
        decreases n - end,
    {
        if s.get_char(end) == '\n' {
            break;
        }
        end = end + 1;
    }
    proof {
        if end < n {
            assert(s@[end as int] == '\n');
        }
        let e = line_end(s@);
        if exists|i: int| 0 <= i < s@.len() && s@[i] == '\n' {
            assert(s@[e] == '\n' && forall|j: int| 0 <= j < e ==> s@[j] != '\n');
            assert(e == end);
        }
    }
    let mut lo: usize = 0;
    let mut hi: usize = end;
    let ghost line = s@.subrange(0, end as int);
    while lo < hi && (white(s.get_char(lo)) || white(s.get_char(hi - 1)))
        invariant
            0 <= lo <= hi <= end <= n,
            n == s@.len(),
            trimmed(line) == trimmed(s@.subrange(lo as int, hi as int)),
            line == s@.subrange(0, end as int),
        decreases hi - lo,
    {
        let ghost cur = s@.subrange(lo as int, hi as int);
        if white(s.get_char(lo)) {
            assert(cur.drop_first() =~= s@.subrange(lo + 1, hi as int));
            lo = lo + 1;
        } else {
            assert(cur.drop_last() =~= s@.subrange(lo as int, hi - 1));
            hi = hi - 1;
        }
    }
    let t = s.substring_char(lo, hi);
    proof {
        let cur = s@.subrange(lo as int, hi as int);
        assert(trimmed(cur) == cur);
    }
    Some(t.to_owned())
}

} // verus!
