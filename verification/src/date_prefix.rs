//! Leading dates in folder names: `YYYY-MM-DD`, `YYYY_MM_DD`, `YYYY.MM.DD`
//! or `YYYYMMDD`, followed by any run of separators.

use vstd::prelude::*;
use crate::text::is_ascii_digit;

verus! {

/// A separator allowed between the parts of a date.
pub open spec fn is_date_separator(c: char) -> bool {
    c == '-' || c == '_' || c == '.'
}

/// A character removed after a stripped date.
pub open spec fn is_date_filler(c: char) -> bool {
    is_date_separator(c) || c == ' '
}

/// `s[i..i + w]` exists and holds only ASCII digits.
pub open spec fn digits_at(s: Seq<char>, i: int, w: int) -> bool {
    &&& 0 <= i
    &&& i + w <= s.len()
    &&& forall|k: int| i <= k < i + w ==> is_ascii_digit(#[trigger] s[k])
}

/// The index after an optional date separator at `i`.
pub open spec fn after_separator(s: Seq<char>, i: int) -> int {
    if 0 <= i < s.len() && is_date_separator(s[i]) {
        i + 1
    } else {
        i
    }
}

/// The length of the leading date of `s`: four digits, then two, then two,
/// each group but the first optionally preceded by one separator.
pub open spec fn date_prefix_len(s: Seq<char>) -> Option<int> {
    if !digits_at(s, 0, 4) {
        None
    } else {
        let m = after_separator(s, 4);
        if !digits_at(s, m, 2) {
            None
        } else {
            let d = after_separator(s, m + 2);
            if !digits_at(s, d, 2) {
                None
            } else {
                Some(d + 2)
            }
        }
    }
}

/// `s` without its leading run of date fillers.
pub open spec fn trim_start_fillers(s: Seq<char>) -> Seq<char>
    decreases s.len(),
{
    if s.len() > 0 && is_date_filler(s[0]) {
        trim_start_fillers(s.drop_first())
    } else {
        s
    }
}

/// `s` with a leading date and the fillers after it removed; `s` itself when
/// it does not start with a date.
pub open spec fn date_stripped(s: Seq<char>) -> Seq<char> {
    match date_prefix_len(s) {
        Some(n) => trim_start_fillers(s.skip(n)),
        None => s,
    }
}

fn is_digit_char(c: char) -> (r: bool)
    ensures
        r == is_ascii_digit(c),
{
    '0' <= c && c <= '9'
}

fn is_separator_char(c: char) -> (r: bool)
    ensures
        r == is_date_separator(c),
{
    c == '-' || c == '_' || c == '.'
}

fn is_filler_char(c: char) -> (r: bool)
    ensures
        r == is_date_filler(c),
{
    c == '-' || c == '_' || c == '.' || c == ' '
}

fn digits_at_exec(s: &str, len: usize, i: usize, w: usize) -> (r: bool)
    requires
        len == s@.len(),
    ensures
        r == digits_at(s@, i as int, w as int),
{
    if i > len || w > len - i {
        return false;
    }
    let end = i + w;
    let mut k: usize = i;
    while k < end
        invariant
            len == s@.len(),
            end == i + w,
            end <= len,
            i <= k <= end,
            forall|m: int| i <= m < k ==> is_ascii_digit(#[trigger] s@[m]),
        decreases end - k,
    {
        if !is_digit_char(s.get_char(k)) {
            return false;
        }
        k = k + 1;
    }
    true
}

fn after_separator_exec(s: &str, len: usize, i: usize) -> (r: usize)
    requires
        len == s@.len(),
        i <= len,
    ensures
        r as int == after_separator(s@, i as int),
        r <= len,
{
    if i < len && is_separator_char(s.get_char(i)) {
        i + 1
    } else {
        i
    }
}

proof fn lemma_trim_fillers_skip(s: Seq<char>, i: int, j: int)
    requires
        0 <= i <= j <= s.len(),
        forall|k: int| i <= k < j ==> is_date_filler(#[trigger] s[k]),
    ensures
        trim_start_fillers(s.skip(i)) == trim_start_fillers(s.skip(j)),
    decreases j - i,
{
    if i < j {
        assert(s.skip(i).drop_first() =~= s.skip(i + 1));
        assert(s.skip(i)[0] == s[i]);
        lemma_trim_fillers_skip(s, i + 1, j);
    }
}

proof fn lemma_trim_fillers_suffix(s: Seq<char>)
    ensures
        trim_start_fillers(s).len() <= s.len(),
        trim_start_fillers(s) == s.skip(s.len() - trim_start_fillers(s).len()),
        forall|i: int|
            0 <= i < s.len() - trim_start_fillers(s).len() ==> is_date_filler(#[trigger] s[i]),
    decreases s.len(),
{
    if s.len() > 0 && is_date_filler(s[0]) {
        let t = s.drop_first();
        lemma_trim_fillers_suffix(t);
        assert(t.skip(t.len() - trim_start_fillers(t).len()) =~= s.skip(
            s.len() - trim_start_fillers(s).len(),
        ));
        assert forall|i: int| 0 <= i < s.len() - trim_start_fillers(s).len() implies is_date_filler(
            #[trigger] s[i],
        ) by {
            if i > 0 {
                assert(s[i] == t[i - 1]);
            }
        }
    } else {
        assert(s.skip(0) =~= s);
    }
}

/// Stripping a date prefix removes a leading run of digits, date separators
/// and spaces, and keeps the rest of the name as it is.
pub proof fn lemma_date_stripped_is_suffix(s: Seq<char>)
    ensures
        date_stripped(s).len() <= s.len(),
        date_stripped(s) == s.skip(s.len() - date_stripped(s).len()),
        forall|i: int|
            0 <= i < s.len() - date_stripped(s).len() ==> is_ascii_digit(#[trigger] s[i])
                || is_date_filler(s[i]),
{
    match date_prefix_len(s) {
        Some(n) => {
            let t = s.skip(n);
            lemma_trim_fillers_suffix(t);
            let d = trim_start_fillers(t);
            assert(t.skip(t.len() - d.len()) =~= s.skip(s.len() - d.len()));
            assert forall|i: int| 0 <= i < s.len() - d.len() implies is_ascii_digit(#[trigger] s[i])
                || is_date_filler(s[i]) by {
                if i >= n {
                    assert(s[i] == t[i - n]);
                }
            }
        },
        None => {
            assert(s.skip(0) =~= s);
        },
    }
}

/// One of the characters dropped after a date: `-`, `_`, `.` or a space.
pub open spec fn is_dash_underscore_dot_space(c: char) -> bool {
    c == '-' || c == '_' || c == '.' || c == ' '
}

/// A leading date is four digits, then two, then two, with at most one `-`,
/// `_` or `.` before each later group: 8 to 10 characters, all digits or
/// such separators, starting with four digits.
pub proof fn lemma_date_prefix_shape(s: Seq<char>)
    ensures
        date_prefix_len(s) matches Some(n) ==> {
            &&& 8 <= n <= 10
            &&& n <= s.len()
            &&& forall|i: int| 0 <= i < 4 ==> '0' <= #[trigger] s[i] <= '9'
            &&& forall|i: int|
                0 <= i < n ==> ('0' <= #[trigger] s[i] <= '9' || s[i] == '-' || s[i] == '_'
                    || s[i] == '.')
        },
{
    if let Some(n) = date_prefix_len(s) {
        let m = after_separator(s, 4);
        let d = after_separator(s, m + 2);
        assert forall|i: int|
            0 <= i < n implies ('0' <= #[trigger] s[i] <= '9' || s[i] == '-' || s[i] == '_'
                || s[i] == '.') by {
            if i < 4 {
                assert(is_ascii_digit(s[i]));
            } else if m <= i < m + 2 {
                assert(is_ascii_digit(s[i]));
            } else if d <= i < d + 2 {
                assert(is_ascii_digit(s[i]));
            }
        }
        assert forall|i: int| 0 <= i < 4 implies '0' <= #[trigger] s[i] <= '9' by {
            assert(is_ascii_digit(s[i]));
        }
    }
}

/// After a leading date, exactly the run of `-`, `_`, `.` and spaces that
/// follows it is dropped, and the rest of the name is kept as it is: the
/// result is what follows the date with that run removed, so it does not
/// start with one of those characters (a digit after them stays:
/// `2015-06-20 30th Birthday` gives `30th Birthday`). A name that does not
/// start with a date is kept whole.
pub proof fn lemma_date_stripped_drops_separators(s: Seq<char>)
    ensures
        date_prefix_len(s) is None ==> date_stripped(s) == s,
        date_prefix_len(s) matches Some(n) ==> {
            let t = s.skip(n);
            let r = date_stripped(s);
            &&& r.len() <= t.len()
            &&& r == t.skip(t.len() - r.len())
            &&& forall|i: int|
                0 <= i < t.len() - r.len() ==> is_dash_underscore_dot_space(#[trigger] t[i])
            &&& r.len() > 0 ==> !is_dash_underscore_dot_space(r[0])
        },
{
    if let Some(n) = date_prefix_len(s) {
        let t = s.skip(n);
        lemma_trim_fillers_suffix(t);
        lemma_trim_fillers_shape(t);
        assert forall|i: int|
            0 <= i < t.len() - date_stripped(s).len() implies is_dash_underscore_dot_space(
            #[trigger] t[i],
        ) by {
            assert(is_date_filler(t[i]));
        }
    }
}

proof fn lemma_trim_fillers_shape(s: Seq<char>)
    ensures
        trim_start_fillers(s).len() > 0 ==> !is_date_filler(trim_start_fillers(s)[0]),
    decreases s.len(),
{
    if s.len() > 0 && is_date_filler(s[0]) {
        lemma_trim_fillers_shape(s.drop_first());
    }
}

/// Strips a leading `YYYY-MM-DD`, `YYYY_MM_DD`, `YYYY.MM.DD` or `YYYYMMDD`
/// date and any separators (`-`, `_`, `.`, space) following it. A name that
/// does not start with such a date comes back unchanged.
pub fn strip_date_prefix(name: &str) -> (r: &str)
    ensures
        r@ == date_stripped(name@),
{
    let len = name.unicode_len();
    if !digits_at_exec(name, len, 0, 4) {
        return name;
    }
    let m = after_separator_exec(name, len, 4);
    if !digits_at_exec(name, len, m, 2) {
        return name;
    }
    let d = after_separator_exec(name, len, m + 2);
    if !digits_at_exec(name, len, d, 2) {
        return name;
    }
    let n = d + 2;
    let mut j: usize = n;
    while j < len && is_filler_char(name.get_char(j))
        invariant
            len == name@.len(),
            n <= j <= len,
            forall|k: int| n <= k < j ==> is_date_filler(#[trigger] name@[k]),
        decreases len - j,
    {
        j = j + 1;
    }
    proof {
        lemma_trim_fillers_skip(name@, n as int, j as int);
        let rest = name@.skip(j as int);
        if rest.len() > 0 {
            assert(rest[0] == name@[j as int]);
        }
        assert(trim_start_fillers(rest) == rest);
        assert(rest =~= name@.subrange(j as int, len as int));
    }
    name.substring_char(j, len)
}

} // verus!
