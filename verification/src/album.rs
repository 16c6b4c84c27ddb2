//! Album names taken from the folders an image lives in, for libraries that
//! encode events in the path (like old iPhoto exports).

use vstd::prelude::*;
use crate::date_prefix::{date_stripped, strip_date_prefix};
use crate::path::{components, path_components, pushed};
use crate::path_laws::{is_single_component, lemma_components_pushed};
use vstd::utf8::{decode_utf8, valid_utf8};
use crate::bytes::views;
use crate::text::{
    utf8_str,
    is_ascii_digit, is_unicode_whitespace, lemma_trim_ws_ends, lowercase, str_eq, to_lowercase, trim,
    trim_ws,
};

verus! {

/// Folder names (lowercase) that hold an album's images rather than naming
/// the album, such as iPhoto's `Originals` and `Modified`.
pub open spec fn is_container_name(lower: Seq<char>) -> bool {
    ||| lower == "originals"@
    ||| lower == "original"@
    ||| lower == "modified"@
    ||| lower == "masters"@
    ||| lower == "previews"@
    ||| lower == "thumbnails"@
    ||| lower == "edited"@
}

/// A character of a purely numeric or date-like name.
pub open spec fn is_date_like_char(c: char) -> bool {
    is_ascii_digit(c) || c == '-' || c == '_' || c == '.' || c == ' '
}

/// A name made only of digits and `-`, `_`, `.`, space (the empty name too).
pub open spec fn is_date_like(s: Seq<char>) -> bool {
    forall|i: int| 0 <= i < s.len() ==> is_date_like_char(#[trigger] s[i])
}

/// The album that a single folder name gives: none for a container folder
/// (compared case-insensitively) or a numeric/date folder, otherwise the
/// name without its leading date and surrounding whitespace.
pub open spec fn album_of_name(name: Seq<char>) -> Option<Seq<char>> {
    if is_container_name(lowercase(name)) {
        None
    } else {
        let a = trim_ws(date_stripped(name));
        if is_date_like(a) {
            None
        } else {
            Some(a)
        }
    }
}

/// The album of a folder path given by its components, nearest last: the
/// first album found walking from the nearest folder upwards. A component
/// that is not valid Unicode (`None`) gives no album.
pub open spec fn album_of_components(cs: Seq<Option<Seq<char>>>) -> Option<Seq<char>>
    decreases cs.len(),
{
    if cs.len() == 0 {
        None
    } else {
        let here = match cs.last() {
            Some(name) => album_of_name(name),
            None => None,
        };
        match here {
            Some(a) => Some(a),
            None => album_of_components(cs.drop_last()),
        }
    }
}

/// The album a single component gives (none for one that is not valid
/// Unicode).
pub open spec fn album_of_component(c: Option<Seq<char>>) -> Option<Seq<char>> {
    match c {
        Some(name) => album_of_name(name),
        None => None,
    }
}

/// An album is a non-empty name, not purely numeric or date-like, with no
/// whitespace at either end, and not from a container folder.
pub proof fn lemma_album_of_name_shape(name: Seq<char>)
    ensures
        album_of_name(name) matches Some(a) ==> {
            &&& a.len() > 0
            &&& !is_date_like(a)
            &&& !is_unicode_whitespace(a[0])
            &&& !is_unicode_whitespace(a.last())
            &&& !is_container_name(lowercase(name))
        },
{
    lemma_trim_ws_ends(date_stripped(name));
}

/// The album of a path is the one given by the nearest component that gives
/// one; there is none when no component gives one.
pub proof fn lemma_album_from_nearest(cs: Seq<Option<Seq<char>>>)
    ensures
        match album_of_components(cs) {
            Some(a) => exists|i: int|
                0 <= i < cs.len() && album_of_component(#[trigger] cs[i]) == Some(a) && forall|j: int|
                    i < j < cs.len() ==> album_of_component(#[trigger] cs[j]) is None,
            None => forall|i: int| 0 <= i < cs.len() ==> album_of_component(#[trigger] cs[i]) is None,
        },
    decreases cs.len(),
{
    if cs.len() > 0 {
        let init = cs.drop_last();
        lemma_album_from_nearest(init);
        let n = cs.len() - 1;
        match album_of_component(cs[n]) {
            Some(a) => {
                assert(album_of_components(cs) == Some(a));
                assert(album_of_component(cs[n]) == Some(a));
            },
            None => {
                assert(album_of_components(cs) == album_of_components(init));
                match album_of_components(init) {
                    Some(a) => {
                        let i = choose|i: int|
                            0 <= i < init.len() && album_of_component(#[trigger] init[i]) == Some(a)
                                && forall|j: int|
                                i < j < init.len() ==> album_of_component(#[trigger] init[j]) is None;
                        assert(cs[i] == init[i]);
                        assert forall|j: int| i < j < cs.len() implies album_of_component(
                            #[trigger] cs[j],
                        ) is None by {
                            if j < n {
                                assert(cs[j] == init[j]);
                            }
                        }
                    },
                    None => {
                        assert forall|i: int| 0 <= i < cs.len() implies album_of_component(
                            #[trigger] cs[i],
                        ) is None by {
                            if i < n {
                                assert(cs[i] == init[i]);
                            }
                        }
                    },
                }
            },
        }
    }
}

/// A folder name is skipped as numeric or date-like only when every
/// character of it, once its leading date is stripped and it is trimmed, is
/// a digit, `-`, `_`, `.` or a space. So a name that is not a container
/// folder, and whose stripped and trimmed form has any other character
/// anywhere (`2012-05-01--1st Birthday` gives `1st Birthday`), gives that
/// form as its album; one whose form has none gives no album.
pub proof fn lemma_album_unless_date_like(name: Seq<char>)
    ensures
        ({
            let a = trim_ws(date_stripped(name));
            &&& (!is_container_name(lowercase(name)) && exists|i: int|
                0 <= i < a.len() && !('0' <= #[trigger] a[i] <= '9' || a[i] == '-' || a[i] == '_'
                    || a[i] == '.' || a[i] == ' ')) ==> album_of_name(name) == Some(a)
            &&& (forall|i: int|
                0 <= i < a.len() ==> ('0' <= #[trigger] a[i] <= '9' || a[i] == '-' || a[i] == '_'
                    || a[i] == '.' || a[i] == ' ')) ==> album_of_name(name) is None
        }),
{
    let a = trim_ws(date_stripped(name));
    if exists|i: int|
        0 <= i < a.len() && !('0' <= #[trigger] a[i] <= '9' || a[i] == '-' || a[i] == '_' || a[i]
            == '.' || a[i] == ' ') {
        let i = choose|i: int|
            0 <= i < a.len() && !('0' <= #[trigger] a[i] <= '9' || a[i] == '-' || a[i] == '_'
                || a[i] == '.' || a[i] == ' ');
        assert(!is_date_like_char(a[i]));
        assert(!is_date_like(a));
    }
}

/// Whether a lowercase folder name is one of the container folders.
pub fn is_container_folder(lower: &str) -> (r: bool)
    ensures
        r == is_container_name(lower@),
{
    str_eq(lower, "originals") || str_eq(lower, "original") || str_eq(lower, "modified")
        || str_eq(lower, "masters") || str_eq(lower, "previews") || str_eq(lower, "thumbnails")
        || str_eq(lower, "edited")
}

/// Whether `s` holds only digits and `-`, `_`, `.`, space.
pub fn is_date_like_name(s: &str) -> (r: bool)
    ensures
        r == is_date_like(s@),
{
    let n = s.unicode_len();
    let mut i: usize = 0;
    while i < n
        invariant
            n == s@.len(),
            i <= n,
            forall|k: int| 0 <= k < i ==> is_date_like_char(#[trigger] s@[k]),
        decreases n - i,
    {
        let c = s.get_char(i);
        if !(('0' <= c && c <= '9') || c == '-' || c == '_' || c == '.' || c == ' ') {
            return false;
        }
        i = i + 1;
    }
    true
}

/// The album a single folder name gives, if any.
pub fn album_from_name(name: &str) -> (r: Option<String>)
    ensures
        r.deep_view() == album_of_name(name@),
{
    let lower = to_lowercase(name);
    if is_container_folder(lower.as_str()) {
        return None;
    }
    let a = trim(strip_date_prefix(name));
    if is_date_like_name(a) {
        None
    } else {
        Some(String::from_str(a))
    }
}

/// Derives an album name from the components of the folder an image lives
/// in (nearest last; `None` for a component that is not valid Unicode).
///
/// Walks from the nearest folder upwards, skipping container folders like
/// `Originals` and purely numeric/date folders like `2011`, and strips a
/// leading `YYYY-MM-DD` style date prefix.
pub fn album_from_components(components: &Vec<Option<String>>) -> (r: Option<String>)
    ensures
        r.deep_view() == album_of_components(components.deep_view()),
{
    let ghost cs = components.deep_view();
    let mut i: usize = components.len();
    assert(cs.take(i as int) =~= cs);
    while i > 0
        invariant
            cs == components.deep_view(),
            i <= components.len(),
            album_of_components(cs) == album_of_components(cs.take(i as int)),
        decreases i,
    {
        let ghost pre = cs.take(i as int);
        assert(pre.drop_last() =~= cs.take(i - 1));
        assert(pre.last() == components@[i - 1].deep_view());
        match &components[i - 1] {
            Some(name) => {
                let found = album_from_name(name.as_str());
                if found.is_some() {
                    return found;
                }
            },
            None => {},
        }
        i = i - 1;
    }
    None
}

/// The text of a path component: its characters when it is valid UTF-8.
pub open spec fn component_text(c: Seq<u8>) -> Option<Seq<char>> {
    if valid_utf8(c) {
        Some(decode_utf8(c))
    } else {
        None
    }
}

/// Derives an album name from the folder path `dir` (its bytes): an image in
/// `2011-07-14--Iceland/Originals` gets the album `Iceland`.
///
/// Walks from the nearest folder upwards, skipping container folders like
/// `Originals`, purely numeric/date folders like `2011` and components that
/// are not valid UTF-8, and strips a leading `YYYY-MM-DD` style date prefix.
pub fn album_from_path(dir: &[u8]) -> (r: Option<String>)
    ensures
        r.deep_view() == album_of_components(
            path_components(dir@).map_values(|c: Seq<u8>| component_text(c)),
        ),
{
    let parts = components(dir);
    let ghost texts = path_components(dir@).map_values(|c: Seq<u8>| component_text(c));
    let mut wrapped: Vec<Option<String>> = Vec::new();
    let mut i: usize = 0;
    while i < parts.len()
        invariant
            i <= parts.len(),
            wrapped.len() == i,
            views(parts@) == path_components(dir@),
            texts == path_components(dir@).map_values(|c: Seq<u8>| component_text(c)),
            wrapped.deep_view() =~= texts.take(i as int),
        decreases parts.len() - i,
    {
        let ghost prev = wrapped.deep_view();
        let ghost prev_vec = wrapped@;
        let text = match utf8_str(parts[i].as_slice()) {
            Some(s) => Some(String::from_str(s)),
            None => None,
        };
        assert(views(parts@)[i as int] == parts@[i as int]@);
        assert(text.deep_view() == texts[i as int]);
        wrapped.push(text);
        assert forall|k: int| 0 <= k < i + 1 implies #[trigger] wrapped.deep_view()[k]
            == texts.take(i + 1)[k] by {
            if k < i {
                assert(wrapped@[k] == prev_vec[k]);
                assert(prev[k] == texts.take(i as int)[k]);
            }
        }
        i = i + 1;
    }
    assert(texts.take(parts.len() as int) =~= texts);
    album_from_components(&wrapped)
}

/// Two spellings of the same path (same components) give the same album.
pub proof fn lemma_album_same_path(a: Seq<u8>, b: Seq<u8>)
    requires
        path_components(a) == path_components(b),
    ensures
        album_of_components(path_components(a).map_values(|c: Seq<u8>| component_text(c)))
            == album_of_components(path_components(b).map_values(|c: Seq<u8>| component_text(c))),
{
}

/// A folder that gives no album (a container folder such as `Originals`, a
/// numeric or date folder such as `2019` or `2019-03-10`, or a name that is
/// not valid UTF-8), joined below `dir`, leaves the album of `dir` as it is:
/// `Trips/2019` has the album of `Trips`.
pub proof fn lemma_album_skips_joined_folder(dir: Seq<u8>, name: Seq<u8>)
    requires
        is_single_component(name),
        component_text(name) matches Some(t) ==> (is_container_name(lowercase(t))
            || is_date_like(trim_ws(date_stripped(t)))),
    ensures
        album_of_components(
            path_components(pushed(dir, name)).map_values(|c: Seq<u8>| component_text(c)),
        ) == album_of_components(path_components(dir).map_values(|c: Seq<u8>| component_text(c))),
{
    let f = |c: Seq<u8>| component_text(c);
    lemma_components_pushed(dir, name);
    let cs = path_components(dir).map_values(f);
    let joined = path_components(pushed(dir, name)).map_values(f);
    assert(joined =~= cs.push(component_text(name)));
    assert(joined.drop_last() =~= cs);
    assert(album_of_component(joined.last()) is None);
}

} // verus!
