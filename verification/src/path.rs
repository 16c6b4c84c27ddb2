//! A model of Unix paths as `std::path::Path` reads them: the components of a
//! path, its file name, stem and extension, and the path with another file
//! name. A path is its bytes; two paths are the same path when their
//! components are equal.

use vstd::prelude::*;
use vstd::slice::{slice_subrange, slice_to_vec};
use crate::bytes::{append_bytes, bytes_eq, views};

verus! {

/// The path separator, `/`.
pub const SEPARATOR: u8 = 47;

/// `.`, which marks extensions and the current directory.
pub const DOT: u8 = 46;

/// `_`, which precedes the number of a numbered name.
pub const UNDERSCORE: u8 = 95;

/// The pieces of `p` between `/` separators, empty pieces included.
pub open spec fn segments(p: Seq<u8>) -> Seq<Seq<u8>>
    decreases p.len(),
{
    if p.len() == 0 {
        seq![Seq::<u8>::empty()]
    } else {
        let init = segments(p.drop_last());
        if p.last() == SEPARATOR {
            init.push(Seq::<u8>::empty())
        } else {
            init.update(init.len() - 1, init.last().push(p.last()))
        }
    }
}

/// A piece that stands as a component: neither empty nor `.`.
pub open spec fn is_kept_segment(seg: Seq<u8>) -> bool {
    seg.len() > 0 && seg != seq![DOT]
}

/// The pieces of `segs` that stand as components, in order.
pub open spec fn kept_segments(segs: Seq<Seq<u8>>) -> Seq<Seq<u8>>
    decreases segs.len(),
{
    if segs.len() == 0 {
        Seq::empty()
    } else {
        let init = kept_segments(segs.drop_last());
        if is_kept_segment(segs.last()) {
            init.push(segs.last())
        } else {
            init
        }
    }
}

/// `p` starts at the root.
pub open spec fn has_root(p: Seq<u8>) -> bool {
    p.len() > 0 && p[0] == SEPARATOR
}

/// `p` starts with a `.` component, which is kept only in first place.
pub open spec fn has_leading_cur_dir(p: Seq<u8>) -> bool {
    &&& !has_root(p)
    &&& p.len() > 0
    &&& p[0] == DOT
    &&& (p.len() == 1 || p[1] == SEPARATOR)
}

/// The components of `p`, each as its bytes: `/` for the root, `.` for a
/// leading current directory, then the non-empty pieces other than `.`.
pub open spec fn path_components(p: Seq<u8>) -> Seq<Seq<u8>> {
    let body = kept_segments(segments(p));
    if has_root(p) {
        seq![seq![SEPARATOR]] + body
    } else if has_leading_cur_dir(p) {
        seq![seq![DOT]] + body
    } else {
        body
    }
}

/// Where the pieces after the root or leading `.` begin.
pub open spec fn body_start(p: Seq<u8>) -> int {
    if has_root(p) || has_leading_cur_dir(p) {
        1
    } else {
        0
    }
}

/// The start of the piece that ends at `e`, not before `b`.
pub open spec fn segment_start(p: Seq<u8>, b: int, e: int) -> int
    decreases e - b,
{
    if e <= b {
        b
    } else if p[e - 1] == SEPARATOR {
        e
    } else {
        segment_start(p, b, e - 1)
    }
}

/// The end of `p[..e]` once trailing separators and `.` pieces are dropped.
pub open spec fn trimmed_end(p: Seq<u8>, e: int) -> int
    decreases e,
{
    let b = body_start(p);
    if e <= b {
        e
    } else {
        let k = segment_start(p, b, e);
        if is_kept_segment(p.subrange(k, e)) {
            e
        } else if k > b {
            proof {
                lemma_segment_start_bounds(p, b, e);
            }
            trimmed_end(p, k - 1)
        } else {
            b
        }
    }
}

/// The final component of `p` when it is a name (`Path::file_name`).
pub open spec fn file_name_of(p: Seq<u8>) -> Option<Seq<u8>> {
    let b = body_start(p);
    let e = trimmed_end(p, p.len() as int);
    if e > b {
        let seg = p.subrange(segment_start(p, b, e), e);
        if seg == seq![DOT, DOT] {
            None
        } else {
            Some(seg)
        }
    } else {
        None
    }
}

/// The length of the parent of `p` (`Path::parent`), for a path with a file name.
pub open spec fn parent_len(p: Seq<u8>) -> int {
    let b = body_start(p);
    let e = trimmed_end(p, p.len() as int);
    let k = segment_start(p, b, e);
    trimmed_end(p, if k > b { k - 1 } else { b })
}

/// `base` with `name` appended (`PathBuf::push`): an absolute `name` replaces
/// `base`; otherwise a separator is put between them where `base` lacks one.
pub open spec fn pushed(base: Seq<u8>, name: Seq<u8>) -> Seq<u8> {
    if name.len() > 0 && name[0] == SEPARATOR {
        name
    } else if base.len() > 0 && base.last() != SEPARATOR {
        base + seq![SEPARATOR] + name
    } else {
        base + name
    }
}

/// `p` with its file name replaced by `name` (`Path::with_file_name`); a path
/// without a file name gets `name` appended.
pub open spec fn with_file_name_of(p: Seq<u8>, name: Seq<u8>) -> Seq<u8> {
    match file_name_of(p) {
        Some(_) => pushed(p.take(parent_len(p)), name),
        None => pushed(p, name),
    }
}

/// The index of the last `.` in `s`.
pub open spec fn last_dot(s: Seq<u8>) -> Option<int>
    decreases s.len(),
{
    if s.len() == 0 {
        None
    } else if s.last() == DOT {
        Some(s.len() - 1)
    } else {
        last_dot(s.drop_last())
    }
}

/// The stem of a file name: the part before its last `.`, unless that `.`
/// is the first character (then the whole name).
pub open spec fn stem_of(name: Seq<u8>) -> Seq<u8> {
    if name == seq![DOT, DOT] {
        name
    } else {
        match last_dot(name) {
            Some(i) => if i > 0 {
                name.take(i)
            } else {
                name
            },
            None => name,
        }
    }
}

/// The extension of a file name: the part after its last `.`, where that
/// `.` is not the first character.
pub open spec fn extension_of(name: Seq<u8>) -> Option<Seq<u8>> {
    if name == seq![DOT, DOT] {
        None
    } else {
        match last_dot(name) {
            Some(i) => if i > 0 {
                Some(name.skip(i + 1))
            } else {
                None
            },
            None => None,
        }
    }
}

pub proof fn lemma_segment_start_bounds(p: Seq<u8>, b: int, e: int)
    requires
        b <= e,
    ensures
        b <= segment_start(p, b, e) <= e,
    decreases e - b,
{
    if e > b && p[e - 1] != SEPARATOR {
        lemma_segment_start_bounds(p, b, e - 1);
    }
}

fn is_kept_exec(seg: &[u8]) -> (r: bool)
    ensures
        r == is_kept_segment(seg@),
{
    let n = seg.len();
    if n == 0 {
        return false;
    }
    if n == 1 && seg[0] == DOT {
        assert(seg@ =~= seq![DOT]);
        return false;
    }
    true
}

fn has_leading_cur_dir_exec(p: &[u8], len: usize) -> (r: bool)
    requires
        len == p@.len(),
    ensures
        r == has_leading_cur_dir(p@),
{
    len > 0 && p[0] != SEPARATOR && p[0] == DOT && (len == 1 || p[1] == SEPARATOR)
}

fn body_start_exec(p: &[u8], len: usize) -> (r: usize)
    requires
        len == p@.len(),
    ensures
        r as int == body_start(p@),
        r <= len,
{
    if (len > 0 && p[0] == SEPARATOR) || has_leading_cur_dir_exec(p, len) {
        1
    } else {
        0
    }
}

/// The components of `p` (`Path::components`), each as its bytes.
pub fn components(p: &[u8]) -> (r: Vec<Vec<u8>>)
    ensures
        views(r@) == path_components(p@),
{
    let len = p.len();
    let mut out: Vec<Vec<u8>> = Vec::new();
    let ghost head: Seq<Seq<u8>> = Seq::empty();
    if len > 0 && p[0] == SEPARATOR {
        let mut root: Vec<u8> = Vec::new();
        root.push(SEPARATOR);
        assert(root@ =~= seq![SEPARATOR]);
        out.push(root);
        proof {
            head = seq![seq![SEPARATOR]];
        }
        assert(views(out@) =~= head);
    } else if has_leading_cur_dir_exec(p, len) {
        let mut cur: Vec<u8> = Vec::new();
        cur.push(DOT);
        assert(cur@ =~= seq![DOT]);
        out.push(cur);
        proof {
            head = seq![seq![DOT]];
        }
        assert(views(out@) =~= head);
    } else {
        assert(views(out@) =~= head);
    }
    let mut start: usize = 0;
    let mut i: usize = 0;
    assert(p@.take(0) =~= Seq::<u8>::empty());
    assert(p@.subrange(0, 0) =~= Seq::<u8>::empty());
    while i < len
        invariant
            len == p@.len(),
            start <= i <= len,
            segments(p@.take(i as int)).len() >= 1,
            segments(p@.take(i as int)).last() == p@.subrange(start as int, i as int),
            views(out@) == head + kept_segments(segments(p@.take(i as int)).drop_last()),
        decreases len - i,
    {
        let ghost before = p@.take(i as int);
        let ghost segs = segments(before);
        let c = p[i];
        assert(p@.take(i + 1).drop_last() =~= before);
        assert(p@.take(i + 1).last() == c);
        if c == SEPARATOR {
            let seg = slice_subrange(p, start, i);
            let ghost prev = views(out@);
            if is_kept_exec(seg) {
                out.push(slice_to_vec(seg));
                assert(views(out@) =~= prev.push(seg@));
            }
            proof {
                let nsegs = segments(p@.take(i + 1));
                assert(nsegs == segs.push(Seq::<u8>::empty()));
                assert(nsegs.drop_last() =~= segs);
                assert(segs =~= segs.drop_last().push(segs.last()));
                assert(p@.subrange(i + 1, i + 1) =~= Seq::<u8>::empty());
            }
            start = i + 1;
        } else {
            proof {
                let nsegs = segments(p@.take(i + 1));
                assert(nsegs == segs.update(segs.len() - 1, segs.last().push(c)));
                assert(nsegs.drop_last() =~= segs.drop_last());
                assert(p@.subrange(start as int, i + 1) =~= p@.subrange(start as int, i as int).push(c));
            }
        }
        i = i + 1;
    }
    let last = slice_subrange(p, start, len);
    let ghost prev = views(out@);
    proof {
        let segs = segments(p@.take(len as int));
        assert(p@.take(len as int) =~= p@);
        assert(segs =~= segs.drop_last().push(segs.last()));
    }
    if is_kept_exec(last) {
        out.push(slice_to_vec(last));
        assert(views(out@) =~= prev.push(last@));
    }
    proof {
        let b = kept_segments(segments(p@));
        if has_root(p@) {
            assert(head == seq![seq![SEPARATOR]]);
        } else if has_leading_cur_dir(p@) {
            assert(head == seq![seq![DOT]]);
        } else {
            assert(head =~= Seq::<Seq<u8>>::empty());
            assert(head + b =~= b);
        }
    }
    out
}

fn segment_start_exec(p: &[u8], len: usize, b: usize, e: usize) -> (r: usize)
    requires
        len == p@.len(),
        b <= e <= len,
    ensures
        r as int == segment_start(p@, b as int, e as int),
        b <= r <= e,
{
    let mut k: usize = e;
    while k > b && p[k - 1] != SEPARATOR
        invariant
            len == p@.len(),
            b <= k <= e <= len,
            segment_start(p@, b as int, e as int) == segment_start(p@, b as int, k as int),
        decreases k,
    {
        k = k - 1;
    }
    k
}

fn trimmed_end_exec(p: &[u8], len: usize, b: usize, e0: usize) -> (r: usize)
    requires
        len == p@.len(),
        b as int == body_start(p@),
        b <= e0 <= len,
    ensures
        r as int == trimmed_end(p@, e0 as int),
        b <= r <= e0,
{
    let mut e: usize = e0;
    loop
        invariant
            len == p@.len(),
            b as int == body_start(p@),
            b <= e <= e0 <= len,
            trimmed_end(p@, e0 as int) == trimmed_end(p@, e as int),
        decreases e,
    {
        if e <= b {
            return e;
        }
        let k = segment_start_exec(p, len, b, e);
        let seg = slice_subrange(p, k, e);
        if is_kept_exec(seg) {
            return e;
        }
        if k > b {
            e = k - 1;
        } else {
            return b;
        }
    }
}

fn is_dot_dot(s: &[u8]) -> (r: bool)
    ensures
        r == (s@ == seq![DOT, DOT]),
{
    let n = s.len();
    if n == 2 && s[0] == DOT && s[1] == DOT {
        assert(s@ =~= seq![DOT, DOT]);
        true
    } else {
        false
    }
}

/// The final component of `p` when it is a name (`Path::file_name`).
pub fn file_name(p: &[u8]) -> (r: Option<&[u8]>)
    ensures
        match r {
            Some(n) => file_name_of(p@) == Some(n@),
            None => file_name_of(p@) is None,
        },
{
    let len = p.len();
    let b = body_start_exec(p, len);
    let e = trimmed_end_exec(p, len, b, len);
    if e > b {
        let k = segment_start_exec(p, len, b, e);
        let seg = slice_subrange(p, k, e);
        if is_dot_dot(seg) {
            None
        } else {
            Some(seg)
        }
    } else {
        None
    }
}

fn parent_len_exec(p: &[u8], len: usize) -> (r: usize)
    requires
        len == p@.len(),
    ensures
        r as int == parent_len(p@),
        r <= len,
{
    let b = body_start_exec(p, len);
    let e = trimmed_end_exec(p, len, b, len);
    let k = segment_start_exec(p, len, b, e);
    let e2 = if k > b {
        k - 1
    } else {
        b
    };
    trimmed_end_exec(p, len, b, e2)
}

/// `base` with `name` appended (`PathBuf::push`).
pub fn push_name(base: &[u8], name: &[u8]) -> (r: Vec<u8>)
    ensures
        r@ == pushed(base@, name@),
{
    let nlen = name.len();
    let blen = base.len();
    if nlen > 0 && name[0] == SEPARATOR {
        slice_to_vec(name)
    } else if blen > 0 && base[blen - 1] != SEPARATOR {
        let mut r = slice_to_vec(base);
        r.push(SEPARATOR);
        append_bytes(&mut r, name);
        r
    } else {
        let mut r = slice_to_vec(base);
        append_bytes(&mut r, name);
        r
    }
}

/// `p` with its file name replaced by `name` (`Path::with_file_name`).
pub fn with_file_name(p: &[u8], name: &[u8]) -> (r: Vec<u8>)
    ensures
        r@ == with_file_name_of(p@, name@),
{
    match file_name(p) {
        Some(_) => {
            let len = p.len();
            let n = parent_len_exec(p, len);
            let parent = slice_subrange(p, 0, n);
            assert(parent@ =~= p@.take(n as int));
            push_name(parent, name)
        },
        None => push_name(p, name),
    }
}

fn last_dot_exec(s: &[u8]) -> (r: Option<usize>)
    ensures
        match r {
            Some(i) => last_dot(s@) == Some(i as int) && i < s@.len(),
            None => last_dot(s@) is None,
        },
{
    let n = s.len();
    let mut i: usize = n;
    assert(s@.take(n as int) =~= s@);
    while i > 0
        invariant
            n == s@.len(),
            i <= n,
            last_dot(s@) == last_dot(s@.take(i as int)),
        decreases i,
    {
        assert(s@.take(i as int).drop_last() =~= s@.take(i - 1));
        if s[i - 1] == DOT {
            return Some(i - 1);
        }
        i = i - 1;
    }
    None
}

/// The stem of a file name (as `Path::file_stem` splits it).
pub fn file_stem_of(name: &[u8]) -> (r: &[u8])
    ensures
        r@ == stem_of(name@),
{
    if is_dot_dot(name) {
        return name;
    }
    match last_dot_exec(name) {
        Some(i) => if i > 0 {
            let r = slice_subrange(name, 0, i);
            assert(r@ =~= name@.take(i as int));
            r
        } else {
            name
        },
        None => name,
    }
}

/// The extension of a file name (as `Path::extension` splits it).
pub fn extension_of_name(name: &[u8]) -> (r: Option<&[u8]>)
    ensures
        match r {
            Some(e) => extension_of(name@) == Some(e@),
            None => extension_of(name@) is None,
        },
{
    if is_dot_dot(name) {
        return None;
    }
    match last_dot_exec(name) {
        Some(i) => if i > 0 {
            let n = name.len();
            let r = slice_subrange(name, i + 1, n);
            assert(r@ =~= name@.skip(i + 1));
            Some(r)
        } else {
            None
        },
        None => None,
    }
}

/// Whether `a` and `b` name the same path: their components are equal
/// (`Path == Path`).
pub fn paths_equal(a: &[u8], b: &[u8]) -> (r: bool)
    ensures
        r == (path_components(a@) == path_components(b@)),
{
    let ca = components(a);
    let cb = components(b);
    if ca.len() != cb.len() {
        assert(views(ca@).len() != views(cb@).len());
        return false;
    }
    let mut i: usize = 0;
    while i < ca.len()
        invariant
            ca.len() == cb.len(),
            views(ca@) == path_components(a@),
            views(cb@) == path_components(b@),
            i <= ca.len(),
            forall|k: int| 0 <= k < i ==> views(ca@)[k] == views(cb@)[k],
        decreases ca.len() - i,
    {
        assert(views(ca@)[i as int] == ca@[i as int]@);
        assert(views(cb@)[i as int] == cb@[i as int]@);
        if !bytes_eq(ca[i].as_slice(), cb[i].as_slice()) {
            assert(views(ca@)[i as int] != views(cb@)[i as int]);
            return false;
        }
        i = i + 1;
    }
    assert(views(ca@) =~= views(cb@));
    true
}

} // verus!
