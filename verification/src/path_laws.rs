//! What the component model says of joined paths and of file names.

use vstd::prelude::*;
use crate::path::{
    body_start, file_name_of, has_leading_cur_dir, has_root, is_kept_segment, kept_segments,
    path_components, pushed, segment_start, segments, trimmed_end, DOT, SEPARATOR,
};

verus! {

/// `s` holds no separator.
pub open spec fn no_separator(s: Seq<u8>) -> bool {
    forall|i: int| 0 <= i < s.len() ==> s[i] != SEPARATOR
}

/// A name that stands as one component when joined to a path: non-empty,
/// without a separator, and not `.`.
pub open spec fn is_single_component(name: Seq<u8>) -> bool {
    &&& is_kept_segment(name)
    &&& no_separator(name)
}

proof fn lemma_segments_nonempty(p: Seq<u8>)
    ensures
        segments(p).len() >= 1,
    decreases p.len(),
{
    if p.len() > 0 {
        lemma_segments_nonempty(p.drop_last());
    }
}

proof fn lemma_segments_no_separator(x: Seq<u8>)
    requires
        no_separator(x),
    ensures
        segments(x) == seq![x],
    decreases x.len(),
{
    if x.len() > 0 {
        lemma_segments_no_separator(x.drop_last());
        assert(x.drop_last().push(x.last()) =~= x);
        assert(x.last() != SEPARATOR);
        assert(seq![x.drop_last()].update(0, x.drop_last().push(x.last())) =~= seq![x]);
    } else {
        assert(x =~= Seq::<u8>::empty());
    }
}

proof fn lemma_segments_join(a: Seq<u8>, b: Seq<u8>)
    ensures
        segments(a + seq![SEPARATOR] + b) == segments(a) + segments(b),
    decreases b.len(),
{
    let x = a + seq![SEPARATOR];
    if b.len() == 0 {
        assert(x + b =~= x);
        assert(x.drop_last() =~= a);
        assert(segments(a) + segments(b) =~= segments(a).push(Seq::<u8>::empty()));
    } else {
        let b0 = b.drop_last();
        lemma_segments_join(a, b0);
        lemma_segments_nonempty(b0);
        assert((x + b).drop_last() =~= x + b0);
        assert((x + b).last() == b.last());
        let sa = segments(a);
        let sb = segments(b0);
        if b.last() == SEPARATOR {
            assert((sa + sb).push(Seq::<u8>::empty()) =~= sa + sb.push(Seq::<u8>::empty()));
        } else {
            let s = sa + sb;
            assert(s.update(s.len() - 1, s.last().push(b.last())) =~= sa + sb.update(
                sb.len() - 1,
                sb.last().push(b.last()),
            ));
        }
    }
}

proof fn lemma_kept_single(x: Seq<u8>)
    ensures
        kept_segments(seq![x]) == (if is_kept_segment(x) {
            seq![x]
        } else {
            Seq::<Seq<u8>>::empty()
        }),
{
    let s = seq![x];
    assert(s.drop_last() =~= Seq::<Seq<u8>>::empty());
    assert(s.last() == x);
    assert(kept_segments(s.drop_last()) == Seq::<Seq<u8>>::empty());
    if is_kept_segment(x) {
        assert(Seq::<Seq<u8>>::empty().push(x) =~= seq![x]);
    }
}

proof fn lemma_kept_concat(s: Seq<Seq<u8>>, t: Seq<Seq<u8>>)
    ensures
        kept_segments(s + t) == kept_segments(s) + kept_segments(t),
    decreases t.len(),
{
    if t.len() == 0 {
        assert(s + t =~= s);
        assert(kept_segments(s) + kept_segments(t) =~= kept_segments(s));
    } else {
        lemma_kept_concat(s, t.drop_last());
        assert((s + t).drop_last() =~= s + t.drop_last());
        if is_kept_segment(t.last()) {
            assert(kept_segments(s) + kept_segments(t.drop_last()).push(t.last()) =~= (
            kept_segments(s) + kept_segments(t.drop_last())).push(t.last()));
        }
    }
}

/// Joining a single-component name to a path (`PathBuf::push`) appends that
/// name to the path's components.
pub proof fn lemma_components_pushed(base: Seq<u8>, name: Seq<u8>)
    requires
        is_single_component(name),
    ensures
        path_components(pushed(base, name)) == path_components(base).push(name),
{
    let p = pushed(base, name);
    lemma_segments_no_separator(name);
    lemma_kept_single(name);
    if base.len() == 0 {
        assert(p == name);
        assert(segments(base) == seq![Seq::<u8>::empty()]);
        lemma_kept_single(Seq::<u8>::empty());
        assert(!has_root(name));
        if has_leading_cur_dir(name) {
            if name.len() == 1 {
                assert(name =~= seq![DOT]);
            }
        }
        assert(path_components(base) =~= Seq::<Seq<u8>>::empty());
        assert(path_components(p) =~= path_components(base).push(name));
    } else if base.last() != SEPARATOR {
        assert(p == base + seq![SEPARATOR] + name);
        lemma_segments_join(base, name);
        lemma_kept_concat(segments(base), seq![name]);
        assert(p[0] == base[0]);
        if base.len() >= 2 {
            assert(p[1] == base[1]);
        } else {
            assert(p[1] == SEPARATOR);
        }
        assert(has_root(p) == has_root(base));
        assert(has_leading_cur_dir(p) == has_leading_cur_dir(base));
        let body = kept_segments(segments(base));
        assert(seq![seq![SEPARATOR]] + body.push(name) =~= (seq![seq![SEPARATOR]] + body).push(name));
        assert(seq![seq![DOT]] + body.push(name) =~= (seq![seq![DOT]] + body).push(name));
    } else {
        let b0 = base.drop_last();
        assert(base =~= b0 + seq![SEPARATOR] + Seq::<u8>::empty());
        assert(p == base + name);
        assert(p =~= b0 + seq![SEPARATOR] + name);
        lemma_segments_join(b0, name);
        lemma_segments_join(b0, Seq::<u8>::empty());
        lemma_kept_concat(segments(b0), seq![name]);
        lemma_kept_concat(segments(b0), seq![Seq::<u8>::empty()]);
        assert(segments(Seq::<u8>::empty()) == seq![Seq::<u8>::empty()]);
        lemma_kept_single(Seq::<u8>::empty());
        assert(kept_segments(segments(b0)) + Seq::<Seq<u8>>::empty() =~= kept_segments(
            segments(b0),
        ));
        assert(p[0] == base[0]);
        if base.len() >= 2 {
            assert(p[1] == base[1]);
        }
        assert(has_root(p) == has_root(base));
        assert(has_leading_cur_dir(p) == has_leading_cur_dir(base));
        let body = kept_segments(segments(base));
        assert(seq![seq![SEPARATOR]] + body.push(name) =~= (seq![seq![SEPARATOR]] + body).push(name));
        assert(seq![seq![DOT]] + body.push(name) =~= (seq![seq![DOT]] + body).push(name));
    }
}

proof fn lemma_segment_start_facts(p: Seq<u8>, b: int, e: int)
    requires
        0 <= b <= e <= p.len(),
    ensures
        b <= segment_start(p, b, e) <= e,
        forall|i: int| segment_start(p, b, e) <= i < e ==> p[i] != SEPARATOR,
        segment_start(p, b, e) > b ==> p[segment_start(p, b, e) - 1] == SEPARATOR,
    decreases e - b,
{
    if e > b && p[e - 1] != SEPARATOR {
        lemma_segment_start_facts(p, b, e - 1);
    }
}

proof fn lemma_body_start_bound(p: Seq<u8>)
    ensures
        0 <= body_start(p) <= p.len(),
        body_start(p) == 1 ==> (p[0] == SEPARATOR || (p[0] == DOT && (p.len() == 1 || p[1]
            == SEPARATOR))),
{
}

/// The pieces of `p[..e]` that stand as components are those of
/// `p[..trimmed_end(p, e)]`, whose last piece, if any past the root or
/// leading `.`, stands as a component.
proof fn lemma_trimmed_end_facts(p: Seq<u8>, e: int)
    requires
        body_start(p) <= e <= p.len(),
    ensures
        body_start(p) <= trimmed_end(p, e) <= e,
        trimmed_end(p, e) > body_start(p) ==> is_kept_segment(
            p.subrange(segment_start(p, body_start(p), trimmed_end(p, e)), trimmed_end(p, e)),
        ),
        kept_segments(segments(p.take(e))) == kept_segments(segments(p.take(trimmed_end(p, e)))),
    decreases e,
{
    let b = body_start(p);
    lemma_body_start_bound(p);
    if e > b {
        let k = segment_start(p, b, e);
        lemma_segment_start_facts(p, b, e);
        let seg = p.subrange(k, e);
        if !is_kept_segment(seg) {
            lemma_segments_no_separator(seg);
            lemma_kept_single(seg);
            if k > b {
                lemma_trimmed_end_facts(p, k - 1);
                assert(p.take(e) =~= p.take(k - 1) + seq![SEPARATOR] + seg);
                lemma_segments_join(p.take(k - 1), seg);
                lemma_kept_concat(segments(p.take(k - 1)), seq![seg]);
                assert(kept_segments(segments(p.take(k - 1))) + Seq::<Seq<u8>>::empty()
                    =~= kept_segments(segments(p.take(k - 1))));
            } else {
                if b == 0 {
                    assert(p.take(e) =~= seg);
                    assert(p.take(0) =~= Seq::<u8>::empty());
                    lemma_segments_no_separator(Seq::<u8>::empty());
                    lemma_kept_single(Seq::<u8>::empty());
                } else if p[0] == SEPARATOR {
                    assert(p.take(e) =~= Seq::<u8>::empty() + seq![SEPARATOR] + seg);
                    assert(p.take(1) =~= Seq::<u8>::empty() + seq![SEPARATOR] + Seq::<u8>::empty());
                    lemma_segments_join(Seq::<u8>::empty(), seg);
                    lemma_segments_join(Seq::<u8>::empty(), Seq::<u8>::empty());
                    lemma_segments_no_separator(Seq::<u8>::empty());
                    lemma_kept_single(Seq::<u8>::empty());
                    lemma_kept_concat(seq![Seq::<u8>::empty()], seq![seg]);
                    lemma_kept_concat(seq![Seq::<u8>::empty()], seq![Seq::<u8>::empty()]);
                    assert(Seq::<Seq<u8>>::empty() + Seq::<Seq<u8>>::empty()
                        =~= Seq::<Seq<u8>>::empty());
                } else {
                    assert(p[1] == SEPARATOR);
                    assert(false);
                }
            }
        }
    }
}

/// The file name of a path is its last component; it stands as one
/// component (non-empty, without a separator, not `.`).
pub proof fn lemma_file_name_is_last_component(p: Seq<u8>)
    requires
        file_name_of(p) is Some,
    ensures
        path_components(p).len() > 0,
        path_components(p).last() == file_name_of(p)->0,
        is_single_component(file_name_of(p)->0),
{
    let b = body_start(p);
    lemma_body_start_bound(p);
    let e = trimmed_end(p, p.len() as int);
    lemma_trimmed_end_facts(p, p.len() as int);
    let k = segment_start(p, b, e);
    lemma_segment_start_facts(p, b, e);
    let f = p.subrange(k, e);
    assert(f == file_name_of(p)->0);
    assert(p.take(p.len() as int) =~= p);
    lemma_segments_no_separator(f);
    lemma_kept_single(f);
    let body = kept_segments(segments(p));
    if k > b {
        assert(p.take(e) =~= p.take(k - 1) + seq![SEPARATOR] + f);
        lemma_segments_join(p.take(k - 1), f);
        lemma_kept_concat(segments(p.take(k - 1)), seq![f]);
    } else if b == 0 {
        assert(p.take(e) =~= f);
        assert(kept_segments(segments(p.take(e))) == seq![f]);
    } else if p[0] == SEPARATOR {
        assert(p.take(e) =~= Seq::<u8>::empty() + seq![SEPARATOR] + f);
        lemma_segments_join(Seq::<u8>::empty(), f);
        lemma_segments_no_separator(Seq::<u8>::empty());
        lemma_kept_single(Seq::<u8>::empty());
        lemma_kept_concat(seq![Seq::<u8>::empty()], seq![f]);
        assert(Seq::<Seq<u8>>::empty() + seq![f] =~= seq![f]);
    } else {
        assert(p[1] == SEPARATOR);
        assert(false);
    }
    assert(body.len() > 0 && body.last() == f);
    assert((seq![seq![SEPARATOR]] + body).last() == f);
    assert((seq![seq![DOT]] + body).last() == f);
}

} // verus!
