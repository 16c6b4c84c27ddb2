//! Numbered variants of a destination path: `IMG_1234.jpg` with number 1
//! becomes `IMG_1234_1.jpg`.

use vstd::prelude::*;
use vstd::slice::slice_to_vec;
use crate::bytes::append_bytes;
use crate::path::{
    DOT, SEPARATOR, UNDERSCORE,
    extension_of, extension_of_name, file_name, file_name_of, file_stem_of, last_dot, parent_len,
    path_components, pushed, stem_of, with_file_name, with_file_name_of,
};
use crate::path_laws::{
    is_single_component, lemma_components_pushed, lemma_file_name_is_last_component, no_separator,
};

verus! {

/// The ASCII digit for `d` (below ten).
pub open spec fn digit_byte(d: nat) -> u8 {
    (48 + d) as u8
}

/// The decimal notation of `n`, without leading zeros.
pub open spec fn decimal(n: nat) -> Seq<u8>
    decreases n,
{
    if n < 10 {
        seq![digit_byte(n)]
    } else {
        decimal(n / 10).push(digit_byte(n % 10))
    }
}

/// The file name of the `n`-th numbered variant of `dest`: the stem, `_`,
/// the number, and the extension (if any) after a `.`. A path without a
/// file name gives its whole text in place of the stem.
pub open spec fn numbered_name(dest: Seq<u8>, n: nat) -> Seq<u8> {
    let stem = match file_name_of(dest) {
        Some(f) => stem_of(f),
        None => dest,
    };
    let ext = match file_name_of(dest) {
        Some(f) => extension_of(f),
        None => None,
    };
    let tail = match ext {
        Some(e) => seq![DOT] + e,
        None => Seq::<u8>::empty(),
    };
    stem + seq![UNDERSCORE] + decimal(n) + tail
}

/// `dest` with its file name replaced by the `n`-th numbered variant.
pub open spec fn numbered(dest: Seq<u8>, n: nat) -> Seq<u8> {
    with_file_name_of(dest, numbered_name(dest, n))
}

fn append_decimal(s: &mut Vec<u8>, n: u32)
    ensures
        final(s)@ == old(s)@ + decimal(n as nat),
    decreases n,
{
    if n >= 10 {
        append_decimal(s, n / 10);
    }
    s.push(48u8 + (n % 10) as u8);
    proof {
        if n >= 10 {
            assert(decimal(n as nat) == decimal((n / 10) as nat).push(digit_byte((n % 10) as nat)));
        }
    }
    assert(s@ =~= old(s)@ + decimal(n as nat));
}

/// Builds a numbered variant of a destination path: `IMG_1234.jpg` with `n`
/// of 1 becomes `IMG_1234_1.jpg`, in the same directory.
pub fn numbered_path(dest: &[u8], n: u32) -> (r: Vec<u8>)
    ensures
        r@ == numbered(dest@, n as nat),
{
    let fname = file_name(dest);
    let stem = match fname {
        Some(f) => file_stem_of(f),
        None => dest,
    };
    let mut name = slice_to_vec(stem);
    name.push(UNDERSCORE);
    append_decimal(&mut name, n);
    let ghost base = name@;
    match fname {
        Some(f) => match extension_of_name(f) {
            Some(e) => {
                name.push(DOT);
                append_bytes(&mut name, e);
                assert(name@ =~= base + (seq![DOT] + e@));
            },
            None => {
                assert(name@ =~= base + Seq::<u8>::empty());
            },
        },
        None => {
            assert(name@ =~= base + Seq::<u8>::empty());
        },
    }
    assert(name@ == numbered_name(dest@, n as nat));
    with_file_name(dest, name.as_slice())
}

proof fn lemma_decimal_len(n: nat)
    ensures
        decimal(n).len() >= 1,
        n >= 10 ==> decimal(n).len() >= 2,
    decreases n,
{
    if n >= 10 {
        lemma_decimal_len(n / 10);
    }
}

/// Different numbers have different decimal notations.
pub proof fn lemma_decimal_injective(n: nat, m: nat)
    requires
        decimal(n) == decimal(m),
    ensures
        n == m,
    decreases n,
{
    lemma_decimal_len(n);
    lemma_decimal_len(m);
    if n < 10 && m < 10 {
        assert(decimal(n)[0] == digit_byte(n));
        assert(decimal(m)[0] == digit_byte(m));
        assert(n == m);
    } else if n >= 10 && m >= 10 {
        let dn = decimal(n);
        let dm = decimal(m);
        assert(dn.drop_last() =~= decimal(n / 10));
        assert(dm.drop_last() =~= decimal(m / 10));
        lemma_decimal_injective(n / 10, m / 10);
        assert(dn.last() == digit_byte(n % 10));
        assert(dm.last() == digit_byte(m % 10));
        assert(n % 10 == m % 10);
    }
}

proof fn lemma_pushed_injective(base: Seq<u8>, a: Seq<u8>, b: Seq<u8>)
    requires
        a.len() > 0,
        b.len() > 0,
        a[0] == b[0],
        pushed(base, a) == pushed(base, b),
    ensures
        a == b,
{
    if a[0] == SEPARATOR {
    } else if base.len() > 0 && base.last() != SEPARATOR {
        let x = base + seq![SEPARATOR];
        assert((x + a).skip(x.len() as int) =~= a);
        assert((x + b).skip(x.len() as int) =~= b);
    } else {
        assert((base + a).skip(base.len() as int) =~= a);
        assert((base + b).skip(base.len() as int) =~= b);
    }
}

/// The numbered variants of one destination are pairwise distinct paths
/// (as byte strings): each number names a name of its own.
pub proof fn lemma_numbered_distinct(dest: Seq<u8>, n: nat, m: nat)
    requires
        n != m,
    ensures
        numbered(dest, n) != numbered(dest, m),
{
    let a = numbered_name(dest, n);
    let b = numbered_name(dest, m);
    let stem = match file_name_of(dest) {
        Some(f) => stem_of(f),
        None => dest,
    };
    let head = stem + seq![UNDERSCORE];
    assert(a[0] == head[0]);
    assert(b[0] == head[0]);
    if numbered(dest, n) == numbered(dest, m) {
        let base = match file_name_of(dest) {
            Some(_) => dest.take(parent_len(dest)),
            None => dest,
        };
        assert(numbered(dest, n) == pushed(base, a));
        assert(numbered(dest, m) == pushed(base, b));
        lemma_pushed_injective(base, a, b);
        lemma_numbered_name_injective(dest, n, m);
    }
}

proof fn lemma_decimal_digits(n: nat)
    ensures
        forall|i: int| 0 <= i < decimal(n).len() ==> 48 <= #[trigger] decimal(n)[i] <= 57,
    decreases n,
{
    if n >= 10 {
        lemma_decimal_digits(n / 10);
        let d = decimal(n / 10);
        assert forall|i: int| 0 <= i < decimal(n).len() implies 48 <= #[trigger] decimal(n)[i]
            <= 57 by {
            if i < d.len() {
                assert(decimal(n)[i] == d[i]);
            }
        }
    }
}

proof fn lemma_last_dot_bound(s: Seq<u8>)
    ensures
        last_dot(s) matches Some(i) ==> 0 <= i < s.len() && s[i] == DOT,
    decreases s.len(),
{
    if s.len() > 0 && s.last() != DOT {
        lemma_last_dot_bound(s.drop_last());
    }
}

/// The name that number `n` gives is one component, longer than the file
/// name of `dest`.
proof fn lemma_numbered_name_single(dest: Seq<u8>, n: nat)
    requires
        file_name_of(dest) is Some,
    ensures
        is_single_component(numbered_name(dest, n)),
        numbered_name(dest, n).len() > (file_name_of(dest)->0).len(),
{
    let f = file_name_of(dest)->0;
    lemma_file_name_is_last_component(dest);
    lemma_last_dot_bound(f);
    lemma_decimal_digits(n);
    lemma_decimal_len(n);
    let stem = stem_of(f);
    let dec = decimal(n);
    let tail = match extension_of(f) {
        Some(e) => seq![DOT] + e,
        None => Seq::<u8>::empty(),
    };
    let nn = numbered_name(dest, n);
    assert(nn == stem + seq![UNDERSCORE] + dec + tail);
    assert(stem.len() + tail.len() == f.len());
    assert(no_separator(f));
    assert forall|j: int| 0 <= j < nn.len() implies nn[j] != SEPARATOR by {
        if j < stem.len() {
            assert(nn[j] == stem[j]);
            assert(stem[j] == f[j]);
        } else if j == stem.len() {
            assert(nn[j] == UNDERSCORE);
        } else if j < stem.len() + 1 + dec.len() {
            assert(nn[j] == dec[j - stem.len() - 1]);
        } else {
            let k = j - stem.len() - 1 - dec.len();
            assert(nn[j] == tail[k]);
            if k > 0 {
                let i = last_dot(f)->0;
                assert(tail[k] == f[i + k]);
            }
        }
    }
    assert(nn.len() >= 2);
    assert(nn != seq![DOT]);
}

/// A numbered name determines its number.
proof fn lemma_numbered_name_injective(dest: Seq<u8>, n: nat, m: nat)
    requires
        numbered_name(dest, n) == numbered_name(dest, m),
    ensures
        n == m,
{
    let stem = match file_name_of(dest) {
        Some(f) => stem_of(f),
        None => dest,
    };
    let tail = match file_name_of(dest) {
        Some(f) => match extension_of(f) {
            Some(e) => seq![DOT] + e,
            None => Seq::<u8>::empty(),
        },
        None => Seq::<u8>::empty(),
    };
    let head = stem + seq![UNDERSCORE];
    let a = numbered_name(dest, n);
    let b = numbered_name(dest, m);
    assert(a == head + decimal(n) + tail);
    assert(b == head + decimal(m) + tail);
    assert(decimal(n).len() == decimal(m).len());
    let s = head.len() as int;
    assert(a.subrange(s, s + decimal(n).len()) =~= decimal(n));
    assert(b.subrange(s, s + decimal(m).len()) =~= decimal(m));
    lemma_decimal_injective(n, m);
}

/// For a destination with a file name, each numbered variant is a path of
/// its own: it differs from the destination, and variants with different
/// numbers differ from each other, component by component (so they are
/// different paths, not only different spellings of one path).
pub proof fn lemma_numbered_paths_distinct(dest: Seq<u8>, n: nat, m: nat)
    requires
        file_name_of(dest) is Some,
    ensures
        path_components(numbered(dest, n)) != path_components(dest),
        n != m ==> path_components(numbered(dest, n)) != path_components(numbered(dest, m)),
{
    let f = file_name_of(dest)->0;
    let base = dest.take(parent_len(dest));
    let a = numbered_name(dest, n);
    let b = numbered_name(dest, m);
    lemma_file_name_is_last_component(dest);
    lemma_numbered_name_single(dest, n);
    lemma_numbered_name_single(dest, m);
    lemma_components_pushed(base, a);
    lemma_components_pushed(base, b);
    assert(numbered(dest, n) == pushed(base, a));
    assert(numbered(dest, m) == pushed(base, b));
    let ca = path_components(numbered(dest, n));
    let cb = path_components(numbered(dest, m));
    assert(ca.last() == a);
    assert(cb.last() == b);
    assert(a.len() != f.len());
    if n != m && ca == cb {
        lemma_numbered_name_injective(dest, n, m);
    }
}

} // verus!
