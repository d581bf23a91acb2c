//! Three-way orders on text and on path components, as the index sorts
//! them: `-1`, `0` or `1` for less, equal and greater.
use vstd::prelude::*;

use crate::map::paths::{segs_view, spec_split, split_slash};

verus! {

/// The order of two integers.
pub open spec fn int_order(a: int, b: int) -> int {
    if a < b {
        -1
    } else if a > b {
        1
    } else {
        0
    }
}

/// Lexicographic order of two char sequences, by code point; this is the
/// byte order of their UTF-8 encodings.
pub open spec fn chars_order(a: Seq<char>, b: Seq<char>) -> int
    decreases a.len(),
{
    if a.len() == 0 {
        if b.len() == 0 {
            0
        } else {
            -1
        }
    } else if b.len() == 0 {
        1
    } else if a[0] != b[0] {
        if a[0] < b[0] {
            -1
        } else {
            1
        }
    } else {
        chars_order(a.drop_first(), b.drop_first())
    }
}

/// Lexicographic order of two component lists, each component ordered by
/// `chars_order`.
pub open spec fn segs_order(a: Seq<Seq<char>>, b: Seq<Seq<char>>) -> int
    decreases a.len(),
{
    if a.len() == 0 {
        if b.len() == 0 {
            0
        } else {
            -1
        }
    } else if b.len() == 0 {
        1
    } else if a[0] != b[0] {
        chars_order(a[0], b[0])
    } else {
        segs_order(a.drop_first(), b.drop_first())
    }
}

/// The components of a path: its `/`-separated segments, empty ones
/// (from a leading, doubled or trailing slash) left out. The index orders
/// canonical addon paths, which hold no `.` or `..` segment; over those,
/// comparing component lists is how paths order.
pub open spec fn path_components(p: Seq<char>) -> Seq<Seq<char>> {
    spec_split(p).filter(|seg: Seq<char>| seg.len() > 0)
}

/// The order of two paths, component by component.
pub open spec fn path_order(a: Seq<char>, b: Seq<char>) -> int {
    segs_order(path_components(a), path_components(b))
}

pub proof fn lemma_chars_order_props(a: Seq<char>, b: Seq<char>)
    ensures
        chars_order(a, b) == -chars_order(b, a),
        -1 <= chars_order(a, b) <= 1,
        chars_order(a, b) == 0 <==> a == b,
    decreases a.len(),
{
    if a.len() > 0 && b.len() > 0 && a[0] == b[0] {
        lemma_chars_order_props(a.drop_first(), b.drop_first());
        if a.drop_first() == b.drop_first() {
            assert(a =~= seq![a[0]] + a.drop_first());
            assert(b =~= seq![b[0]] + b.drop_first());
        }
    }
    if a.len() == 0 && b.len() == 0 {
        assert(a =~= b);
    }
}

pub proof fn lemma_chars_order_trans(a: Seq<char>, b: Seq<char>, c: Seq<char>)
    requires
        chars_order(a, b) <= 0,
        chars_order(b, c) <= 0,
    ensures
        chars_order(a, c) <= 0,
        chars_order(a, b) < 0 || chars_order(b, c) < 0 ==> chars_order(a, c) < 0,
    decreases a.len(),
{
    lemma_chars_order_props(a, b);
    lemma_chars_order_props(b, c);
    lemma_chars_order_props(a, c);
    if a.len() > 0 && b.len() > 0 && c.len() > 0 && a[0] == b[0] && b[0] == c[0] {
        lemma_chars_order_trans(a.drop_first(), b.drop_first(), c.drop_first());
    }
}

pub proof fn lemma_segs_order_props(a: Seq<Seq<char>>, b: Seq<Seq<char>>)
    ensures
        segs_order(a, b) == -segs_order(b, a),
        -1 <= segs_order(a, b) <= 1,
        segs_order(a, b) == 0 <==> a == b,
    decreases a.len(),
{
    if a.len() > 0 && b.len() > 0 {
        lemma_chars_order_props(a[0], b[0]);
        if a[0] == b[0] {
            lemma_segs_order_props(a.drop_first(), b.drop_first());
            if a.drop_first() == b.drop_first() {
                assert(a =~= seq![a[0]] + a.drop_first());
                assert(b =~= seq![b[0]] + b.drop_first());
            }
        }
    }
    if a.len() == 0 && b.len() == 0 {
        assert(a =~= b);
    }
}

pub proof fn lemma_segs_order_trans(a: Seq<Seq<char>>, b: Seq<Seq<char>>, c: Seq<Seq<char>>)
    requires
        segs_order(a, b) <= 0,
        segs_order(b, c) <= 0,
    ensures
        segs_order(a, c) <= 0,
        segs_order(a, b) < 0 || segs_order(b, c) < 0 ==> segs_order(a, c) < 0,
    decreases a.len(),
{
    lemma_segs_order_props(a, b);
    lemma_segs_order_props(b, c);
    lemma_segs_order_props(a, c);
    if a.len() > 0 && b.len() > 0 && c.len() > 0 {
        lemma_chars_order_props(a[0], b[0]);
        lemma_chars_order_props(b[0], c[0]);
        lemma_chars_order_props(a[0], c[0]);
        if a[0] == b[0] && b[0] == c[0] {
            lemma_segs_order_trans(a.drop_first(), b.drop_first(), c.drop_first());
        } else {
            lemma_chars_order_trans(a[0], b[0], c[0]);
        }
    }
}

/// `chars_order` of two char slices.
pub fn compare_chars(a: &[char], b: &[char]) -> (r: i8)
    ensures
        r == chars_order(a@, b@),
{
    let mut i: usize = 0;
    assert(a@.skip(0) =~= a@);
    assert(b@.skip(0) =~= b@);
    while i < a.len() && i < b.len()
        invariant
            i <= a.len(),
            i <= b.len(),
            a@.take(i as int) == b@.take(i as int),
            chars_order(a@, b@) == chars_order(a@.skip(i as int), b@.skip(i as int)),
        decreases a.len() - i,
    {
        let x = a[i];
        let y = b[i];
        assert(a@.skip(i as int)[0] == x);
        assert(b@.skip(i as int)[0] == y);
        if x != y {
            return if x < y { -1 } else { 1 };
        }
        assert(a@.skip(i as int).drop_first() =~= a@.skip(i + 1));
        assert(b@.skip(i as int).drop_first() =~= b@.skip(i + 1));
        assert(a@.take(i + 1) =~= a@.take(i as int).push(x));
        assert(b@.take(i + 1) =~= b@.take(i as int).push(y));
        i = i + 1;
    }
    if i < a.len() {
        1
    } else if i < b.len() {
        -1
    } else {
        0
    }
}

/// The components of a path, as `path_components` gives them.
pub fn path_component_list(p: &[char]) -> (r: Vec<Vec<char>>)
    ensures
        segs_view(r@) == path_components(p@),
{
    let segs = split_slash(p);
    let mut r: Vec<Vec<char>> = Vec::new();
    let mut i: usize = 0;
    while i < segs.len()
        invariant
            i <= segs.len(),
            segs_view(segs@) == spec_split(p@),
            segs_view(r@) == segs_view(segs@).take(i as int).filter(|seg: Seq<char>| seg.len() > 0),
        decreases segs.len() - i,
    {
        let ghost all = segs_view(segs@);
        proof {
            assert(all.take(i + 1).drop_last() =~= all.take(i as int));
            assert(all.take(i + 1).last() == segs@[i as int]@);
            reveal(Seq::filter);
            assert(all.take(i + 1) =~= all.take(i as int).push(segs@[i as int]@));
        }
        if segs[i].len() > 0 {
            let seg = slice_to_vec(segs[i].as_slice());
            r.push(seg);
            assert(segs_view(r@) =~= segs_view(r@).drop_last().push(segs@[i as int]@));
        }
        i = i + 1;
    }
    assert(segs_view(segs@).take(segs.len() as int) =~= segs_view(segs@));
    r
}

/// A copy of a char slice.
fn slice_to_vec(s: &[char]) -> (r: Vec<char>)
    ensures
        r@ == s@,
{
    let mut r: Vec<char> = Vec::new();
    let mut i: usize = 0;
    while i < s.len()
        invariant
            i <= s.len(),
            r@ == s@.take(i as int),
        decreases s.len() - i,
    {
        r.push(s[i]);
        assert(s@.take(i + 1) =~= s@.take(i as int).push(s@[i as int]));
        i = i + 1;
    }
    assert(s@.take(s.len() as int) =~= s@);
    r
}

/// `segs_order` of two component lists.
pub fn compare_segs(a: &Vec<Vec<char>>, b: &Vec<Vec<char>>) -> (r: i8)
    ensures
        r == segs_order(segs_view(a@), segs_view(b@)),
{
    let ghost sa = segs_view(a@);
    let ghost sb = segs_view(b@);
    let mut i: usize = 0;
    assert(sa.skip(0) =~= sa);
    assert(sb.skip(0) =~= sb);
    while i < a.len() && i < b.len()
        invariant
            i <= a.len(),
            i <= b.len(),
            sa == segs_view(a@),
            sb == segs_view(b@),
            segs_order(sa, sb) == segs_order(sa.skip(i as int), sb.skip(i as int)),
        decreases a.len() - i,
    {
        assert(sa.skip(i as int)[0] == a@[i as int]@);
        assert(sb.skip(i as int)[0] == b@[i as int]@);
        let o = compare_chars(a[i].as_slice(), b[i].as_slice());
        proof {
            lemma_chars_order_props(a@[i as int]@, b@[i as int]@);
        }
        if o != 0 {
            return o;
        }
        assert(sa.skip(i as int).drop_first() =~= sa.skip(i + 1));
        assert(sb.skip(i as int).drop_first() =~= sb.skip(i + 1));
        i = i + 1;
    }
    if i < a.len() {
        1
    } else if i < b.len() {
        -1
    } else {
        0
    }
}

/// `path_order` of two paths.
pub fn compare_paths(a: &[char], b: &[char]) -> (r: i8)
    ensures
        r == path_order(a@, b@),
{
    let ca = path_component_list(a);
    let cb = path_component_list(b);
    compare_segs(&ca, &cb)
}

} // verus!
