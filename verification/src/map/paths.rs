//! Source-engine path handling for map content: normalising material,
//! model and pakfile paths, and deciding which pakfile entries a preview
//! keeps.
use vstd::prelude::*;

use crate::text::{
    ci_eq, lower_chars, slice_chars, spec_ci_eq, spec_lower, spec_lower_seq, spec_trim, str_chars,
    string_from_chars, trim_chars,
};

verus! {

// --- char-sequence helpers -----------------------------------------------------

/// `s` with every `from` replaced by `to`.
pub open spec fn spec_replace_char(s: Seq<char>, from: char, to: char) -> Seq<char> {
    Seq::new(s.len(), |i: int| if s[i] == from { to } else { s[i] })
}

/// Number of leading `c`s of `s`.
pub open spec fn spec_leading(s: Seq<char>, c: char) -> nat
    decreases s.len(),
{
    if s.len() > 0 && s[0] == c {
        1 + spec_leading(s.drop_first(), c)
    } else {
        0
    }
}

/// Number of trailing `c`s of `s`.
pub open spec fn spec_trailing(s: Seq<char>, c: char) -> nat
    decreases s.len(),
{
    if s.len() > 0 && s.last() == c {
        1 + spec_trailing(s.drop_last(), c)
    } else {
        0
    }
}

/// `str::trim_matches(c)`: `s` without its leading and trailing `c`s.
pub open spec fn spec_trim_char(s: Seq<char>, c: char) -> Seq<char> {
    let rest = s.skip(spec_leading(s, c) as int);
    rest.take(rest.len() - spec_trailing(rest, c))
}

pub proof fn lemma_leading_trailing(s: Seq<char>, c: char)
    ensures
        spec_leading(s, c) <= s.len(),
        spec_trailing(s, c) <= s.len(),
    decreases s.len(),
{
    if s.len() > 0 {
        lemma_leading_trailing(s.drop_first(), c);
        lemma_leading_trailing(s.drop_last(), c);
    }
}

/// `str::split('/')`: the segments between slashes, empty ones included.
pub open spec fn spec_split(s: Seq<char>) -> Seq<Seq<char>>
    decreases s.len(),
{
    if s.len() == 0 {
        seq![Seq::empty()]
    } else {
        let segs = spec_split(s.drop_last());
        if s.last() == '/' {
            segs.push(Seq::empty())
        } else {
            segs.update(segs.len() - 1, segs.last().push(s.last()))
        }
    }
}

pub proof fn lemma_split_nonempty(s: Seq<char>)
    ensures
        spec_split(s).len() >= 1,
    decreases s.len(),
{
    if s.len() > 0 {
        lemma_split_nonempty(s.drop_last());
    }
}

/// The segments a normalised path keeps: empty and `.` segments are
/// dropped, and a `..` segment refuses the whole path.
pub open spec fn spec_kept_segments(segs: Seq<Seq<char>>) -> Option<Seq<Seq<char>>>
    decreases segs.len(),
{
    if segs.len() == 0 {
        Some(Seq::empty())
    } else {
        match spec_kept_segments(segs.drop_last()) {
            None => None,
            Some(kept) => {
                let seg = segs.last();
                if seg == ".."@ {
                    None
                } else if seg.len() == 0 || seg == "."@ {
                    Some(kept)
                } else {
                    Some(kept.push(seg))
                }
            },
        }
    }
}

/// `segs.join("/")`.
pub open spec fn spec_join(segs: Seq<Seq<char>>) -> Seq<char>
    decreases segs.len(),
{
    if segs.len() == 0 {
        Seq::empty()
    } else if segs.len() == 1 {
        segs[0]
    } else {
        spec_join(segs.drop_last()) + seq!['/'] + segs.last()
    }
}

/// Whether `s` begins with `prefix`.
pub open spec fn spec_starts_with(s: Seq<char>, prefix: Seq<char>) -> bool {
    s.len() >= prefix.len() && s.take(prefix.len() as int) == prefix
}

/// Whether `t` occurs in `s`.
pub open spec fn spec_contains(s: Seq<char>, t: Seq<char>) -> bool {
    exists|i: int| 0 <= i && i + t.len() <= s.len() && #[trigger] s.subrange(i, i + t.len()) == t
}

/// The views of a list of char vectors.
pub open spec fn segs_view(v: Seq<Vec<char>>) -> Seq<Seq<char>> {
    Seq::new(v.len(), |i: int| v[i]@)
}

/// `s` with every backslash turned into a slash.
pub fn replace_backslashes(s: &[char]) -> (r: Vec<char>)
    ensures
        r@ == spec_replace_char(s@, '\\', '/'),
{
    let mut r: Vec<char> = Vec::new();
    let mut i: usize = 0;
    while i < s.len()
        invariant
            i <= s.len(),
            r@ =~= spec_replace_char(s@.take(i as int), '\\', '/'),
        decreases s.len() - i,
    {
        let c = s[i];
        r.push(if c == '\\' { '/' } else { c });
        i = i + 1;
        assert(r@ =~= spec_replace_char(s@.take(i as int), '\\', '/'));
    }
    assert(s@.take(i as int) =~= s@);
    r
}

/// `s` without its leading and trailing slashes.
pub fn trim_slashes(s: &[char]) -> (r: Vec<char>)
    ensures
        r@ == spec_trim_char(s@, '/'),
{
    let mut start: usize = 0;
    assert(s@.skip(0) =~= s@);
    while start < s.len() && s[start] == '/'
        invariant
            start <= s.len(),
            spec_leading(s@, '/') == start + spec_leading(s@.skip(start as int), '/'),
        decreases s.len() - start,
    {
        proof {
            let rest = s@.skip(start as int);
            assert(rest[0] == s@[start as int]);
            assert(rest.drop_first() =~= s@.skip(start + 1));
        }
        start = start + 1;
    }
    proof {
        let rest = s@.skip(start as int);
        if start < s.len() {
            assert(rest[0] == s@[start as int]);
        }
    }
    let ghost front = s@.skip(start as int);
    let mut end: usize = s.len();
    while end > start && s[end - 1] == '/'
        invariant
            start <= end <= s.len(),
            front == s@.skip(start as int),
            spec_trailing(front, '/') == (s.len() - end) + spec_trailing(s@.subrange(start as int, end as int), '/'),
        decreases end - start,
    {
        proof {
            let mid = s@.subrange(start as int, end as int);
            assert(mid.last() == s@[end - 1]);
            assert(mid.drop_last() =~= s@.subrange(start as int, end - 1));
        }
        end = end - 1;
    }
    proof {
        let mid = s@.subrange(start as int, end as int);
        if end > start {
            assert(mid.last() == s@[end - 1]);
        }
        assert(front.take(front.len() - spec_trailing(front, '/')) =~= mid);
    }
    slice_chars(s, start, end)
}

/// `str::split('/')` on a char slice.
pub fn split_slash(s: &[char]) -> (r: Vec<Vec<char>>)
    ensures
        segs_view(r@) == spec_split(s@),
{
    let mut segs: Vec<Vec<char>> = Vec::new();
    let mut current: Vec<char> = Vec::new();
    let mut i: usize = 0;
    proof {
        assert(s@.take(0) =~= Seq::<char>::empty());
        assert(segs_view(segs@).push(current@) =~= spec_split(s@.take(0)));
    }
    while i < s.len()
        invariant
            i <= s.len(),
            segs_view(segs@).push(current@) == spec_split(s@.take(i as int)),
        decreases s.len() - i,
    {
        let ghost before = segs_view(segs@).push(current@);
        assert(s@.take(i + 1).drop_last() =~= s@.take(i as int));
        assert(s@.take(i + 1).last() == s@[i as int]);
        let c = s[i];
        if c == '/' {
            let done = current;
            segs.push(done);
            current = Vec::new();
            assert(segs_view(segs@).push(current@) =~= before.push(Seq::empty()));
        } else {
            current.push(c);
            assert(segs_view(segs@).push(current@) =~= before.update(before.len() - 1, before.last().push(c)));
        }
        i = i + 1;
    }
    assert(s@.take(i as int) =~= s@);
    let ghost before = segs_view(segs@).push(current@);
    segs.push(current);
    assert(segs_view(segs@) =~= before);
    segs
}

/// Exact equality of a char slice and a literal's chars.
fn is_literal(s: &[char], lit: &str) -> (r: bool)
    ensures
        r == (s@ == lit@),
{
    let l = str_chars(lit);
    crate::text::chars_eq(s, l.as_slice())
}

/// The segments a normalised path keeps (see `spec_kept_segments`).
pub fn kept_segments(segs: &Vec<Vec<char>>) -> (r: Option<Vec<Vec<char>>>)
    ensures
        match spec_kept_segments(segs_view(segs@)) {
            Some(k) => r is Some && segs_view(r->0@) == k,
            None => r is None,
        },
{
    let ghost all = segs_view(segs@);
    let mut kept: Vec<Vec<char>> = Vec::new();
    let mut i: usize = 0;
    assert(all.take(0) =~= Seq::<Seq<char>>::empty());
    assert(segs_view(kept@) =~= Seq::<Seq<char>>::empty());
    while i < segs.len()
        invariant
            i <= segs.len(),
            all == segs_view(segs@),
            spec_kept_segments(all.take(i as int)) == Some(segs_view(kept@)),
        decreases segs.len() - i,
    {
        assert(all.take(i + 1).drop_last() =~= all.take(i as int));
        assert(all.take(i + 1).last() == segs@[i as int]@);
        let seg = &segs[i];
        if is_literal(seg.as_slice(), "..") {
            proof {
                lemma_kept_none_extends(all, i as int + 1);
            }
            return None;
        }
        if !(seg.len() == 0 || is_literal(seg.as_slice(), ".")) {
            let ghost before = segs_view(kept@);
            kept.push(seg.clone());
            assert(segs_view(kept@) =~= before.push(seg@));
        }
        i = i + 1;
    }
    assert(all.take(i as int) =~= all);
    Some(kept)
}

/// Once a prefix of the segments is refused, so is every longer one.
pub proof fn lemma_kept_none_extends(segs: Seq<Seq<char>>, n: int)
    requires
        0 <= n <= segs.len(),
        spec_kept_segments(segs.take(n)) is None,
    ensures
        spec_kept_segments(segs) is None,
    decreases segs.len() - n,
{
    if n < segs.len() {
        assert(segs.take(n + 1).drop_last() =~= segs.take(n));
        lemma_kept_none_extends(segs, n + 1);
    } else {
        assert(segs.take(n) =~= segs);
    }
}

/// `segs.join("/")` on char vectors.
pub fn join_slash(segs: &Vec<Vec<char>>) -> (r: Vec<char>)
    ensures
        r@ == spec_join(segs_view(segs@)),
{
    let ghost all = segs_view(segs@);
    let mut out: Vec<char> = Vec::new();
    let mut i: usize = 0;
    assert(all.take(0) =~= Seq::<Seq<char>>::empty());
    while i < segs.len()
        invariant
            i <= segs.len(),
            all == segs_view(segs@),
            out@ == spec_join(all.take(i as int)),
        decreases segs.len() - i,
    {
        let ghost t = all.take(i + 1);
        assert(t.drop_last() =~= all.take(i as int));
        assert(t.last() == segs@[i as int]@);
        if i > 0 {
            out.push('/');
        }
        let seg = &segs[i];
        let ghost before = out@;
        let mut k: usize = 0;
        while k < seg.len()
            invariant
                k <= seg.len(),
                out@ == before + seg@.take(k as int),
            decreases seg.len() - k,
        {
            out.push(seg[k]);
            k = k + 1;
            assert(out@ =~= before + seg@.take(k as int));
        }
        assert(seg@.take(k as int) =~= seg@);
        proof {
            if i == 0 {
                assert(out@ =~= t[0]);
            }
        }
        i = i + 1;
    }
    assert(all.take(i as int) =~= all);
    out
}


// --- normalisation ---------------------------------------------------------------

/// `s` without `prefix` (compared ignoring ASCII case), when it has it.
pub open spec fn spec_strip_prefix_ci(s: Seq<char>, prefix: Seq<char>) -> Option<Seq<char>> {
    if s.len() >= prefix.len() && spec_ci_eq(s.take(prefix.len() as int), prefix) {
        Some(s.skip(prefix.len() as int))
    } else {
        None
    }
}

/// Whether `s` ends with `suffix`, ignoring ASCII case.
pub open spec fn spec_ends_with_ci(s: Seq<char>, suffix: Seq<char>) -> bool {
    s.len() >= suffix.len() && spec_ci_eq(s.skip(s.len() - suffix.len()), suffix)
}

/// A Source content path in canonical form: trimmed, backslashes made
/// slashes, outer slashes dropped; with an extension given, a leading
/// `materials/` and that trailing extension (both ignoring ASCII case) are
/// removed; then empty and `.` segments are dropped and the segments
/// rejoined with `/`, lowercased. A `..` segment or an empty result gives
/// none.
pub open spec fn spec_normalize_source_path(path: Seq<char>, extension: Option<Seq<char>>) -> Option<Seq<char>> {
    let p0 = spec_trim_char(spec_replace_char(spec_trim(path), '\\', '/'), '/');
    let p1 = if extension is Some && spec_strip_prefix_ci(p0, "materials/"@) is Some {
        spec_strip_prefix_ci(p0, "materials/"@)->0
    } else {
        p0
    };
    let p2 = match extension {
        Some(e) => if spec_ends_with_ci(p1, e) {
            p1.take(p1.len() - e.len())
        } else {
            p1
        },
        None => p1,
    };
    match spec_kept_segments(spec_split(p2)) {
        None => None,
        Some(kept) => {
            let joined = spec_join(kept);
            if joined.len() == 0 {
                None
            } else {
                Some(spec_lower_seq(joined))
            }
        },
    }
}

/// `value` without `prefix`, compared ignoring ASCII case.
pub fn strip_prefix_ascii_case(value: &str, prefix: &str) -> (r: Option<String>)
    ensures
        match spec_strip_prefix_ci(value@, prefix@) {
            Some(rest) => r is Some && r->0@ == rest,
            None => r is None,
        },
{
    let v = str_chars(value);
    let p = str_chars(prefix);
    match strip_prefix_chars(v.as_slice(), p.as_slice()) {
        Some(rest) => Some(string_from_chars(rest.as_slice())),
        None => None,
    }
}

fn strip_prefix_chars(v: &[char], p: &[char]) -> (r: Option<Vec<char>>)
    ensures
        match spec_strip_prefix_ci(v@, p@) {
            Some(rest) => r is Some && r->0@ == rest,
            None => r is None,
        },
{
    if v.len() < p.len() {
        return None;
    }
    let head = slice_chars(v, 0, p.len());
    assert(head@ =~= v@.take(p@.len() as int));
    if ci_eq(head.as_slice(), p) {
        let rest = slice_chars(v, p.len(), v.len());
        assert(rest@ =~= v@.skip(p@.len() as int));
        Some(rest)
    } else {
        None
    }
}

fn ends_with_ci(v: &[char], e: &[char]) -> (r: bool)
    ensures
        r == spec_ends_with_ci(v@, e@),
{
    if v.len() < e.len() {
        return false;
    }
    let tail = slice_chars(v, v.len() - e.len(), v.len());
    assert(tail@ =~= v@.skip(v@.len() - e@.len()));
    ci_eq(tail.as_slice(), e)
}

/// The normalised chars of a Source path (see `spec_normalize_source_path`).
fn normalize_path_chars(path: &str, extension: Option<&str>) -> (r: Option<Vec<char>>)
    ensures
        match spec_normalize_source_path(path@, match extension { Some(e) => Some(e@), None => None }) {
            Some(n) => r is Some && r->0@ == n,
            None => r is None,
        },
{
    let raw = str_chars(path);
    let trimmed = trim_chars(raw.as_slice());
    let slashed = replace_backslashes(trimmed.as_slice());
    let p0 = trim_slashes(slashed.as_slice());
    let materials = str_chars("materials/");
    let p1 = if extension.is_some() {
        match strip_prefix_chars(p0.as_slice(), materials.as_slice()) {
            Some(rest) => rest,
            None => p0,
        }
    } else {
        p0
    };
    let p2 = match extension {
        Some(e) => {
            let ext = str_chars(e);
            if ends_with_ci(p1.as_slice(), ext.as_slice()) {
                slice_chars(p1.as_slice(), 0, p1.len() - ext.len())
            } else {
                p1
            }
        },
        None => p1,
    };
    proof {
        if let Some(e) = extension {
            if spec_ends_with_ci(p1@, e@) {
                assert(p2@ =~= p1@.take(p1@.len() - e@.len()));
            }
        }
    }
    let segs = split_slash(p2.as_slice());
    match kept_segments(&segs) {
        None => None,
        Some(kept) => {
            let joined = join_slash(&kept);
            if joined.len() == 0 {
                None
            } else {
                Some(lower_chars(&joined))
            }
        },
    }
}

/// A Source content path in canonical form (see
/// `spec_normalize_source_path`); none for an escaping or empty path.
pub fn normalize_source_path(path: &str, extension: Option<&str>) -> (r: Option<String>)
    ensures
        match spec_normalize_source_path(path@, match extension { Some(e) => Some(e@), None => None }) {
            Some(n) => r is Some && r->0@ == n,
            None => r is None,
        },
{
    match normalize_path_chars(path, extension) {
        Some(n) => Some(string_from_chars(n.as_slice())),
        None => None,
    }
}

/// A material name: the canonical path without `materials/` and `.vmt`.
pub fn normalize_material_name(path: &str) -> (r: Option<String>)
    ensures
        match spec_normalize_source_path(path@, Some(".vmt"@)) {
            Some(n) => r is Some && r->0@ == n,
            None => r is None,
        },
{
    normalize_source_path(path, Some(".vmt"))
}

/// A pakfile entry path in canonical form.
pub fn normalize_pakfile_path(path: &str) -> (r: Option<String>)
    ensures
        match spec_normalize_source_path(path@, None) {
            Some(n) => r is Some && r->0@ == n,
            None => r is None,
        },
{
    normalize_source_path(path, None)
}


// --- what a normalised path looks like ------------------------------------------

/// `s` has no `c`.
pub open spec fn spec_free_of(s: Seq<char>, c: char) -> bool {
    forall|i: int| 0 <= i < s.len() ==> s[i] != c
}

/// A normalised path is canonical: not empty, lowercase, free of
/// backslashes, and made of `/`-separated segments none of which is empty,
/// `.` or `..`, so it cannot step outside the tree it names.
pub proof fn lemma_normalized_path_is_canonical(path: Seq<char>, extension: Option<Seq<char>>)
    requires
        spec_normalize_source_path(path, extension) is Some,
    ensures
        ({
            let n = spec_normalize_source_path(path, extension)->0;
            &&& n.len() > 0
            &&& spec_lower_seq(n) == n
            &&& spec_free_of(n, '\\')
            &&& forall|i: int|
                0 <= i < spec_split(n).len() ==> (#[trigger] spec_split(n)[i]).len() > 0 && spec_split(n)[i] != "."@
                    && spec_split(n)[i] != ".."@
        }),
{
    let p0 = spec_trim_char(spec_replace_char(spec_trim(path), '\\', '/'), '/');
    let p1 = if extension is Some && spec_strip_prefix_ci(p0, "materials/"@) is Some {
        spec_strip_prefix_ci(p0, "materials/"@)->0
    } else {
        p0
    };
    let p2 = match extension {
        Some(e) => if spec_ends_with_ci(p1, e) {
            p1.take(p1.len() - e.len())
        } else {
            p1
        },
        None => p1,
    };
    let segs = spec_split(p2);
    let kept = spec_kept_segments(segs)->0;
    let joined = spec_join(kept);
    let n = spec_lower_seq(joined);
    assert(spec_normalize_source_path(path, extension) == Some(n));
    // no backslash survives the replacement
    let r = spec_replace_char(spec_trim(path), '\\', '/');
    assert(spec_free_of(r, '\\'));
    lemma_leading_trailing(r, '/');
    let front = r.skip(spec_leading(r, '/') as int);
    lemma_leading_trailing(front, '/');
    assert(spec_free_of(p0, '\\')) by {
        assert forall|i: int| 0 <= i < p0.len() implies p0[i] != '\\' by {
            assert(p0[i] == front[i]);
            assert(front[i] == r[i + spec_leading(r, '/')]);
        }
    }
    assert(spec_free_of(p1, '\\')) by {
        if extension is Some && spec_strip_prefix_ci(p0, "materials/"@) is Some {
            reveal_strlit("materials/");
            assert forall|i: int| 0 <= i < p1.len() implies p1[i] != '\\' by {
                assert(p1[i] == p0[i + 10]);
            }
        }
    }
    assert(spec_free_of(p2, '\\'));
    lemma_split_free_of(p2, '\\');
    lemma_kept_segments(segs);
    lemma_split_join(kept);
    lemma_split_lower(joined);
    assert forall|i: int| 0 <= i < kept.len() implies spec_free_of(#[trigger] kept[i], '\\') by {
        let j = choose|j: int| 0 <= j < segs.len() && segs[j] == kept[i];
    }
    lemma_join_free_of(kept, '\\');
    assert(spec_free_of(n, '\\'));
    lemma_lower_idempotent(joined);
    assert forall|i: int| 0 <= i < spec_split(n).len() implies (#[trigger] spec_split(n)[i]).len() > 0 && spec_split(n)[i]
        != "."@ && spec_split(n)[i] != ".."@ by {
        assert(spec_split(n)[i] == spec_lower_seq(kept[i]));
        lemma_lower_dots(kept[i]);
    }
}

/// Every segment of `spec_split(s)` is free of `/`, and of any char `s` is
/// free of.
pub proof fn lemma_split_free_of(s: Seq<char>, c: char)
    ensures
        forall|i: int| 0 <= i < spec_split(s).len() ==> spec_free_of(#[trigger] spec_split(s)[i], '/'),
        spec_free_of(s, c) ==> forall|i: int| 0 <= i < spec_split(s).len() ==> spec_free_of(#[trigger] spec_split(s)[i], c),
    decreases s.len(),
{
    lemma_split_nonempty(s);
    if s.len() > 0 {
        lemma_split_free_of(s.drop_last(), c);
        let segs = spec_split(s.drop_last());
        lemma_split_nonempty(s.drop_last());
        if spec_free_of(s, c) {
            assert(spec_free_of(s.drop_last(), c));
        }
    }
}

/// The kept segments are segments of the input, and none is empty, `.`
/// or `..`.
pub proof fn lemma_kept_segments(segs: Seq<Seq<char>>)
    requires
        spec_kept_segments(segs) is Some,
    ensures
        forall|i: int|
            0 <= i < spec_kept_segments(segs)->0.len() ==> {
                let k = #[trigger] spec_kept_segments(segs)->0[i];
                &&& k.len() > 0
                &&& k != "."@
                &&& k != ".."@
                &&& exists|j: int| 0 <= j < segs.len() && segs[j] == k
            },
    decreases segs.len(),
{
    if segs.len() > 0 {
        lemma_kept_segments(segs.drop_last());
        let prev = spec_kept_segments(segs.drop_last())->0;
        assert forall|i: int| 0 <= i < prev.len() implies exists|j: int| 0 <= j < segs.len() && segs[j] == #[trigger] prev[i] by {
            let j = choose|j: int| 0 <= j < segs.drop_last().len() && segs.drop_last()[j] == prev[i];
            assert(segs[j] == prev[i]);
        }
        assert(segs[segs.len() - 1] == segs.last());
    }
}

/// Splitting a joined list of non-empty, slash-free segments gives them
/// back.
pub proof fn lemma_split_join(k: Seq<Seq<char>>)
    requires
        forall|i: int| 0 <= i < k.len() ==> (#[trigger] k[i]).len() > 0,
        forall|i: int| 0 <= i < k.len() ==> spec_free_of(#[trigger] k[i], '/'),
    ensures
        k.len() > 0 ==> spec_split(spec_join(k)) == k,
    decreases k.len(),
{
    if k.len() == 1 {
        lemma_split_segment(Seq::empty(), k[0]);
        assert(Seq::<char>::empty() + k[0] =~= k[0]);
        assert(spec_split(Seq::<char>::empty()) =~= seq![Seq::<char>::empty()]);
        assert(seq![Seq::<char>::empty()].update(0, Seq::<char>::empty() + k[0]) =~= k);
    } else if k.len() > 1 {
        let init = k.drop_last();
        lemma_split_join(init);
        let a = spec_join(init);
        let slash = a.push('/');
        assert(spec_join(k) == a + seq!['/'] + k.last());
        assert(a + seq!['/'] =~= slash);
        assert(slash.drop_last() =~= a);
        assert(spec_split(slash) == init.push(Seq::empty()));
        lemma_split_segment(slash, k.last());
        lemma_split_nonempty(slash);
        assert(Seq::<char>::empty() + k.last() =~= k.last());
        assert(init.push(Seq::empty()).update(init.len() as int, k.last()) =~= k);
    }
}

/// Appending slash-free chars extends the last segment.
pub proof fn lemma_split_segment(a: Seq<char>, x: Seq<char>)
    requires
        spec_free_of(x, '/'),
    ensures
        spec_split(a + x) == spec_split(a).update(spec_split(a).len() - 1, spec_split(a).last() + x),
    decreases x.len(),
{
    lemma_split_nonempty(a);
    if x.len() == 0 {
        assert(a + x =~= a);
        assert(spec_split(a).last() + x =~= spec_split(a).last());
        assert(spec_split(a).update(spec_split(a).len() - 1, spec_split(a).last()) =~= spec_split(a));
    } else {
        let xi = x.drop_last();
        assert(spec_free_of(xi, '/'));
        lemma_split_segment(a, xi);
        assert((a + x).drop_last() =~= a + xi);
        assert((a + x).last() == x.last());
        assert(x.last() != '/');
        let segs = spec_split(a);
        let mid = segs.update(segs.len() - 1, segs.last() + xi);
        assert(mid.last() == segs.last() + xi);
        assert((segs.last() + xi).push(x.last()) =~= segs.last() + x);
        assert(mid.update(mid.len() - 1, mid.last().push(x.last())) =~= segs.update(segs.len() - 1, segs.last() + x));
    }
}

/// Lowercasing maps the segments one by one (it never makes or removes a
/// slash).
pub proof fn lemma_split_lower(s: Seq<char>)
    ensures
        spec_split(spec_lower_seq(s)).len() == spec_split(s).len(),
        forall|i: int| 0 <= i < spec_split(s).len() ==> #[trigger] spec_split(spec_lower_seq(s))[i] == spec_lower_seq(spec_split(s)[i]),
    decreases s.len(),
{
    lemma_split_nonempty(s);
    if s.len() == 0 {
        assert(spec_lower_seq(s) =~= s);
        assert(spec_lower_seq(Seq::<char>::empty()) =~= Seq::<char>::empty());
    } else {
        let init = s.drop_last();
        lemma_split_lower(init);
        lemma_split_nonempty(init);
        assert(spec_lower_seq(s).drop_last() =~= spec_lower_seq(init));
        assert(spec_lower_seq(s).last() == spec_lower(s.last()));
        let segs = spec_split(init);
        if s.last() == '/' {
            assert(spec_lower_seq(Seq::<char>::empty()) =~= Seq::<char>::empty());
        } else {
            assert(spec_lower(s.last()) != '/');
            assert forall|i: int| 0 <= i < spec_split(s).len() implies #[trigger] spec_split(spec_lower_seq(s))[i] == spec_lower_seq(spec_split(s)[i]) by {
                if i == segs.len() - 1 {
                    assert(spec_lower_seq(segs.last().push(s.last())) =~= spec_lower_seq(segs.last()).push(spec_lower(s.last())));
                }
            }
        }
    }
}

/// Joining segments free of `c` (not a slash) gives a sequence free of it.
pub proof fn lemma_join_free_of(k: Seq<Seq<char>>, c: char)
    requires
        c != '/',
        forall|i: int| 0 <= i < k.len() ==> spec_free_of(#[trigger] k[i], c),
    ensures
        spec_free_of(spec_join(k), c),
    decreases k.len(),
{
    if k.len() > 1 {
        lemma_join_free_of(k.drop_last(), c);
        let a = spec_join(k.drop_last());
        assert forall|i: int| 0 <= i < spec_join(k).len() implies spec_join(k)[i] != c by {
            if i < a.len() {
                assert(spec_join(k)[i] == a[i]);
            } else if i > a.len() {
                assert(spec_join(k)[i] == k.last()[i - a.len() - 1]);
            }
        }
    }
}

pub proof fn lemma_lower_idempotent(s: Seq<char>)
    ensures
        spec_lower_seq(spec_lower_seq(s)) == spec_lower_seq(s),
        spec_free_of(s, '\\') ==> spec_free_of(spec_lower_seq(s), '\\'),
{
    assert(spec_lower_seq(spec_lower_seq(s)) =~= spec_lower_seq(s));
}

/// Lowercasing keeps a segment's length and never makes `.` or `..`.
pub proof fn lemma_lower_dots(s: Seq<char>)
    ensures
        spec_lower_seq(s).len() == s.len(),
        spec_lower_seq(s) == "."@ ==> s == "."@,
        spec_lower_seq(s) == ".."@ ==> s == ".."@,
{
    reveal_strlit(".");
    reveal_strlit("..");
    assert(spec_lower_seq(s).len() == s.len());
    assert("."@.len() == 1);
    assert(".."@.len() == 2);
    if spec_lower_seq(s) == "."@ {
        assert(spec_lower_seq(s)[0] == spec_lower(s[0]));
        lemma_lower_char_dot(s[0]);
        assert(s =~= "."@);
    }
    if spec_lower_seq(s) == ".."@ {
        assert(spec_lower_seq(s)[0] == spec_lower(s[0]));
        assert(spec_lower_seq(s)[1] == spec_lower(s[1]));
        lemma_lower_char_dot(s[0]);
        lemma_lower_char_dot(s[1]);
        assert(s =~= ".."@);
    }
}

/// Only `.` lowercases to `.`.
pub proof fn lemma_lower_char_dot(c: char)
    ensures
        spec_lower(c) == '.' ==> c == '.',
{
    if 'A' <= c && c <= 'Z' {
        let v = (c as u32) + 32;
        assert(97 <= v <= 122);
        assert((v as char) as u32 == v);
    }
}

// --- extensions and entry classes ----------------------------------------------

/// The path components a file name is taken from: the slash-separated
/// segments without empty and `.` ones.
pub open spec fn spec_components(segs: Seq<Seq<char>>) -> Seq<Seq<char>>
    decreases segs.len(),
{
    if segs.len() == 0 {
        Seq::empty()
    } else {
        let rest = spec_components(segs.drop_last());
        let seg = segs.last();
        if seg.len() == 0 || seg == "."@ {
            rest
        } else {
            rest.push(seg)
        }
    }
}

/// `Path::file_name`: the last component, unless it is `..` or there is
/// none.
pub open spec fn spec_file_name(path: Seq<char>) -> Option<Seq<char>> {
    let c = spec_components(spec_split(path));
    if c.len() == 0 || c.last() == ".."@ {
        None
    } else {
        Some(c.last())
    }
}

/// Index of the last `.` of `s`.
pub open spec fn spec_last_dot(s: Seq<char>) -> Option<int>
    decreases s.len(),
{
    if s.len() == 0 {
        None
    } else if s.last() == '.' {
        Some(s.len() - 1)
    } else {
        spec_last_dot(s.drop_last())
    }
}

/// `Path::extension`: what follows the last `.` of the file name, unless
/// that dot starts the name.
pub open spec fn spec_extension(path: Seq<char>) -> Option<Seq<char>> {
    match spec_file_name(path) {
        None => None,
        Some(name) => match spec_last_dot(name) {
            None => None,
            Some(k) => if k == 0 {
                None
            } else {
                Some(name.skip(k + 1))
            },
        },
    }
}

/// Whether the extension of `path` is `e`, ignoring ASCII case.
pub open spec fn spec_has_extension(path: Seq<char>, e: Seq<char>) -> bool {
    match spec_extension(path) {
        Some(x) => spec_ci_eq(x, e),
        None => false,
    }
}

/// The extension of `path` (see `spec_extension`).
pub(crate) fn extension_chars(path: &[char]) -> (r: Option<Vec<char>>)
    ensures
        match spec_extension(path@) {
            Some(x) => r is Some && r->0@ == x,
            None => r is None,
        },
{
    let segs = split_slash(path);
    let ghost all = segs_view(segs@);
    let mut comps: Vec<Vec<char>> = Vec::new();
    let mut i: usize = 0;
    assert(all.take(0) =~= Seq::<Seq<char>>::empty());
    assert(segs_view(comps@) =~= Seq::<Seq<char>>::empty());
    while i < segs.len()
        invariant
            i <= segs.len(),
            all == segs_view(segs@),
            segs_view(comps@) == spec_components(all.take(i as int)),
        decreases segs.len() - i,
    {
        assert(all.take(i + 1).drop_last() =~= all.take(i as int));
        assert(all.take(i + 1).last() == segs@[i as int]@);
        let seg = &segs[i];
        if !(seg.len() == 0 || is_literal(seg.as_slice(), ".")) {
            let ghost before = segs_view(comps@);
            comps.push(seg.clone());
            assert(segs_view(comps@) =~= before.push(seg@));
        }
        i = i + 1;
    }
    assert(all.take(i as int) =~= all);
    if comps.len() == 0 {
        return None;
    }
    let name = &comps[comps.len() - 1];
    assert(segs_view(comps@).last() == name@);
    if is_literal(name.as_slice(), "..") {
        return None;
    }
    let mut k: usize = name.len();
    assert(name@.take(k as int) =~= name@);
    while k > 0 && name[k - 1] != '.'
        invariant
            k <= name.len(),
            spec_last_dot(name@) == spec_last_dot(name@.take(k as int)),
        decreases k,
    {
        assert(name@.take(k as int).drop_last() =~= name@.take(k - 1));
        k = k - 1;
    }
    if k == 0 {
        return None;
    }
    assert(name@.take(k as int).last() == '.');
    if k == 1 {
        return None;
    }
    let ext = slice_chars(name.as_slice(), k, name.len());
    assert(ext@ =~= name@.skip(k as int));
    Some(ext)
}

/// Whether the extension of `path` is `e`, ignoring ASCII case.
fn has_extension(path: &[char], e: &str) -> (r: bool)
    ensures
        r == spec_has_extension(path@, e@),
{
    match extension_chars(path) {
        Some(x) => {
            let want = str_chars(e);
            ci_eq(x.as_slice(), want.as_slice())
        },
        None => false,
    }
}

/// Whether `s` begins with the literal `prefix`.
fn starts_with_literal(s: &[char], prefix: &str) -> (r: bool)
    ensures
        r == spec_starts_with(s@, prefix@),
{
    let p = str_chars(prefix);
    if s.len() < p.len() {
        return false;
    }
    let head = slice_chars(s, 0, p.len());
    assert(head@ =~= s@.take(p@.len() as int));
    crate::text::chars_eq(head.as_slice(), p.as_slice())
}

/// Whether the literal `t` occurs in `s`.
fn contains_literal(s: &[char], t: &str) -> (r: bool)
    ensures
        r == spec_contains(s@, t@),
{
    let needle = str_chars(t);
    if needle.len() > s.len() {
        return false;
    }
    let last = s.len() - needle.len();
    let mut i: usize = 0;
    loop
        invariant
            needle@ == t@,
            last == s.len() - needle.len(),
            i <= last,
            forall|j: int| 0 <= j < i ==> #[trigger] s@.subrange(j, j + needle@.len()) != t@,
        decreases last - i,
    {
        let window = slice_chars(s, i, i + needle.len());
        if crate::text::chars_eq(window.as_slice(), needle.as_slice()) {
            assert(s@.subrange(i as int, i + needle@.len()) == t@);
            return true;
        }
        if i == last {
            return false;
        }
        i = i + 1;
    }
}

/// A pakfile entry for a material or texture (`.vmt`, `.vtf`).
pub open spec fn spec_is_pakfile_material_entry(path: Seq<char>) -> bool {
    spec_has_extension(path, "vmt"@) || spec_has_extension(path, "vtf"@)
}

/// A pakfile entry for a model file under `models/` (`.mdl`, `.vvd`,
/// `.vtx`, `.phy`).
pub open spec fn spec_is_pakfile_model_entry(path: Seq<char>) -> bool {
    spec_starts_with(path, "models/"@) && (spec_has_extension(path, "mdl"@) || spec_has_extension(path, "vvd"@)
        || spec_has_extension(path, "vtx"@) || spec_has_extension(path, "phy"@))
}

pub fn is_pakfile_material_entry(path: &str) -> (r: bool)
    ensures
        r == spec_is_pakfile_material_entry(path@),
{
    let p = str_chars(path);
    has_extension(p.as_slice(), "vmt") || has_extension(p.as_slice(), "vtf")
}

pub fn is_pakfile_model_entry(path: &str) -> (r: bool)
    ensures
        r == spec_is_pakfile_model_entry(path@),
{
    let p = str_chars(path);
    starts_with_literal(p.as_slice(), "models/") && (has_extension(p.as_slice(), "mdl") || has_extension(
        p.as_slice(),
        "vvd",
    ) || has_extension(p.as_slice(), "vtx") || has_extension(p.as_slice(), "phy"))
}

/// The pakfile entries a preview keeps: materials and models.
pub fn is_pakfile_retained_entry(path: &str) -> (r: bool)
    ensures
        r == (spec_is_pakfile_material_entry(path@) || spec_is_pakfile_model_entry(path@)),
{
    is_pakfile_material_entry(path) || is_pakfile_model_entry(path)
}

/// The largest pakfile entry a preview reads, in bytes.
pub const MAX_PAKFILE_ENTRY_BYTES: u64 = 268435456;

pub fn is_pakfile_entry_oversized(size_bytes: u64) -> (r: bool)
    ensures
        r == (size_bytes > MAX_PAKFILE_ENTRY_BYTES),
{
    size_bytes > MAX_PAKFILE_ENTRY_BYTES
}

/// A static prop model path: canonical, and with a `.mdl` extension.
pub open spec fn spec_normalize_static_prop_model_path(path: Seq<char>) -> Option<Seq<char>> {
    match spec_normalize_source_path(path, None) {
        Some(n) => if spec_has_extension(n, "mdl"@) {
            Some(n)
        } else {
            None
        },
        None => None,
    }
}

/// An entity prop model path: a static prop model path under `models/`.
pub open spec fn spec_normalize_entity_prop_model_path(path: Seq<char>) -> Option<Seq<char>> {
    match spec_normalize_static_prop_model_path(path) {
        Some(n) => if spec_starts_with(n, "models/"@) {
            Some(n)
        } else {
            None
        },
        None => None,
    }
}

pub fn normalize_static_prop_model_path(path: &str) -> (r: Option<String>)
    ensures
        match spec_normalize_static_prop_model_path(path@) {
            Some(n) => r is Some && r->0@ == n,
            None => r is None,
        },
{
    match normalize_path_chars(path, None) {
        Some(n) => if has_extension(n.as_slice(), "mdl") {
            Some(string_from_chars(n.as_slice()))
        } else {
            None
        },
        None => None,
    }
}

pub fn normalize_entity_prop_model_path(path: &str) -> (r: Option<String>)
    ensures
        match spec_normalize_entity_prop_model_path(path@) {
            Some(n) => r is Some && r->0@ == n,
            None => r is None,
        },
{
    match normalize_path_chars(path, None) {
        Some(n) => if has_extension(n.as_slice(), "mdl") && starts_with_literal(n.as_slice(), "models/") {
            Some(string_from_chars(n.as_slice()))
        } else {
            None
        },
        None => None,
    }
}

/// Whether a material is drawn in the preview: tool materials (under
/// `tools/`) and sky materials (`sky`, `skybox`, anything with a
/// `skybox/` segment) are not. The comparison is case-sensitive; material
/// names are normalised to lowercase first.
pub open spec fn spec_is_preview_material_visible(material: Seq<char>) -> bool {
    !spec_starts_with(material, "tools/"@) && !spec_contains(material, "skybox/"@) && material != "sky"@
        && material != "skybox"@
}

pub fn is_preview_material_visible(material: &str) -> (r: bool)
    ensures
        r == spec_is_preview_material_visible(material@),
{
    let m = str_chars(material);
    !starts_with_literal(m.as_slice(), "tools/") && !contains_literal(m.as_slice(), "skybox/")
        && !is_literal(m.as_slice(), "sky") && !is_literal(m.as_slice(), "skybox")
}

/// A worldspawn `skyname`: its canonical path form (no extension).
pub fn normalize_skyname(value: &str) -> (r: Option<String>)
    ensures
        match spec_normalize_source_path(value@, None) {
            Some(n) => r is Some && r->0@ == n,
            None => r is None,
        },
{
    normalize_source_path(value, None)
}

} // verus!
