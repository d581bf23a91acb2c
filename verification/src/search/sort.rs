//! Merge sort of positions under a strict total order: the index sorts
//! its items, and a search its hits, by sorting the positions `0..n`
//! with ties broken by position, which makes each sort stable.
use vstd::prelude::*;

verus! {

/// A strict total order on the positions `0..size()`.
pub trait PositionOrder {
    /// How many positions are ordered.
    spec fn size(&self) -> nat;

    /// Whether position `i` sorts strictly before position `j`.
    spec fn before(&self, i: int, j: int) -> bool;

    proof fn lemma_strict_total(&self, i: int, j: int, k: int)
        requires
            0 <= i < self.size(),
            0 <= j < self.size(),
            0 <= k < self.size(),
        ensures
            !self.before(i, i),
            i != j ==> (self.before(i, j) || self.before(j, i)),
            self.before(i, j) && self.before(j, k) ==> self.before(i, k),
    ;

    fn is_before(&self, i: usize, j: usize) -> (r: bool)
        requires
            i < self.size(),
            j < self.size(),
        ensures
            r == self.before(i as int, j as int),
    ;
}

/// `s` lists positions in strictly increasing order.
pub open spec fn sorted_by<O: PositionOrder>(o: &O, s: Seq<usize>) -> bool {
    forall|a: int, b: int| 0 <= a < b < s.len() ==> o.before(#[trigger] s[a] as int, #[trigger] s[b] as int)
}

/// `s` lists each position of `lo..hi` exactly once.
pub open spec fn lists_range(s: Seq<usize>, lo: int, hi: int) -> bool {
    &&& s.len() == hi - lo
    &&& forall|k: int| 0 <= k < s.len() ==> lo <= #[trigger] s[k] < hi
    &&& forall|x: usize| lo <= x < hi ==> #[trigger] s.contains(x)
}

/// The positions `0..n` in order: each exactly once, strictly increasing.
pub fn sort_positions<O: PositionOrder>(o: &O, n: usize) -> (r: Vec<usize>)
    requires
        n == o.size(),
    ensures
        lists_range(r@, 0, n as int),
        sorted_by(o, r@),
{
    sort_range(o, 0, n)
}

fn sort_range<O: PositionOrder>(o: &O, lo: usize, hi: usize) -> (r: Vec<usize>)
    requires
        lo <= hi <= o.size(),
    ensures
        lists_range(r@, lo as int, hi as int),
        sorted_by(o, r@),
    decreases hi - lo,
{
    if hi - lo <= 1 {
        let mut r: Vec<usize> = Vec::new();
        if hi > lo {
            r.push(lo);
            assert(r@[0] == lo);
        }
        proof {
            assert forall|x: usize| lo <= x < hi implies #[trigger] r@.contains(x) by {
                assert(r@[0] == x);
            }
        }
        return r;
    }
    let mid = lo + (hi - lo) / 2;
    let a = sort_range(o, lo, mid);
    let b = sort_range(o, mid, hi);
    merge(o, &a, &b, lo, mid, hi)
}

fn merge<O: PositionOrder>(o: &O, a: &Vec<usize>, b: &Vec<usize>, lo: usize, mid: usize, hi: usize) -> (r: Vec<usize>)
    requires
        lo <= mid <= hi <= o.size(),
        lists_range(a@, lo as int, mid as int),
        lists_range(b@, mid as int, hi as int),
        sorted_by(o, a@),
        sorted_by(o, b@),
    ensures
        lists_range(r@, lo as int, hi as int),
        sorted_by(o, r@),
{
    let mut out: Vec<usize> = Vec::new();
    let mut i: usize = 0;
    let mut j: usize = 0;
    while i < a.len() || j < b.len()
        invariant
            lo <= mid <= hi <= o.size(),
            lists_range(a@, lo as int, mid as int),
            lists_range(b@, mid as int, hi as int),
            sorted_by(o, a@),
            sorted_by(o, b@),
            i <= a.len(),
            j <= b.len(),
            out.len() == i + j,
            forall|k: int| 0 <= k < out.len() ==> lo <= #[trigger] out@[k] < hi,
            forall|p: int| 0 <= p < i ==> #[trigger] out@.contains(a@[p]),
            forall|p: int| 0 <= p < j ==> #[trigger] out@.contains(b@[p]),
            sorted_by(o, out@),
            forall|k: int| 0 <= k < out.len() && i < a.len() ==> o.before(#[trigger] out@[k] as int, a@[i as int] as int),
            forall|k: int| 0 <= k < out.len() && j < b.len() ==> o.before(#[trigger] out@[k] as int, b@[j as int] as int),
        decreases a.len() + b.len() - i - j,
    {
        let take_a = if i < a.len() && j < b.len() {
            !o.is_before(b[j], a[i])
        } else {
            i < a.len()
        };
        let ghost old_out = out@;
        if take_a {
            let x = a[i];
            proof {
                if j < b.len() {
                    o.lemma_strict_total(x as int, b@[j as int] as int, x as int);
                    assert(o.before(x as int, b@[j as int] as int));
                }
            }
            out.push(x);
            i = i + 1;
            proof {
                assert(out@.last() == x);
                assert forall|k: int| 0 <= k < out.len() && i < a.len() implies o.before(#[trigger] out@[k] as int, a@[i as int] as int) by {
                    assert(o.before(x as int, a@[i as int] as int));
                    if k < old_out.len() {
                        assert(out@[k] == old_out[k]);
                        o.lemma_strict_total(out@[k] as int, x as int, a@[i as int] as int);
                    }
                }
                assert forall|p: int| 0 <= p < i implies #[trigger] out@.contains(a@[p]) by {
                    if p < i - 1 {
                        assert(old_out.contains(a@[p]));
                        let w = choose|w: int| 0 <= w < old_out.len() && old_out[w] == a@[p];
                        assert(out@[w] == a@[p]);
                    } else {
                        assert(out@[out.len() - 1] == a@[p]);
                    }
                }
                assert forall|p: int| 0 <= p < j implies #[trigger] out@.contains(b@[p]) by {
                    assert(old_out.contains(b@[p]));
                    let w = choose|w: int| 0 <= w < old_out.len() && old_out[w] == b@[p];
                    assert(out@[w] == b@[p]);
                }
            }
        } else {
            let y = b[j];
            proof {
                if i < a.len() {
                    assert(o.before(y as int, a@[i as int] as int));
                }
            }
            out.push(y);
            j = j + 1;
            proof {
                assert(out@.last() == y);
                assert forall|k: int| 0 <= k < out.len() && j < b.len() implies o.before(#[trigger] out@[k] as int, b@[j as int] as int) by {
                    assert(o.before(y as int, b@[j as int] as int));
                    if k < old_out.len() {
                        assert(out@[k] == old_out[k]);
                        o.lemma_strict_total(out@[k] as int, y as int, b@[j as int] as int);
                    }
                }
                assert forall|p: int| 0 <= p < j implies #[trigger] out@.contains(b@[p]) by {
                    if p < j - 1 {
                        assert(old_out.contains(b@[p]));
                        let w = choose|w: int| 0 <= w < old_out.len() && old_out[w] == b@[p];
                        assert(out@[w] == b@[p]);
                    } else {
                        assert(out@[out.len() - 1] == b@[p]);
                    }
                }
                assert forall|p: int| 0 <= p < i implies #[trigger] out@.contains(a@[p]) by {
                    assert(old_out.contains(a@[p]));
                    let w = choose|w: int| 0 <= w < old_out.len() && old_out[w] == a@[p];
                    assert(out@[w] == a@[p]);
                }
            }
        }
    }
    proof {
        assert forall|x: usize| lo <= x < hi implies #[trigger] out@.contains(x) by {
            if x < mid {
                assert(a@.contains(x));
                let p = choose|p: int| 0 <= p < a@.len() && a@[p] == x;
                assert(out@.contains(a@[p]));
            } else {
                assert(b@.contains(x));
                let p = choose|p: int| 0 <= p < b@.len() && b@[p] == x;
                assert(out@.contains(b@[p]));
            }
        }
    }
    out
}

} // verus!
