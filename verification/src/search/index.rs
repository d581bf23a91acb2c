//! The search index: its items, ranked by `item_order`, and the installed
//! addons by Workshop id.
use std::collections::BTreeMap;
use std::sync::Arc;

use vstd::prelude::*;

use super::item::{
    compare_items, compare_sources, item_order, lemma_item_order_props, lemma_item_order_trans, share_item,
    source_order, source_rank, SearchItem, SearchItemModel, SearchItemSource, SourceModel,
};
use super::item::{
    copy_source, spec_new_item, strings_view, FileSearchAddon, FileSearchAddonModel, SearchScope,
};
use super::score::{best_search_item_score, item_score, FuzzyScorer};
use super::sort::{lists_range, sort_positions, sorted_by, PositionOrder};
use super::item::byte_len;
use crate::text::{chars_eq, str_chars};

verus! {

broadcast use vstd::std_specs::btree::group_btree_axioms;

/// The models of a list of shared items.
pub open spec fn items_model(v: Seq<Arc<SearchItem>>) -> Seq<SearchItemModel> {
    Seq::new(v.len(), |i: int| v[i]@)
}

/// The models of the installed addons by Workshop id.
pub open spec fn addons_model(m: Map<u64, Arc<SearchItem>>) -> Map<u64, SearchItemModel> {
    Map::new(|k: u64| m.dom().contains(k), |k: u64| m[k]@)
}

/// Whether `s[j]` is the first item of its `item_order` class in `s`.
pub open spec fn first_of_class(s: Seq<SearchItemModel>, j: int) -> bool {
    forall|i: int| 0 <= i < j ==> item_order(#[trigger] s[i], s[j]) != 0
}

/// Whether `s` is strictly increasing in `item_order`.
pub open spec fn strictly_sorted(s: Seq<SearchItemModel>) -> bool {
    forall|a: int, b: int| 0 <= a < b < s.len() ==> item_order(#[trigger] s[a], #[trigger] s[b]) < 0
}

/// `x` is the first item of its class in `s`.
pub open spec fn is_class_first(s: Seq<SearchItemModel>, x: SearchItemModel) -> bool {
    exists|j: int| 0 <= j < s.len() && first_of_class(s, j) && s[j] == x
}

/// Every item of `out` is the first of its class in `s`.
pub open spec fn all_first_of_class(s: Seq<SearchItemModel>, out: Seq<SearchItemModel>) -> bool {
    forall|k: int| 0 <= k < out.len() ==> #[trigger] is_class_first(s, out[k])
}

/// Every class of `s` has its first item in `out`.
pub open spec fn every_class_kept(s: Seq<SearchItemModel>, out: Seq<SearchItemModel>) -> bool {
    forall|j: int| 0 <= j < s.len() && #[trigger] first_of_class(s, j) ==> out.contains(s[j])
}

/// What sorting `s` and dropping repeats leaves: one item per
/// `item_order` class, the first of it in `s`, in increasing order.
pub open spec fn sorted_representatives(s: Seq<SearchItemModel>, out: Seq<SearchItemModel>) -> bool {
    &&& strictly_sorted(out)
    &&& all_first_of_class(s, out)
    &&& every_class_kept(s, out)
}

/// A hit of a search: the item and its score.
#[derive(Debug)]
pub struct QuickSearchHit {
    pub score: u32,
    pub item: Arc<SearchItem>,
}

/// What a quick search finds, best first, and whether it stopped early.
#[derive(Debug)]
pub struct QuickSearchResult {
    pub hits: Vec<QuickSearchHit>,
    pub has_more: bool,
}

/// Something the index can hold.
pub trait Searchable {
    fn search_item(&self) -> Option<SearchItem>;
}

/// The index: items in rank order once sorted, and each installed addon
/// with a Workshop id by that id. Bulk changes only append and mark the
/// index dirty; the next search sorts it once.
pub struct Search {
    dirty: bool,
    items: Vec<Arc<SearchItem>>,
    installed_addons: BTreeMap<u64, Arc<SearchItem>>,
}

pub struct SearchModel {
    pub dirty: bool,
    pub items: Seq<SearchItemModel>,
    pub installed: Map<u64, SearchItemModel>,
}

impl View for Search {
    type V = SearchModel;

    closed spec fn view(&self) -> SearchModel {
        SearchModel {
            dirty: self.dirty,
            items: items_model(self.items@),
            installed: addons_model(self.installed_addons@),
        }
    }
}

/// Positions of a list of items, by rank with ties broken by position.
struct RankOrder<'a> {
    items: &'a Vec<Arc<SearchItem>>,
}

impl<'a> PositionOrder for RankOrder<'a> {
    closed spec fn size(&self) -> nat {
        self.items@.len()
    }

    closed spec fn before(&self, i: int, j: int) -> bool {
        let o = item_order(self.items@[i]@, self.items@[j]@);
        o < 0 || (o == 0 && i < j)
    }

    proof fn lemma_strict_total(&self, i: int, j: int, k: int) {
        let (a, b, c) = (self.items@[i]@, self.items@[j]@, self.items@[k]@);
        lemma_item_order_props(a, a);
        lemma_item_order_props(a, b);
        lemma_item_order_props(b, c);
        lemma_item_order_props(a, c);
        if self.before(i, j) && self.before(j, k) {
            lemma_item_order_trans(a, b, c);
        }
    }

    fn is_before(&self, i: usize, j: usize) -> (r: bool) {
        let o = compare_items(&self.items[i], &self.items[j]);
        o < 0 || (o == 0 && i < j)
    }
}

/// Position `u` of `r` holds position `x`.
proof fn lemma_position_of(r: Seq<usize>, n: int, x: usize) -> (u: int)
    requires
        lists_range(r, 0, n),
        0 <= x < n,
    ensures
        0 <= u < r.len(),
        r[u] == x,
{
    assert(r.contains(x));
    choose|u: int| 0 <= u < r.len() && r[u] == x
}

/// Position of the first item whose source has the identity of `src`;
/// the length when there is none.
pub open spec fn first_same_source(s: Seq<SearchItemModel>, src: SourceModel) -> int
    decreases s.len(),
{
    if s.len() == 0 {
        0
    } else if source_order(s[0].source, src) == 0 {
        0
    } else {
        1 + first_same_source(s.drop_first(), src)
    }
}

/// `s` without its first item of the same source identity as `src`.
pub open spec fn without_same_source(s: Seq<SearchItemModel>, src: SourceModel) -> Seq<SearchItemModel> {
    let p = first_same_source(s, src);
    if p < s.len() {
        s.remove(p)
    } else {
        s
    }
}

/// Whether `s` is sorted by rank, ties allowed.
pub open spec fn sorted_by_rank(s: Seq<SearchItemModel>) -> bool {
    forall|a: int, b: int| 0 <= a < b < s.len() ==> item_order(#[trigger] s[a], #[trigger] s[b]) <= 0
}

/// `pos` is where `x` sorts into `s`: after every item ranked before it,
/// before every other.
pub open spec fn rank_position(s: Seq<SearchItemModel>, x: SearchItemModel, pos: int) -> bool {
    &&& 0 <= pos <= s.len()
    &&& forall|i: int| 0 <= i < pos ==> item_order(#[trigger] s[i], x) < 0
    &&& forall|i: int| pos <= i < s.len() ==> item_order(#[trigger] s[i], x) >= 0
}

/// The Workshop id an item is indexed by among installed addons: that of
/// an installed addon that has one.
pub open spec fn installed_id(m: SearchItemModel) -> Option<u64> {
    match m.source {
        SourceModel::InstalledAddons(_, Some(id)) => Some(id),
        _ => None,
    }
}

/// The installed addons after indexing `m`.
pub open spec fn with_installed(installed: Map<u64, SearchItemModel>, m: SearchItemModel) -> Map<u64, SearchItemModel> {
    match installed_id(m) {
        Some(id) => installed.insert(id, m),
        None => installed,
    }
}

/// The installed addons after indexing each of `ms` in turn.
pub open spec fn with_installed_all(installed: Map<u64, SearchItemModel>, ms: Seq<SearchItemModel>) -> Map<u64, SearchItemModel>
    decreases ms.len(),
{
    if ms.len() == 0 {
        installed
    } else {
        with_installed(with_installed_all(installed, ms.drop_last()), ms.last())
    }
}

/// What adding one item does: a dirty index appends it; a clean one drops
/// the first item of the same source identity and puts it where it sorts.
pub open spec fn added(old: SearchModel, m: SearchItemModel, new: SearchModel) -> bool {
    &&& new.installed == with_installed(old.installed, m)
    &&& new.dirty == old.dirty
    &&& if old.dirty {
        new.items == old.items.push(m)
    } else {
        let rest = without_same_source(old.items, m.source);
        exists|pos: int|
            0 <= pos <= rest.len() && new.items == rest.insert(pos, m) && (sorted_by_rank(rest) ==> rank_position(rest, m, pos))
    }
}

/// `s` without the items whose source is of kind `rank`.
pub open spec fn without_kind(s: Seq<SearchItemModel>, rank: int) -> Seq<SearchItemModel>
    decreases s.len(),
{
    if s.len() == 0 {
        s
    } else {
        let rest = without_kind(s.drop_last(), rank);
        if source_rank(s.last().source) == rank {
            rest
        } else {
            rest.push(s.last())
        }
    }
}

/// The models of a list of items.
pub open spec fn item_models(v: Seq<SearchItem>) -> Seq<SearchItemModel> {
    Seq::new(v.len(), |i: int| v[i]@)
}

proof fn lemma_first_same_source(s: Seq<SearchItemModel>, src: SourceModel, p: int)
    requires
        0 <= p <= s.len(),
        forall|j: int| 0 <= j < p ==> source_order(#[trigger] s[j].source, src) != 0,
        p < s.len() ==> source_order(s[p].source, src) == 0,
    ensures
        first_same_source(s, src) == p,
    decreases s.len(),
{
    if s.len() > 0 && p > 0 {
        assert forall|j: int| 0 <= j < p - 1 implies source_order(#[trigger] s.drop_first()[j].source, src) != 0 by {
            assert(s.drop_first()[j] == s[j + 1]);
        }
        if p < s.len() {
            assert(s.drop_first()[p - 1] == s[p]);
        }
        lemma_first_same_source(s.drop_first(), src, p - 1);
        assert(source_order(s[0].source, src) != 0);
    }
}

/// Position of the first item of the same source identity as `src`.
fn position_same_source(items: &Vec<Arc<SearchItem>>, src: &SearchItemSource) -> (p: usize)
    ensures
        p == first_same_source(items_model(items@), src@),
        p <= items.len(),
{
    let ghost s = items_model(items@);
    let mut i: usize = 0;
    while i < items.len()
        invariant
            s == items_model(items@),
            i <= items.len(),
            forall|j: int| 0 <= j < i ==> source_order(#[trigger] s[j].source, src@) != 0,
        decreases items.len() - i,
    {
        if compare_sources(&items[i].source, src) == 0 {
            proof {
                lemma_first_same_source(s, src@, i as int);
            }
            return i;
        }
        i = i + 1;
    }
    proof {
        lemma_first_same_source(s, src@, i as int);
    }
    i
}

/// Where `x` sorts into `items`, by binary search: exact when `items` is
/// sorted by rank, some position otherwise.
fn rank_lower_bound(items: &Vec<Arc<SearchItem>>, x: &SearchItem) -> (pos: usize)
    ensures
        pos <= items.len(),
        sorted_by_rank(items_model(items@)) ==> rank_position(items_model(items@), x@, pos as int),
{
    let ghost s = items_model(items@);
    let mut lo: usize = 0;
    let mut hi: usize = items.len();
    while lo < hi
        invariant
            s == items_model(items@),
            lo <= hi <= items.len(),
            sorted_by_rank(s) ==> forall|i: int| 0 <= i < lo ==> item_order(#[trigger] s[i], x@) < 0,
            sorted_by_rank(s) ==> forall|i: int| hi <= i < s.len() ==> item_order(#[trigger] s[i], x@) >= 0,
        decreases hi - lo,
    {
        let mid = lo + (hi - lo) / 2;
        if compare_items(&items[mid], x) < 0 {
            proof {
                if sorted_by_rank(s) {
                    assert forall|i: int| 0 <= i < mid + 1 implies item_order(#[trigger] s[i], x@) < 0 by {
                        if i < mid {
                            lemma_item_order_trans(s[i], s[mid as int], x@);
                        }
                    }
                }
            }
            lo = mid + 1;
        } else {
            proof {
                if sorted_by_rank(s) {
                    assert forall|i: int| mid <= i < s.len() implies item_order(#[trigger] s[i], x@) >= 0 by {
                        if i > mid && item_order(s[i], x@) < 0 {
                            lemma_item_order_trans(s[mid as int], s[i], x@);
                        }
                    }
                }
            }
            hi = mid;
        }
    }
    lo
}

proof fn lemma_addons_insert(m: Map<u64, Arc<SearchItem>>, id: u64, a: Arc<SearchItem>)
    ensures
        addons_model(m.insert(id, a)) == addons_model(m).insert(id, a@),
{
    assert(addons_model(m.insert(id, a)) =~= addons_model(m).insert(id, a@));
}

/// Whether a source belongs to a search scope: files to `Files`, the
/// rest to `Addons`.
pub open spec fn scope_matches(src: SourceModel, scope: SearchScope) -> bool {
    match scope {
        SearchScope::Files => src is InstalledAddonFile,
        SearchScope::Addons => !(src is InstalledAddonFile),
    }
}

/// Most hits a quick search returns.
pub const MAX_QUICK_RESULTS: u8 = 10;

/// Most hits a full search returns.
pub const FULL_SEARCH_MAX_HITS: usize = 10000;

/// A quick search over `s`, item by item: the hits so far (scored
/// in-scope items at least as long as the query), and whether it stopped,
/// which it does at the first in-scope item met once it holds
/// `MAX_QUICK_RESULTS` hits.
pub open spec fn quick_walk(s: Seq<SearchItemModel>, q: Seq<char>, scope: SearchScope) -> (Seq<(u32, SearchItemModel)>, bool)
    decreases s.len(),
{
    if s.len() == 0 {
        (Seq::empty(), false)
    } else {
        let (hits, stopped) = quick_walk(s.drop_last(), q, scope);
        let m = s.last();
        if stopped || !scope_matches(m.source, scope) {
            (hits, stopped)
        } else if hits.len() >= MAX_QUICK_RESULTS {
            (hits, true)
        } else if m.len < byte_len(q) {
            (hits, false)
        } else {
            match item_score(q, m) {
                Some(sc) => (hits.push((sc, m)), false),
                None => (hits, false),
            }
        }
    }
}

/// Every scored in-scope item of `s` at least as long as the query, in
/// index order.
pub open spec fn full_walk(s: Seq<SearchItemModel>, q: Seq<char>, scope: SearchScope) -> Seq<(u32, SearchItemModel)>
    decreases s.len(),
{
    if s.len() == 0 {
        Seq::empty()
    } else {
        let hits = full_walk(s.drop_last(), q, scope);
        let m = s.last();
        if scope_matches(m.source, scope) && m.len >= byte_len(q) {
            match item_score(q, m) {
                Some(sc) => hits.push((sc, m)),
                None => hits,
            }
        } else {
            hits
        }
    }
}

/// `r` lists the positions of `c` best score first, ties in their order
/// in `c`.
pub open spec fn score_ranking(c: Seq<(u32, SearchItemModel)>, r: Seq<usize>) -> bool {
    &&& lists_range(r, 0, c.len() as int)
    &&& forall|a: int, b: int|
        0 <= a < b < r.len() ==> #[trigger] c[r[a] as int].0 > #[trigger] c[r[b] as int].0 || (c[r[a] as int].0 == c[r[b] as int].0 && r[a] < r[b])
}

/// `out` is `c` sorted by score, best first, stably.
pub open spec fn ranked_by_score(c: Seq<(u32, SearchItemModel)>, out: Seq<(u32, SearchItemModel)>) -> bool {
    exists|r: Seq<usize>| score_ranking(c, r) && out == Seq::new(r.len(), |k: int| c[r[k] as int])
}

/// The models of a list of hits.
pub open spec fn hits_model(v: Seq<QuickSearchHit>) -> Seq<(u32, SearchItemModel)> {
    Seq::new(v.len(), |i: int| (v[i].score, v[i].item@))
}

/// What `dirty` leaves of an index.
pub open spec fn cleaned(old: SearchModel, new: SearchModel) -> bool {
    &&& new.installed == old.installed
    &&& !new.dirty
    &&& !old.dirty ==> new.items == old.items
    &&& old.dirty ==> sorted_representatives(old.items, new.items)
}

/// Position of the first item equal to `e`; the length when none is.
pub open spec fn first_equal(s: Seq<SearchItemModel>, e: SearchItemModel) -> int
    decreases s.len(),
{
    if s.len() == 0 {
        0
    } else if s[0] == e {
        0
    } else {
        1 + first_equal(s.drop_first(), e)
    }
}

/// The index after taking Workshop title `title` for installed addon
/// `id`: a changed title rebuilds its item with the title as label and
/// the old label kept as a term, filed under the id and put in place of
/// the first item equal to the old one.
pub open spec fn refreshed(st: SearchModel, id: u64, title: Seq<char>) -> SearchModel {
    if !st.installed.contains_key(id) {
        st
    } else {
        let e = st.installed[id];
        if e.label == title {
            st
        } else {
            let rep = spec_new_item(e.source, title, e.terms.push(e.label), e.timestamp);
            let p = first_equal(st.items, e);
            SearchModel {
                dirty: st.dirty,
                installed: st.installed.insert(id, rep),
                items: if p < st.items.len() {
                    st.items.update(p, rep)
                } else {
                    st.items
                },
            }
        }
    }
}

/// `refreshed` for each update in turn.
pub open spec fn refreshed_all(st: SearchModel, updates: Seq<(u64, Seq<char>)>) -> SearchModel
    decreases updates.len(),
{
    if updates.len() == 0 {
        st
    } else {
        let prev = refreshed_all(st, updates.drop_last());
        refreshed(prev, updates.last().0, updates.last().1)
    }
}

/// The models of a list of title updates.
pub open spec fn updates_model(v: Seq<(u64, String)>) -> Seq<(u64, Seq<char>)> {
    Seq::new(v.len(), |i: int| (v[i].0, v[i].1@))
}

/// Positions of a list of hits, best score first, ties by position.
struct ScoreOrder<'a> {
    hits: &'a Vec<QuickSearchHit>,
}

impl<'a> PositionOrder for ScoreOrder<'a> {
    closed spec fn size(&self) -> nat {
        self.hits@.len()
    }

    closed spec fn before(&self, i: int, j: int) -> bool {
        let (a, b) = (self.hits@[i].score, self.hits@[j].score);
        a > b || (a == b && i < j)
    }

    proof fn lemma_strict_total(&self, i: int, j: int, k: int) {
    }

    fn is_before(&self, i: usize, j: usize) -> (r: bool) {
        let (a, b) = (self.hits[i].score, self.hits[j].score);
        a > b || (a == b && i < j)
    }
}

/// The hits sorted by score, best first, stably.
fn rank_hits(hits: Vec<QuickSearchHit>) -> (r: Vec<QuickSearchHit>)
    ensures
        ranked_by_score(hits_model(hits@), hits_model(r@)),
{
    let ghost c = hits_model(hits@);
    let order = ScoreOrder { hits: &hits };
    let pos = sort_positions(&order, hits.len());
    let mut out: Vec<QuickSearchHit> = Vec::new();
    let mut k: usize = 0;
    while k < pos.len()
        invariant
            c == hits_model(hits@),
            lists_range(pos@, 0, hits@.len() as int),
            k <= pos.len(),
            hits_model(out@) == Seq::new(k as nat, |t: int| c[pos@[t] as int]),
        decreases pos.len() - k,
    {
        let h = &hits[pos[k]];
        let hit = QuickSearchHit { score: h.score, item: share_item(&h.item) };
        let ghost hv = (hit.score, hit.item@);
        assert(hv == c[pos@[k as int] as int]);
        let ghost before = hits_model(out@);
        out.push(hit);
        assert(hits_model(out@) =~= before.push(hv));
        assert(before.push(hv) =~= Seq::new((k + 1) as nat, |t: int| c[pos@[t] as int]));
        k = k + 1;
    }
    proof {
        assert(score_ranking(c, pos@)) by {
            assert forall|a: int, b: int| 0 <= a < b < pos@.len() implies #[trigger] c[pos@[a] as int].0 > #[trigger] c[pos@[b] as int].0
                || (c[pos@[a] as int].0 == c[pos@[b] as int].0 && pos@[a] < pos@[b]) by {
                assert(order.before(pos@[a] as int, pos@[b] as int));
            }
        }
    }
    out
}

proof fn lemma_quick_walk_stopped(s: Seq<SearchItemModel>, q: Seq<char>, scope: SearchScope, i: int)
    requires
        0 <= i <= s.len(),
        quick_walk(s.take(i), q, scope).1,
    ensures
        quick_walk(s, q, scope) == quick_walk(s.take(i), q, scope),
    decreases s.len() - i,
{
    if i < s.len() {
        assert(s.take(i + 1).drop_last() =~= s.take(i));
        assert(quick_walk(s.take(i + 1), q, scope) == quick_walk(s.take(i), q, scope));
        lemma_quick_walk_stopped(s, q, scope, i + 1);
    } else {
        assert(s.take(i) =~= s);
    }
}

proof fn lemma_first_equal(s: Seq<SearchItemModel>, e: SearchItemModel, p: int)
    requires
        0 <= p <= s.len(),
        forall|j: int| 0 <= j < p ==> #[trigger] s[j] != e,
        p < s.len() ==> s[p] == e,
    ensures
        first_equal(s, e) == p,
    decreases s.len(),
{
    if s.len() > 0 && p > 0 {
        assert forall|j: int| 0 <= j < p - 1 implies #[trigger] s.drop_first()[j] != e by {
            assert(s.drop_first()[j] == s[j + 1]);
        }
        if p < s.len() {
            assert(s.drop_first()[p - 1] == s[p]);
        }
        lemma_first_equal(s.drop_first(), e, p - 1);
        assert(s[0] != e);
    }
}

/// Whether two strings hold the same chars.
fn same_string(a: &String, b: &String) -> (r: bool)
    ensures
        r == (a@ == b@),
{
    let x = str_chars(a.as_str());
    let y = str_chars(b.as_str());
    chars_eq(x.as_slice(), y.as_slice())
}

fn same_opt_string(a: &Option<String>, b: &Option<String>) -> (r: bool)
    ensures
        r == (super::item::opt_chars(*a) == super::item::opt_chars(*b)),
{
    match (a, b) {
        (Some(x), Some(y)) => same_string(x, y),
        (None, None) => true,
        _ => false,
    }
}

fn same_strings(a: &Vec<String>, b: &Vec<String>) -> (r: bool)
    ensures
        r == (strings_view(a@) == strings_view(b@)),
{
    if a.len() != b.len() {
        proof {
            assert(strings_view(a@).len() != strings_view(b@).len());
        }
        return false;
    }
    let mut i: usize = 0;
    while i < a.len()
        invariant
            a.len() == b.len(),
            i <= a.len(),
            forall|j: int| 0 <= j < i ==> a@[j]@ == b@[j]@,
        decreases a.len() - i,
    {
        if !same_string(&a[i], &b[i]) {
            proof {
                assert(strings_view(a@)[i as int] != strings_view(b@)[i as int]);
            }
            return false;
        }
        i = i + 1;
    }
    assert(strings_view(a@) =~= strings_view(b@));
    true
}

fn same_addon(a: &FileSearchAddon, b: &FileSearchAddon) -> (r: bool)
    ensures
        r == (a@ == b@),
{
    same_string(&a.path, &b.path) && same_string(&a.title, &b.title) && a.workshop_id == b.workshop_id
        && same_opt_string(&a.id_str, &b.id_str)
}

fn same_source(a: &SearchItemSource, b: &SearchItemSource) -> (r: bool)
    ensures
        r == (a@ == b@),
{
    match (a, b) {
        (SearchItemSource::InstalledAddons(pa, ia), SearchItemSource::InstalledAddons(pb, ib)) => same_string(pa, pb) && *ia == *ib,
        (
            SearchItemSource::InstalledAddonFile { addon: x, entry_path: ea, size_bytes: sa, crc32: ca },
            SearchItemSource::InstalledAddonFile { addon: y, entry_path: eb, size_bytes: sb, crc32: cb },
        ) => same_addon(x, y) && same_string(ea, eb) && *sa == *sb && *ca == *cb,
        (SearchItemSource::MyWorkshop(x), SearchItemSource::MyWorkshop(y)) => *x == *y,
        (SearchItemSource::WorkshopItem(x), SearchItemSource::WorkshopItem(y)) => *x == *y,
        _ => false,
    }
}

/// Whether two items hold the same contents.
fn same_item(a: &SearchItem, b: &SearchItem) -> (r: bool)
    ensures
        r == (a@ == b@),
{
    same_string(&a.label, &b.label) && same_strings(&a.terms, &b.terms) && a.timestamp == b.timestamp && a.len == b.len
        && same_source(&a.source, &b.source)
}

fn copy_strings(v: &Vec<String>) -> (r: Vec<String>)
    ensures
        strings_view(r@) == strings_view(v@),
{
    let mut r: Vec<String> = Vec::new();
    let mut i: usize = 0;
    while i < v.len()
        invariant
            i <= v.len(),
            strings_view(r@) == strings_view(v@).take(i as int),
        decreases v.len() - i,
    {
        let c = v[i].clone();
        let ghost cv = c@;
        assert(cv == v@[i as int]@);
        let ghost before = strings_view(r@);
        r.push(c);
        assert(strings_view(r@) =~= before.push(cv));
        assert(strings_view(r@) =~= strings_view(v@).take(i + 1));
        i = i + 1;
    }
    assert(strings_view(v@).take(v.len() as int) =~= strings_view(v@));
    r
}

impl Search {
    pub fn new() -> (r: Search)
        ensures
            !r@.dirty,
            r@.items == Seq::<SearchItemModel>::empty(),
            r@.installed == Map::<u64, SearchItemModel>::empty(),
    {
        let r = Search { dirty: false, items: Vec::new(), installed_addons: BTreeMap::new() };
        assert(r@.items =~= Seq::<SearchItemModel>::empty());
        assert(r@.installed =~= Map::<u64, SearchItemModel>::empty());
        r
    }

    /// The items, in index order.
    pub fn items(&self) -> (r: &Vec<Arc<SearchItem>>)
        ensures
            items_model(r@) == self@.items,
    {
        &self.items
    }

    /// The installed addons by Workshop id.
    pub fn installed_addons(&self) -> (r: &BTreeMap<u64, Arc<SearchItem>>)
        ensures
            addons_model(r@) == self@.installed,
    {
        &self.installed_addons
    }

    /// Whether the next search sorts the index first.
    pub fn is_dirty(&self) -> (r: bool)
        ensures
            r == self@.dirty,
    {
        self.dirty
    }

    /// Sorts a dirty index by rank and drops repeats, keeping the first of
    /// each rank-equal run; a clean index is left as it is.
    pub fn dirty(&mut self)
        ensures
            cleaned(old(self)@, final(self)@),
    {
        if !self.dirty {
            return;
        }
        let ghost s = items_model(self.items@);
        let order = RankOrder { items: &self.items };
        let r = sort_positions(&order, self.items.len());
        let mut out: Vec<Arc<SearchItem>> = Vec::new();
        let mut t: usize = 0;
        proof {
            assert(items_model(out@) =~= kept_items(s, r@, 0));
        }
        while t < r.len()
            invariant
                s == items_model(self.items@),
                lists_range(r@, 0, self.items@.len() as int),
                t <= r.len(),
                items_model(out@) == kept_items(s, r@, t as nat),
            decreases r.len() - t,
        {
            let p = r[t];
            let keep = t == 0 || compare_items(&self.items[r[t - 1]], &self.items[p]) != 0;
            let ghost before = items_model(out@);
            let ghost kp = kept_positions(s, r@, t as nat);
            proof {
                if t > 0 {
                    assert(s[r@[t - 1] as int] == self.items@[r@[t - 1] as int]@);
                }
                assert(keep == run_start(s, r@, t as int));
            }
            if keep {
                let item = share_item(&self.items[p]);
                out.push(item);
                proof {
                    assert(kept_positions(s, r@, (t + 1) as nat) == kp.push(t as int));
                    assert(items_model(out@) =~= before.push(s[p as int]));
                    assert(items_model(out@) =~= kept_items(s, r@, (t + 1) as nat));
                }
            } else {
                proof {
                    assert(kept_positions(s, r@, (t + 1) as nat) == kp);
                    assert(items_model(out@) =~= kept_items(s, r@, (t + 1) as nat));
                }
            }
            t = t + 1;
        }
        proof {
            lemma_kept_are_representatives(&order, r@);
        }
        self.items = out;
        self.dirty = false;
    }
    /// Makes room for `amount` more items.
    pub fn reserve(&mut self, amount: usize)
        ensures
            final(self)@ == old(self)@,
    {
        self.items.reserve(amount);
    }

    /// Indexes one item. A dirty index appends it; a clean one drops its
    /// older entry of the same source identity (a re-added addon usually
    /// carries a new timestamp, so it would sort elsewhere) and puts it
    /// where it sorts. An installed addon with a Workshop id is also filed
    /// under that id.
    pub fn add_search_item(&mut self, item: SearchItem)
        ensures
            added(old(self)@, item@, final(self)@),
    {
        let ghost pm = item@;
        let item = Arc::new(item);
        let ghost m = item@;
        assert(m == pm);
        let ghost old_installed = addons_model(self.installed_addons@);
        match &item.source {
            SearchItemSource::InstalledAddons(_, Some(id)) => {
                let shared = share_item(&item);
                proof {
                    lemma_addons_insert(self.installed_addons@, *id, shared);
                }
                self.installed_addons.insert(*id, shared);
            },
            _ => {},
        }
        assert(addons_model(self.installed_addons@) == with_installed(old_installed, m));
        let ghost rest_before = items_model(self.items@);
        assert(rest_before == old(self)@.items);
        if self.dirty {
            self.items.push(item);
            assert(items_model(self.items@) =~= rest_before.push(m));
        } else {
            let p = position_same_source(&self.items, &item.source);
            if p < self.items.len() {
                self.items.remove(p);
                assert(items_model(self.items@) =~= rest_before.remove(p as int));
            }
            let ghost rest = items_model(self.items@);
            assert(rest == without_same_source(rest_before, m.source));
            let pos = rank_lower_bound(&self.items, &item);
            self.items.insert(pos, item);
            assert(items_model(self.items@) =~= rest.insert(pos as int, m));
            assert(0 <= pos as int <= rest.len() && items_model(self.items@) == rest.insert(pos as int, m) && (sorted_by_rank(rest) ==> rank_position(rest, m, pos as int)));
            assert(exists|q: int| 0 <= q <= rest.len() && items_model(self.items@) == rest.insert(q, m) && (sorted_by_rank(rest) ==> rank_position(rest, m, q)));
        }
        assert(self@.installed == with_installed(old(self)@.installed, m));
        assert(self@.dirty == old(self)@.dirty);
        assert(old(self)@.dirty ==> self@.items == old(self)@.items.push(m));
        assert(!old(self)@.dirty ==> exists|q: int|
            0 <= q <= without_same_source(old(self)@.items, m.source).len() && self@.items == without_same_source(old(self)@.items, m.source).insert(q, m)
                && (sorted_by_rank(without_same_source(old(self)@.items, m.source)) ==> rank_position(without_same_source(old(self)@.items, m.source), m, q)));
        assert(added(old(self)@, m, self@));
    }

    /// Indexes what `item` gives to search, if anything.
    pub fn add<V: Searchable>(&mut self, item: &V)
        ensures
            final(self)@ == old(self)@ || exists|m: SearchItemModel| added(old(self)@, m, final(self)@),
    {
        match item.search_item() {
            Some(search_item) => self.add_search_item(search_item),
            None => {},
        }
    }

    /// Appends items in one batch and marks the index dirty; installed
    /// addons with a Workshop id are filed under it, later ones winning.
    pub fn add_search_items(&mut self, items: Vec<SearchItem>)
        ensures
            final(self)@.items == old(self)@.items + item_models(items@),
            final(self)@.installed == with_installed_all(old(self)@.installed, item_models(items@)),
            final(self)@.dirty,
    {
        let ghost old_items = items_model(self.items@);
        let ghost old_installed = addons_model(self.installed_addons@);
        let ghost all = item_models(items@);
        for item in it: items.into_iter()
            invariant
                all == item_models(it.seq()),
                items_model(self.items@) == old_items + all.take(it.index() as int),
                addons_model(self.installed_addons@) == with_installed_all(old_installed, all.take(it.index() as int)),
        {
            let ghost k = it.index() as int;
            let item = Arc::new(item);
            proof {
                assert(item@ == all[k]);
                assert(all.take(k + 1).drop_last() =~= all.take(k));
                assert(all.take(k + 1).last() == all[k]);
            }
            match &item.source {
                SearchItemSource::InstalledAddons(_, Some(id)) => {
                    let shared = share_item(&item);
                    proof {
                        lemma_addons_insert(self.installed_addons@, *id, shared);
                    }
                    self.installed_addons.insert(*id, shared);
                },
                _ => {},
            }
            let ghost before = items_model(self.items@);
            self.items.push(item);
            assert(items_model(self.items@) =~= before.push(all[k]));
            assert(old_items + all.take(k + 1) =~= (old_items + all.take(k)).push(all[k]));
        }
        assert(all.take(all.len() as int) =~= all);
        self.dirty = true;
    }

    /// Indexes in one batch what each of `items` gives to search.
    pub fn add_bulk<V: Searchable>(&mut self, items: &[V])
        ensures
            exists|ms: Seq<SearchItemModel>|
                final(self)@.items == old(self)@.items + ms && final(self)@.installed == with_installed_all(old(self)@.installed, ms),
            final(self)@.dirty,
    {
        let mut found: Vec<SearchItem> = Vec::new();
        let mut i: usize = 0;
        while i < items.len()
            invariant
                i <= items.len(),
            decreases items.len() - i,
        {
            match items[i].search_item() {
                Some(search_item) => found.push(search_item),
                None => {},
            }
            i = i + 1;
        }
        self.add_search_items(found);
    }

    /// Replaces every installed-addon item with `items` and rebuilds the
    /// by-id table from them; other items stay. Marks the index dirty.
    pub fn sync_installed_addons(&mut self, items: Vec<SearchItem>)
        ensures
            final(self)@.items == without_kind(old(self)@.items, 0) + item_models(items@),
            final(self)@.installed == with_installed_all(Map::empty(), item_models(items@)),
            final(self)@.dirty,
    {
        self.retain_other_kinds(0);
        let ghost kept = items_model(self.items@);
        self.installed_addons = BTreeMap::new();
        assert(addons_model(self.installed_addons@) =~= Map::<u64, SearchItemModel>::empty());
        self.add_search_items(items);
        assert(with_installed_all(Map::<u64, SearchItemModel>::empty(), item_models(items@)) == addons_model(self.installed_addons@));
    }

    /// Replaces every file item with `items`; other items stay. Marks the
    /// index dirty.
    pub fn sync_installed_addon_files(&mut self, items: Vec<SearchItem>)
        ensures
            final(self)@.items == without_kind(old(self)@.items, 1) + item_models(items@),
            final(self)@.installed == old(self)@.installed,
            final(self)@.dirty,
    {
        self.retain_other_kinds(1);
        let ghost installed = addons_model(self.installed_addons@);
        let ghost kept = items_model(self.items@);
        let ghost all = item_models(items@);
        for item in it: items.into_iter()
            invariant
                all == item_models(it.seq()),
                items_model(self.items@) == kept + all.take(it.index() as int),
                addons_model(self.installed_addons@) == installed,
        {
            let ghost k = it.index() as int;
            let item = Arc::new(item);
            let ghost before = items_model(self.items@);
            self.items.push(item);
            assert(items_model(self.items@) =~= before.push(all[k]));
            assert(kept + all.take(k + 1) =~= (kept + all.take(k)).push(all[k]));
        }
        assert(all.take(all.len() as int) =~= all);
        self.dirty = true;
    }

    /// Drops the items whose source is of kind `rank`.
    fn retain_other_kinds(&mut self, rank: u8)
        ensures
            final(self)@.items == without_kind(old(self)@.items, rank as int),
            final(self)@.installed == old(self)@.installed,
            final(self)@.dirty == old(self)@.dirty,
    {
        let ghost s = items_model(self.items@);
        let mut kept: Vec<Arc<SearchItem>> = Vec::new();
        let mut i: usize = 0;
        while i < self.items.len()
            invariant
                s == items_model(self.items@),
                i <= self.items.len(),
                items_model(kept@) == without_kind(s.take(i as int), rank as int),
            decreases self.items.len() - i,
        {
            let r: u8 = match &self.items[i].source {
                SearchItemSource::InstalledAddons(..) => 0,
                SearchItemSource::InstalledAddonFile { .. } => 1,
                SearchItemSource::MyWorkshop(_) => 2,
                SearchItemSource::WorkshopItem(_) => 3,
            };
            proof {
                assert(s.take(i + 1).drop_last() =~= s.take(i as int));
                assert(s.take(i + 1).last() == s[i as int]);
            }
            let ghost before = items_model(kept@);
            if r != rank {
                let a = share_item(&self.items[i]);
                kept.push(a);
                assert(items_model(kept@) =~= before.push(s[i as int]));
            }
            i = i + 1;
        }
        assert(s.take(s.len() as int) =~= s);
        self.items = kept;
    }

    /// Empties the index.
    pub fn clear(&mut self)
        ensures
            final(self)@.items == Seq::<SearchItemModel>::empty(),
            final(self)@.installed == Map::<u64, SearchItemModel>::empty(),
            !final(self)@.dirty,
    {
        self.items = Vec::new();
        self.installed_addons = BTreeMap::new();
        self.dirty = false;
        assert(items_model(self.items@) =~= Seq::<SearchItemModel>::empty());
        assert(addons_model(self.installed_addons@) =~= Map::<u64, SearchItemModel>::empty());
    }

    /// A quick search of the index as it stands: the first
    /// `MAX_QUICK_RESULTS` in-scope items (in index order) that score, best
    /// first, and whether an in-scope item remained past them.
    pub fn quick_scored(&self, query: &str, scope: SearchScope) -> (r: QuickSearchResult)
        ensures
            ranked_by_score(quick_walk(self@.items, query@, scope).0, hits_model(r.hits@)),
            r.has_more == quick_walk(self@.items, query@, scope).1,
    {
        let ghost s = items_model(self.items@);
        let mut scorer = FuzzyScorer::new();
        let mut hits: Vec<QuickSearchHit> = Vec::new();
        let mut stopped = false;
        let qlen = query.len();
        let mut i: usize = 0;
        assert(s.take(0) =~= Seq::<SearchItemModel>::empty());
        assert(hits_model(hits@) =~= Seq::<(u32, SearchItemModel)>::empty());
        while i < self.items.len() && !stopped
            invariant
                s == items_model(self.items@),
                i <= self.items.len(),
                qlen == byte_len(query@),
                (hits_model(hits@), stopped) == quick_walk(s.take(i as int), query@, scope),
            decreases self.items.len() - i,
        {
            let item = &self.items[i];
            let ghost before = hits_model(hits@);
            proof {
                assert(s.take(i + 1).drop_last() =~= s.take(i as int));
                assert(s.take(i + 1).last() == item@);
            }
            let in_scope = match scope {
                SearchScope::Files => match &item.source {
                    SearchItemSource::InstalledAddonFile { .. } => true,
                    _ => false,
                },
                SearchScope::Addons => match &item.source {
                    SearchItemSource::InstalledAddonFile { .. } => false,
                    _ => true,
                },
            };
            if in_scope {
                if hits.len() >= 10 {
                    stopped = true;
                } else if item.len >= qlen {
                    match best_search_item_score(&mut scorer, query, item) {
                        Some(score) => {
                            hits.push(QuickSearchHit { score, item: share_item(item) });
                            assert(hits_model(hits@) =~= before.push((score, s[i as int])));
                        },
                        None => {},
                    }
                }
            }
            i = i + 1;
        }
        proof {
            if stopped {
                lemma_quick_walk_stopped(s, query@, scope, i as int);
            } else {
                assert(s.take(i as int) =~= s);
            }
        }
        let ranked = rank_hits(hits);
        QuickSearchResult { hits: ranked, has_more: stopped }
    }

    /// Sorts the index if it is dirty, then runs a quick search.
    pub fn quick_search_with_scope(&mut self, query: String, scope: SearchScope) -> (r: QuickSearchResult)
        ensures
            cleaned(old(self)@, final(self)@),
            ranked_by_score(quick_walk(final(self)@.items, query@, scope).0, hits_model(r.hits@)),
            r.has_more == quick_walk(final(self)@.items, query@, scope).1,
    {
        self.dirty();
        self.quick_scored(query.as_str(), scope)
    }

    /// A quick search among addons.
    pub fn quick_search(&mut self, query: String) -> (r: QuickSearchResult)
        ensures
            cleaned(old(self)@, final(self)@),
            ranked_by_score(quick_walk(final(self)@.items, query@, SearchScope::Addons).0, hits_model(r.hits@)),
            r.has_more == quick_walk(final(self)@.items, query@, SearchScope::Addons).1,
    {
        self.quick_search_with_scope(query, SearchScope::Addons)
    }

    /// A quick search among addons: the items found, best first, and
    /// whether there were more.
    pub fn quick(&mut self, query: String) -> (r: (Vec<Arc<SearchItem>>, bool))
        ensures
            cleaned(old(self)@, final(self)@),
            exists|ranked: Seq<(u32, SearchItemModel)>|
                ranked_by_score(quick_walk(final(self)@.items, query@, SearchScope::Addons).0, ranked) && items_model(r.0@)
                    == Seq::new(ranked.len(), |k: int| ranked[k].1),
            r.1 == quick_walk(final(self)@.items, query@, SearchScope::Addons).1,
    {
        let result = self.quick_search(query);
        let ghost ranked = hits_model(result.hits@);
        let mut items: Vec<Arc<SearchItem>> = Vec::new();
        let mut k: usize = 0;
        while k < result.hits.len()
            invariant
                ranked == hits_model(result.hits@),
                k <= result.hits.len(),
                items_model(items@) == Seq::new(k as nat, |t: int| ranked[t].1),
            decreases result.hits.len() - k,
        {
            let a = share_item(&result.hits[k].item);
            let ghost av = a@;
            assert(av == ranked[k as int].1);
            let ghost before = items_model(items@);
            items.push(a);
            assert(items_model(items@) =~= before.push(av));
            assert(items_model(items@) =~= Seq::new((k + 1) as nat, |t: int| ranked[t].1));
            k = k + 1;
        }
        (items, result.has_more)
    }

    /// The hits of a full search of the index as it stands: every in-scope
    /// item at least as long as the query that scores, best first (ties in
    /// index order), at most `FULL_SEARCH_MAX_HITS` of them.
    pub fn full_scored(&self, query: &str, scope: SearchScope) -> (r: Vec<QuickSearchHit>)
        ensures
            exists|ranked: Seq<(u32, SearchItemModel)>|
                ranked_by_score(full_walk(self@.items, query@, scope), ranked) && hits_model(r@) == if ranked.len()
                    <= FULL_SEARCH_MAX_HITS {
                    ranked
                } else {
                    ranked.take(FULL_SEARCH_MAX_HITS as int)
                },
    {
        let ghost s = items_model(self.items@);
        let mut scorer = FuzzyScorer::new();
        let mut hits: Vec<QuickSearchHit> = Vec::new();
        let qlen = query.len();
        let mut i: usize = 0;
        assert(hits_model(hits@) =~= full_walk(s.take(0), query@, scope));
        while i < self.items.len()
            invariant
                s == items_model(self.items@),
                i <= self.items.len(),
                qlen == byte_len(query@),
                hits_model(hits@) == full_walk(s.take(i as int), query@, scope),
            decreases self.items.len() - i,
        {
            let item = &self.items[i];
            let ghost before = hits_model(hits@);
            proof {
                assert(s.take(i + 1).drop_last() =~= s.take(i as int));
                assert(s.take(i + 1).last() == item@);
            }
            let in_scope = match scope {
                SearchScope::Files => match &item.source {
                    SearchItemSource::InstalledAddonFile { .. } => true,
                    _ => false,
                },
                SearchScope::Addons => match &item.source {
                    SearchItemSource::InstalledAddonFile { .. } => false,
                    _ => true,
                },
            };
            if in_scope && item.len >= qlen {
                match best_search_item_score(&mut scorer, query, item) {
                    Some(score) => {
                        hits.push(QuickSearchHit { score, item: share_item(item) });
                        assert(hits_model(hits@) =~= before.push((score, s[i as int])));
                    },
                    None => {},
                }
            }
            i = i + 1;
        }
        assert(s.take(i as int) =~= s);
        let mut ranked = rank_hits(hits);
        let ghost all = hits_model(ranked@);
        assert(ranked_by_score(full_walk(self@.items, query@, scope), all));
        if ranked.len() > FULL_SEARCH_MAX_HITS {
            ranked.truncate(FULL_SEARCH_MAX_HITS);
            assert(hits_model(ranked@) =~= all.take(FULL_SEARCH_MAX_HITS as int));
        }
        assert(hits_model(ranked@) == if all.len() <= FULL_SEARCH_MAX_HITS {
            all
        } else {
            all.take(FULL_SEARCH_MAX_HITS as int)
        });
        ranked
    }

    /// Takes fresh Workshop titles for installed addons, after sorting a
    /// dirty index: an addon whose label changed is rebuilt with the new
    /// title as label and the old one kept as a term, so both stay
    /// searchable, and replaces its old item in both the table and the list.
    pub fn refresh_installed_addon_labels(&mut self, updates: &[(u64, String)])
        ensures
            exists|mid: SearchModel| cleaned(old(self)@, mid) && final(self)@ == refreshed_all(mid, updates_model(updates@)),
    {
        self.dirty();
        let ghost mid = self@;
        let ghost ups = updates_model(updates@);
        let mut i: usize = 0;
        assert(ups.take(0) =~= Seq::<(u64, Seq<char>)>::empty());
        while i < updates.len()
            invariant
                i <= updates.len(),
                ups == updates_model(updates@),
                self@ == refreshed_all(mid, ups.take(i as int)),
            decreases updates.len() - i,
        {
            let id = updates[i].0;
            let title = &updates[i].1;
            let ghost st = self@;
            proof {
                assert(ups.take(i + 1).drop_last() =~= ups.take(i as int));
                assert(ups.take(i + 1).last() == (id, title@));
            }
            let found = match self.installed_addons.get(&id) {
                Some(e) => Some(share_item(e)),
                None => None,
            };
            match found {
                None => {
                    assert(!st.installed.contains_key(id));
                },
                Some(existing) => {
                    assert(st.installed.contains_key(id) && st.installed[id] == existing@);
                    if !same_string(&existing.label, title) {
                        let mut terms = copy_strings(&existing.terms);
                        terms.push(existing.label.clone());
                        assert(strings_view(terms@) =~= existing@.terms.push(existing@.label));
                        let replacement = Arc::new(
                            SearchItem::new(copy_source(&existing.source), title.clone(), terms, existing.timestamp),
                        );
                        let shared = share_item(&replacement);
                        proof {
                            lemma_addons_insert(self.installed_addons@, id, shared);
                        }
                        self.installed_addons.insert(id, shared);
                        let ghost items = items_model(self.items@);
                        let mut p: usize = 0;
                        while p < self.items.len() && !same_item(&self.items[p], &existing)
                            invariant
                                items == items_model(self.items@),
                                p <= self.items.len(),
                                forall|j: int| 0 <= j < p ==> #[trigger] items[j] != existing@,
                            decreases self.items.len() - p,
                        {
                            p = p + 1;
                        }
                        proof {
                            lemma_first_equal(items, existing@, p as int);
                        }
                        if p < self.items.len() {
                            self.items.set(p, replacement);
                            assert(items_model(self.items@) =~= items.update(p as int, replacement@));
                        }
                    }
                },
            }
            i = i + 1;
        }
        assert(ups.take(updates.len() as int) =~= ups);
    }

}

/// Whether position `u` of the sorted positions `r` starts a run of
/// rank-equal items.
spec fn run_start(s: Seq<SearchItemModel>, r: Seq<usize>, u: int) -> bool {
    u == 0 || item_order(s[r[u - 1] as int], s[r[u] as int]) != 0
}

/// The positions among the first `t` of `r` that start a run.
spec fn kept_positions(s: Seq<SearchItemModel>, r: Seq<usize>, t: nat) -> Seq<int>
    decreases t,
{
    if t == 0 {
        Seq::empty()
    } else {
        let p = kept_positions(s, r, (t - 1) as nat);
        if run_start(s, r, t - 1) {
            p.push(t - 1)
        } else {
            p
        }
    }
}

/// The items at the run starts among the first `t` of `r`.
spec fn kept_items(s: Seq<SearchItemModel>, r: Seq<usize>, t: nat) -> Seq<SearchItemModel> {
    let p = kept_positions(s, r, t);
    Seq::new(p.len(), |k: int| s[r[p[k]] as int])
}

proof fn lemma_kept_positions(s: Seq<SearchItemModel>, r: Seq<usize>, t: nat)
    ensures
        forall|k: int| 0 <= k < kept_positions(s, r, t).len() ==> 0 <= #[trigger] kept_positions(s, r, t)[k] < t,
        forall|a: int, b: int| 0 <= a < b < kept_positions(s, r, t).len() ==> #[trigger] kept_positions(s, r, t)[a] < #[trigger] kept_positions(s, r, t)[b],
        forall|k: int| 0 <= k < kept_positions(s, r, t).len() ==> run_start(s, r, #[trigger] kept_positions(s, r, t)[k]),
        forall|u: int| 0 <= u < t && #[trigger] run_start(s, r, u) ==> kept_positions(s, r, t).contains(u),
    decreases t,
{
    if t > 0 {
        lemma_kept_positions(s, r, (t - 1) as nat);
        let p = kept_positions(s, r, (t - 1) as nat);
        if run_start(s, r, t - 1) {
            assert(kept_positions(s, r, t) == p.push(t - 1));
            assert(kept_positions(s, r, t)[p.len() as int] == t - 1);
            assert forall|u: int| 0 <= u < t && #[trigger] run_start(s, r, u) implies kept_positions(s, r, t).contains(u) by {
                if u < t - 1 {
                    let k = choose|k: int| 0 <= k < p.len() && p[k] == u;
                    assert(kept_positions(s, r, t)[k] == u);
                }
            }
        }
    }
}

/// A run start is exactly the first item of its class.
proof fn lemma_run_start_is_first(o: &RankOrder, r: Seq<usize>, u: int)
    requires
        lists_range(r, 0, o.size() as int),
        sorted_by(o, r),
        0 <= u < r.len(),
    ensures
        run_start(items_model(o.items@), r, u) <==> first_of_class(items_model(o.items@), r[u] as int),
{
    let s = items_model(o.items@);
    let x = r[u] as int;
    if run_start(s, r, u) {
        assert forall|i: int| 0 <= i < x implies item_order(#[trigger] s[i], s[x]) != 0 by {
            if item_order(s[i], s[x]) == 0 {
                let w = lemma_position_of(r, o.size() as int, i as usize);
                assert(o.before(i, x));
                if w > u {
                    assert(o.before(x, i));
                    o.lemma_strict_total(i, x, i);
                }
                assert(w < u);
                let y = r[u - 1] as int;
                assert(o.before(y, x));
                lemma_item_order_props(s[y], s[x]);
                assert(item_order(s[y], s[x]) < 0);
                if w < u - 1 {
                    assert(o.before(i, y));
                    lemma_item_order_trans(s[i], s[y], s[x]);
                }
            }
        }
    } else {
        let y = r[u - 1] as int;
        assert(o.before(y, x));
        assert(y < x);
    }
}

proof fn lemma_kept_are_representatives(o: &RankOrder, r: Seq<usize>)
    requires
        o.size() <= usize::MAX,
        lists_range(r, 0, o.size() as int),
        sorted_by(o, r),
    ensures
        sorted_representatives(items_model(o.items@), kept_items(items_model(o.items@), r, r.len())),
{
    let s = items_model(o.items@);
    let n = r.len();
    let p = kept_positions(s, r, n);
    let out = kept_items(s, r, n);
    lemma_kept_positions(s, r, n);
    assert(strictly_sorted(out)) by {
        assert forall|a: int, b: int| 0 <= a < b < out.len() implies item_order(#[trigger] out[a], #[trigger] out[b]) < 0 by {
            let (pa, pb) = (p[a], p[b]);
            assert(pa < pb);
            assert(run_start(s, r, pb));
            let y = r[pb - 1] as int;
            assert(o.before(y, r[pb] as int));
            lemma_item_order_props(s[y], s[r[pb] as int]);
            assert(item_order(s[y], s[r[pb] as int]) < 0);
            if pa < pb - 1 {
                assert(o.before(r[pa] as int, y));
                lemma_item_order_props(s[r[pa] as int], s[y]);
                lemma_item_order_trans(s[r[pa] as int], s[y], s[r[pb] as int]);
            }
        }
    }
    assert(all_first_of_class(s, out)) by {
        assert forall|k: int| 0 <= k < out.len() implies #[trigger] is_class_first(s, out[k]) by {
            lemma_run_start_is_first(o, r, p[k]);
            let j = r[p[k]] as int;
            assert(0 <= j < s.len());
            assert(first_of_class(s, j));
            assert(out[k] == s[j]);
        }
    }
    assert(every_class_kept(s, out)) by {
        assert forall|j: int| 0 <= j < s.len() && #[trigger] first_of_class(s, j) implies out.contains(s[j]) by {
            assert(s.len() == o.items@.len());
            let u = lemma_position_of(r, s.len() as int, j as usize);
            assert(r[u] as int == j);
            lemma_run_start_is_first(o, r, u);
            assert(run_start(s, r, u));
            assert(p.contains(u));
            let k = choose|k: int| 0 <= k < p.len() && p[k] == u;
            assert(out[k] == s[j]);
        }
    }
}

proof fn lemma_first_same_source_range(s: Seq<SearchItemModel>, src: SourceModel)
    ensures
        0 <= first_same_source(s, src) <= s.len(),
    decreases s.len(),
{
    if s.len() > 0 {
        lemma_first_same_source_range(s.drop_first(), src);
    }
}

/// Adding an item to a clean, sorted index leaves it sorted.
pub proof fn lemma_add_keeps_sorted(old: SearchModel, m: SearchItemModel, new: SearchModel)
    requires
        !old.dirty,
        sorted_by_rank(old.items),
        added(old, m, new),
    ensures
        sorted_by_rank(new.items),
{
    let s = old.items;
    let rest = without_same_source(s, m.source);
    let p = first_same_source(s, m.source);
    lemma_first_same_source_range(s, m.source);
    if p < s.len() {
        assert forall|a: int, b: int| 0 <= a < b < rest.len() implies item_order(#[trigger] rest[a], #[trigger] rest[b]) <= 0 by {
            let ia = if a < p { a } else { a + 1 };
            let ib = if b < p { b } else { b + 1 };
            assert(rest[a] == s[ia]);
            assert(rest[b] == s[ib]);
        }
    }
    assert(sorted_by_rank(rest));
    let pos = choose|pos: int|
        0 <= pos <= rest.len() && new.items == rest.insert(pos, m) && (sorted_by_rank(rest) ==> rank_position(rest, m, pos));
    let n = new.items;
    assert forall|a: int, b: int| 0 <= a < b < n.len() implies item_order(#[trigger] n[a], #[trigger] n[b]) <= 0 by {
        if a < pos && b < pos {
            assert(n[a] == rest[a] && n[b] == rest[b]);
        } else if a < pos && b == pos {
            assert(n[a] == rest[a] && n[b] == m);
        } else if a < pos {
            assert(n[a] == rest[a] && n[b] == rest[b - 1]);
        } else if a == pos {
            assert(n[a] == m && n[b] == rest[b - 1]);
            lemma_item_order_props(rest[b - 1], m);
        } else {
            assert(n[a] == rest[a - 1] && n[b] == rest[b - 1]);
        }
    }
}

/// A strictly sorted list is sorted.
pub proof fn lemma_strictly_sorted_is_sorted(s: Seq<SearchItemModel>)
    requires
        strictly_sorted(s),
    ensures
        sorted_by_rank(s),
{
}

/// A quick search holds at most `MAX_QUICK_RESULTS` hits, and exactly that
/// many when it reports more.
pub proof fn lemma_quick_walk_bounded(s: Seq<SearchItemModel>, q: Seq<char>, scope: SearchScope)
    ensures
        quick_walk(s, q, scope).0.len() <= MAX_QUICK_RESULTS,
        quick_walk(s, q, scope).1 ==> quick_walk(s, q, scope).0.len() == MAX_QUICK_RESULTS,
    decreases s.len(),
{
    if s.len() > 0 {
        lemma_quick_walk_bounded(s.drop_last(), q, scope);
    }
}

/// A ranking by score keeps every hit and puts them best first.
pub proof fn lemma_ranked_by_score(c: Seq<(u32, SearchItemModel)>, out: Seq<(u32, SearchItemModel)>)
    requires
        c.len() <= usize::MAX,
        ranked_by_score(c, out),
    ensures
        out.len() == c.len(),
        forall|a: int, b: int| 0 <= a < b < out.len() ==> #[trigger] out[a].0 >= #[trigger] out[b].0,
        forall|k: int| 0 <= k < out.len() ==> c.contains(#[trigger] out[k]),
        forall|j: int| 0 <= j < c.len() ==> out.contains(#[trigger] c[j]),
{
    let r = choose|r: Seq<usize>| score_ranking(c, r) && out == Seq::new(r.len(), |k: int| c[r[k] as int]);
    assert forall|a: int, b: int| 0 <= a < b < out.len() implies #[trigger] out[a].0 >= #[trigger] out[b].0 by {
        assert(c[r[a] as int].0 > c[r[b] as int].0 || c[r[a] as int].0 == c[r[b] as int].0);
    }
    assert forall|k: int| 0 <= k < out.len() implies c.contains(#[trigger] out[k]) by {
        assert(out[k] == c[r[k] as int]);
    }
    assert forall|j: int| 0 <= j < c.len() implies out.contains(#[trigger] c[j]) by {
        assert(r.contains(j as usize));
        let k = choose|k: int| 0 <= k < r.len() && r[k] == j as usize;
        assert(out[k] == c[j]);
    }
}

} // verus!
