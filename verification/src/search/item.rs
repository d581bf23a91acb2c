//! What the index holds: one searchable item per installed addon, per
//! file inside an installed addon, and per Workshop item, each with the
//! sort key that ranks it (newest first, then longest haystack first,
//! then by source identity).
use std::sync::Arc;

use vstd::prelude::*;

use super::order::{
    chars_order, compare_chars, compare_paths, int_order, lemma_chars_order_props,
    lemma_chars_order_trans, lemma_segs_order_props, lemma_segs_order_trans, path_components,
    path_order,
};
use crate::text::{str_chars, string_from_chars};
use vstd::std_specs::cmp::PartialEqSpecImpl;

verus! {

/// Length in bytes of the UTF-8 encoding of `s`, as `str::len` reports
/// it.
pub open spec fn byte_len(s: Seq<char>) -> nat {
    (vstd::utf8::encode_utf8(s).len() as usize) as nat
}

/// Which part of the index a search looks at.
#[derive(Clone, Copy, Debug, PartialEq, Eq, Structural)]
pub enum SearchScope {
    Addons,
    Files,
}

/// The identity that every file item of one installed addon shares.
#[derive(Debug)]
pub struct FileSearchAddon {
    /// The addon's canonical path.
    pub path: String,
    pub title: String,
    pub workshop_id: Option<u64>,
    /// The Workshop id in decimal, so id queries match the addon's files.
    pub id_str: Option<String>,
}

pub struct FileSearchAddonModel {
    pub path: Seq<char>,
    pub title: Seq<char>,
    pub workshop_id: Option<u64>,
    pub id_str: Option<Seq<char>>,
}

/// The chars of an optional string.
pub open spec fn opt_chars(s: Option<String>) -> Option<Seq<char>> {
    match s {
        Some(t) => Some(t@),
        None => None,
    }
}

impl View for FileSearchAddon {
    type V = FileSearchAddonModel;

    open spec fn view(&self) -> FileSearchAddonModel {
        FileSearchAddonModel {
            path: self.path@,
            title: self.title@,
            workshop_id: self.workshop_id,
            id_str: opt_chars(self.id_str),
        }
    }
}

/// The decimal digit char of `d`.
pub open spec fn digit_char(d: nat) -> char {
    ((d + 48) as u32) as char
}

/// `n` in decimal, as `u64::to_string` writes it.
pub open spec fn spec_decimal(n: nat) -> Seq<char>
    decreases n,
{
    if n < 10 {
        seq![digit_char(n)]
    } else {
        spec_decimal(n / 10).push(digit_char(n % 10))
    }
}

/// `n` in decimal.
pub fn decimal_string(n: u64) -> (r: String)
    ensures
        r@ == spec_decimal(n as nat),
{
    let mut digits: Vec<char> = Vec::new();
    let mut rest: u64 = n;
    let ghost mut lows: Seq<char> = Seq::empty();
    // `digits` holds the low digits, least significant first.
    while rest >= 10
        invariant
            spec_decimal(n as nat) == spec_decimal(rest as nat) + digits@.reverse(),
        decreases rest,
    {
        let d = rest % 10;
        let c = ((d as u8) + 48) as char;
        assert(c == digit_char(d as nat));
        assert(spec_decimal(rest as nat) == spec_decimal((rest / 10) as nat).push(c));
        digits.push(c);
        assert(digits@.reverse() =~= seq![c] + digits@.drop_last().reverse());
        assert(spec_decimal(rest as nat) + digits@.drop_last().reverse() =~= spec_decimal((rest / 10) as nat) + digits@.reverse());
        rest = rest / 10;
    }
    let c = ((rest as u8) + 48) as char;
    assert(c == digit_char(rest as nat));
    let mut out: Vec<char> = Vec::new();
    out.push(c);
    let mut i: usize = digits.len();
    while i > 0
        invariant
            i <= digits.len(),
            out@ == seq![c] + digits@.subrange(i as int, digits.len() as int).reverse(),
        decreases i,
    {
        i = i - 1;
        out.push(digits[i]);
        assert(digits@.subrange(i as int, digits.len() as int).reverse() =~= digits@.subrange(i + 1, digits.len() as int).reverse().push(digits@[i as int]));
    }
    assert(digits@.subrange(0, digits.len() as int) =~= digits@);
    assert(spec_decimal(n as nat) =~= out@);
    string_from_chars(out.as_slice())
}

impl FileSearchAddon {
    /// The shared identity of an addon's files; `path` must already be
    /// canonical.
    pub fn new(path: String, title: String, workshop_id: Option<u64>) -> (r: Arc<FileSearchAddon>)
        ensures
            r@.path == path@,
            r@.title == title@,
            r@.workshop_id == workshop_id,
            r@.id_str == match workshop_id {
                Some(id) => Some(spec_decimal(id as nat)),
                None => None,
            },
    {
        let id_str = match workshop_id {
            Some(id) => Some(decimal_string(id)),
            None => None,
        };
        Arc::new(FileSearchAddon { path, title, workshop_id, id_str })
    }
}

/// Where a search item comes from.
#[derive(Debug)]
pub enum SearchItemSource {
    /// An installed addon: its canonical path and Workshop id.
    InstalledAddons(String, Option<u64>),
    /// One file inside an installed addon.
    InstalledAddonFile {
        addon: Arc<FileSearchAddon>,
        entry_path: String,
        size_bytes: u64,
        crc32: u32,
    },
    /// One of the user's own Workshop items.
    MyWorkshop(u64),
    /// Any other Workshop item.
    WorkshopItem(u64),
}

pub enum SourceModel {
    InstalledAddons(Seq<char>, Option<u64>),
    InstalledAddonFile {
        addon: FileSearchAddonModel,
        entry_path: Seq<char>,
        size_bytes: u64,
        crc32: u32,
    },
    MyWorkshop(u64),
    WorkshopItem(u64),
}

impl View for SearchItemSource {
    type V = SourceModel;

    open spec fn view(&self) -> SourceModel {
        match self {
            SearchItemSource::InstalledAddons(path, id) => SourceModel::InstalledAddons(path@, *id),
            SearchItemSource::InstalledAddonFile { addon, entry_path, size_bytes, crc32 } =>
                SourceModel::InstalledAddonFile {
                addon: addon@,
                entry_path: entry_path@,
                size_bytes: *size_bytes,
                crc32: *crc32,
            },
            SearchItemSource::MyWorkshop(id) => SourceModel::MyWorkshop(*id),
            SearchItemSource::WorkshopItem(id) => SourceModel::WorkshopItem(*id),
        }
    }
}

/// One entry of the index.
#[derive(Debug)]
pub struct SearchItem {
    pub label: String,
    /// Extra haystacks, shortest first.
    pub terms: Vec<String>,
    pub timestamp: u64,
    /// Byte length of the longest haystack the item can match.
    pub len: usize,
    pub source: SearchItemSource,
}

pub struct SearchItemModel {
    pub label: Seq<char>,
    pub terms: Seq<Seq<char>>,
    pub timestamp: u64,
    pub len: nat,
    pub source: SourceModel,
}

/// The chars of each string of a list.
pub open spec fn strings_view(v: Seq<String>) -> Seq<Seq<char>> {
    Seq::new(v.len(), |i: int| v[i]@)
}

impl View for SearchItem {
    type V = SearchItemModel;

    open spec fn view(&self) -> SearchItemModel {
        SearchItemModel {
            label: self.label@,
            terms: strings_view(self.terms@),
            timestamp: self.timestamp,
            len: self.len as nat,
            source: self.source@,
        }
    }
}

/// Rank of a source kind in the index order.
pub open spec fn source_rank(s: SourceModel) -> int {
    match s {
        SourceModel::InstalledAddons(..) => 0,
        SourceModel::InstalledAddonFile { .. } => 1,
        SourceModel::MyWorkshop(_) => 2,
        SourceModel::WorkshopItem(_) => 3,
    }
}

/// The order of two sources by identity: kind, then the addon path (and
/// the entry path of a file), or the Workshop id. An installed addon's
/// identity is its path alone.
pub open spec fn source_order(a: SourceModel, b: SourceModel) -> int {
    if source_rank(a) != source_rank(b) {
        int_order(source_rank(a), source_rank(b))
    } else {
        match a {
            SourceModel::InstalledAddons(pa, _) => match b {
                SourceModel::InstalledAddons(pb, _) => path_order(pa, pb),
                _ => 0,
            },
            SourceModel::InstalledAddonFile { addon: x, entry_path: ea, .. } => match b {
                SourceModel::InstalledAddonFile { addon: y, entry_path: eb, .. } => {
                    let o = path_order(x.path, y.path);
                    if o != 0 {
                        o
                    } else {
                        chars_order(ea, eb)
                    }
                },
                _ => 0,
            },
            SourceModel::MyWorkshop(x) => match b {
                SourceModel::MyWorkshop(y) => int_order(x as int, y as int),
                _ => 0,
            },
            SourceModel::WorkshopItem(x) => match b {
                SourceModel::WorkshopItem(y) => int_order(x as int, y as int),
                _ => 0,
            },
        }
    }
}

/// The index order: newest first, then the longest haystack first, then
/// by source identity. Two items are equal in it when all three agree.
pub open spec fn item_order(a: SearchItemModel, b: SearchItemModel) -> int {
    if a.timestamp != b.timestamp {
        int_order(b.timestamp as int, a.timestamp as int)
    } else if a.len != b.len {
        int_order(b.len as int, a.len as int)
    } else {
        source_order(a.source, b.source)
    }
}

pub proof fn lemma_source_order_props(a: SourceModel, b: SourceModel)
    ensures
        source_order(a, b) == -source_order(b, a),
        -1 <= source_order(a, b) <= 1,
{
    match a {
        SourceModel::InstalledAddons(pa, _) => match b {
            SourceModel::InstalledAddons(pb, _) => {
                lemma_segs_order_props(path_components(pa), path_components(pb));
            },
            _ => {},
        },
        SourceModel::InstalledAddonFile { addon: x, entry_path: ea, .. } => match b {
            SourceModel::InstalledAddonFile { addon: y, entry_path: eb, .. } => {
                lemma_segs_order_props(path_components(x.path), path_components(y.path));
                lemma_chars_order_props(ea, eb);
            },
            _ => {},
        },
        _ => {},
    }
}

pub proof fn lemma_source_order_trans(a: SourceModel, b: SourceModel, c: SourceModel)
    requires
        source_order(a, b) <= 0,
        source_order(b, c) <= 0,
    ensures
        source_order(a, c) <= 0,
        source_order(a, b) < 0 || source_order(b, c) < 0 ==> source_order(a, c) < 0,
{
    lemma_source_order_props(a, b);
    lemma_source_order_props(b, c);
    lemma_source_order_props(a, c);
    if source_rank(a) == source_rank(b) && source_rank(b) == source_rank(c) {
        match a {
            SourceModel::InstalledAddons(pa, _) => match b {
                SourceModel::InstalledAddons(pb, _) => match c {
                    SourceModel::InstalledAddons(pc, _) => {
                        lemma_segs_order_trans(path_components(pa), path_components(pb), path_components(pc));
                    },
                    _ => {},
                },
                _ => {},
            },
            SourceModel::InstalledAddonFile { addon: x, entry_path: ea, .. } => match b {
                SourceModel::InstalledAddonFile { addon: y, entry_path: eb, .. } => match c {
                    SourceModel::InstalledAddonFile { addon: z, entry_path: ec, .. } => {
                        let (px, py, pz) = (path_components(x.path), path_components(y.path), path_components(z.path));
                        lemma_segs_order_props(px, py);
                        lemma_segs_order_props(py, pz);
                        lemma_segs_order_props(px, pz);
                        if path_order(x.path, y.path) == 0 && path_order(y.path, z.path) == 0 {
                            lemma_chars_order_trans(ea, eb, ec);
                        } else if path_order(x.path, y.path) == 0 {
                            assert(px == py);
                        } else if path_order(y.path, z.path) == 0 {
                            assert(py == pz);
                        } else {
                            lemma_segs_order_trans(px, py, pz);
                        }
                    },
                    _ => {},
                },
                _ => {},
            },
            _ => {},
        }
    }
}

pub proof fn lemma_item_order_props(a: SearchItemModel, b: SearchItemModel)
    ensures
        item_order(a, b) == -item_order(b, a),
        -1 <= item_order(a, b) <= 1,
{
    lemma_source_order_props(a.source, b.source);
}

pub proof fn lemma_item_order_trans(a: SearchItemModel, b: SearchItemModel, c: SearchItemModel)
    requires
        item_order(a, b) <= 0,
        item_order(b, c) <= 0,
    ensures
        item_order(a, c) <= 0,
        item_order(a, b) < 0 || item_order(b, c) < 0 ==> item_order(a, c) < 0,
{
    lemma_item_order_props(a, b);
    lemma_item_order_props(b, c);
    lemma_item_order_props(a, c);
    if a.timestamp == b.timestamp && b.timestamp == c.timestamp && a.len == b.len && b.len == c.len {
        lemma_source_order_trans(a.source, b.source, c.source);
    }
}

/// A second handle on a shared addon identity.
///
/// `Arc::clone`: by std's documentation, a new pointer to the same
/// allocation, so it reads the same value.
#[verifier::external_body]
pub(crate) fn share_addon(a: &Arc<FileSearchAddon>) -> (r: Arc<FileSearchAddon>)
    ensures
        r@ == a@,
{
    Arc::clone(a)
}

/// A second handle on a shared search item.
///
/// `Arc::clone`: by std's documentation, a new pointer to the same
/// allocation, so it reads the same value.
#[verifier::external_body]
pub(crate) fn share_item(a: &Arc<SearchItem>) -> (r: Arc<SearchItem>)
    ensures
        r@ == a@,
{
    Arc::clone(a)
}

/// A copy of a source.
pub fn copy_source(s: &SearchItemSource) -> (r: SearchItemSource)
    ensures
        r@ == s@,
{
    match s {
        SearchItemSource::InstalledAddons(path, id) => SearchItemSource::InstalledAddons(path.clone(), *id),
        SearchItemSource::InstalledAddonFile { addon, entry_path, size_bytes, crc32 } =>
            SearchItemSource::InstalledAddonFile {
            addon: share_addon(addon),
            entry_path: entry_path.clone(),
            size_bytes: *size_bytes,
            crc32: *crc32,
        },
        SearchItemSource::MyWorkshop(id) => SearchItemSource::MyWorkshop(*id),
        SearchItemSource::WorkshopItem(id) => SearchItemSource::WorkshopItem(*id),
    }
}

/// `source_order` of two sources.
pub fn compare_sources(a: &SearchItemSource, b: &SearchItemSource) -> (r: i8)
    ensures
        r == source_order(a@, b@),
{
    match a {
        SearchItemSource::InstalledAddons(pa, _) => match b {
            SearchItemSource::InstalledAddons(pb, _) => {
                let x = str_chars(pa.as_str());
                let y = str_chars(pb.as_str());
                compare_paths(x.as_slice(), y.as_slice())
            },
            _ => -1,
        },
        SearchItemSource::InstalledAddonFile { addon: x, entry_path: ea, .. } => match b {
            SearchItemSource::InstalledAddons(..) => 1,
            SearchItemSource::InstalledAddonFile { addon: y, entry_path: eb, .. } => {
                let px = str_chars(x.path.as_str());
                let py = str_chars(y.path.as_str());
                let o = compare_paths(px.as_slice(), py.as_slice());
                if o != 0 {
                    o
                } else {
                    let ex = str_chars(ea.as_str());
                    let ey = str_chars(eb.as_str());
                    compare_chars(ex.as_slice(), ey.as_slice())
                }
            },
            _ => -1,
        },
        SearchItemSource::MyWorkshop(x) => match b {
            SearchItemSource::MyWorkshop(y) => if *x < *y {
                -1
            } else if *x > *y {
                1
            } else {
                0
            },
            SearchItemSource::WorkshopItem(_) => -1,
            _ => 1,
        },
        SearchItemSource::WorkshopItem(x) => match b {
            SearchItemSource::WorkshopItem(y) => if *x < *y {
                -1
            } else if *x > *y {
                1
            } else {
                0
            },
            _ => 1,
        },
    }
}

/// `item_order` of two items.
pub fn compare_items(a: &SearchItem, b: &SearchItem) -> (r: i8)
    ensures
        r == item_order(a@, b@),
{
    if a.timestamp != b.timestamp {
        if a.timestamp > b.timestamp {
            -1
        } else {
            1
        }
    } else if a.len != b.len {
        if a.len > b.len {
            -1
        } else {
            1
        }
    } else {
        compare_sources(&a.source, &b.source)
    }
}

/// `s` with `x` put in by a stable sort on byte length: after every
/// element no longer than `x`.
pub open spec fn spec_insert_by_len(s: Seq<Seq<char>>, x: Seq<char>) -> Seq<Seq<char>>
    decreases s.len(),
{
    if s.len() == 0 {
        seq![x]
    } else if byte_len(s.last()) <= byte_len(x) {
        s.push(x)
    } else {
        spec_insert_by_len(s.drop_last(), x).push(s.last())
    }
}

/// `s` stably sorted by byte length, as `sort_by_key(String::len)` leaves
/// it.
pub open spec fn spec_sort_by_len(s: Seq<Seq<char>>) -> Seq<Seq<char>>
    decreases s.len(),
{
    if s.len() == 0 {
        s
    } else {
        spec_insert_by_len(spec_sort_by_len(s.drop_last()), s.last())
    }
}

/// The largest byte length in `s`, zero for none.
pub open spec fn spec_max_byte_len(s: Seq<Seq<char>>) -> nat
    decreases s.len(),
{
    if s.len() == 0 {
        0
    } else {
        let m = spec_max_byte_len(s.drop_last());
        if byte_len(s.last()) > m {
            byte_len(s.last())
        } else {
            m
        }
    }
}

/// The larger of two naturals.
pub open spec fn max_nat(a: nat, b: nat) -> nat {
    if a >= b {
        a
    } else {
        b
    }
}

/// The part of `s` after its last slash; all of it when it has none.
pub open spec fn spec_after_last_slash(s: Seq<char>) -> Seq<char>
    decreases s.len(),
{
    if s.len() == 0 {
        s
    } else if s.last() == '/' {
        Seq::empty()
    } else {
        spec_after_last_slash(s.drop_last()).push(s.last())
    }
}

/// The label an item shows: a file item's file name, else its own label.
pub open spec fn spec_label(m: SearchItemModel) -> Seq<char> {
    match m.source {
        SourceModel::InstalledAddonFile { entry_path, .. } => spec_after_last_slash(entry_path),
        _ => m.label,
    }
}

/// What `SearchItem::new` builds.
pub open spec fn spec_new_item(source: SourceModel, label: Seq<char>, terms: Seq<Seq<char>>, timestamp: u64) -> SearchItemModel {
    let sorted = spec_sort_by_len(terms);
    SearchItemModel {
        label,
        terms: sorted,
        timestamp,
        len: max_nat(spec_max_byte_len(sorted), byte_len(label)),
        source,
    }
}

proof fn lemma_insert_by_len_at(s: Seq<Seq<char>>, x: Seq<char>, p: int)
    requires
        0 <= p <= s.len(),
        forall|i: int| p <= i < s.len() ==> byte_len(#[trigger] s[i]) > byte_len(x),
        p == 0 || byte_len(s[p - 1]) <= byte_len(x),
    ensures
        spec_insert_by_len(s, x) == s.take(p).push(x) + s.skip(p),
    decreases s.len(),
{
    if s.len() == p {
        assert(s.skip(p) =~= Seq::<Seq<char>>::empty());
        assert(s.take(p) =~= s);
        if s.len() > 0 {
            assert(s.last() == s[p - 1]);
        }
    } else {
        let d = s.drop_last();
        assert(byte_len(s.last()) > byte_len(x));
        assert forall|i: int| p <= i < d.len() implies byte_len(#[trigger] d[i]) > byte_len(x) by {
            assert(d[i] == s[i]);
        }
        if p > 0 {
            assert(d[p - 1] == s[p - 1]);
        }
        lemma_insert_by_len_at(d, x, p);
        assert(d.take(p) =~= s.take(p));
        assert(d.skip(p).push(s.last()) =~= s.skip(p));
        assert(spec_insert_by_len(s, x) =~= s.take(p).push(x) + s.skip(p));
    }
}

/// Byte length of a string.
fn str_byte_len(s: &String) -> (r: usize)
    ensures
        r == byte_len(s@),
{
    s.as_str().len()
}

/// The terms stably sorted by byte length.
fn sort_terms_by_len(terms: &Vec<String>) -> (r: Vec<String>)
    ensures
        strings_view(r@) == spec_sort_by_len(strings_view(terms@)),
{
    let mut out: Vec<String> = Vec::new();
    let mut k: usize = 0;
    while k < terms.len()
        invariant
            k <= terms.len(),
            strings_view(out@) == spec_sort_by_len(strings_view(terms@).take(k as int)),
        decreases terms.len() - k,
    {
        let x = terms[k].clone();
        let xl = str_byte_len(&x);
        let ghost before = strings_view(out@);
        let mut p: usize = out.len();
        while p > 0 && str_byte_len(&out[p - 1]) > xl
            invariant
                p <= out.len(),
                before == strings_view(out@),
                xl == byte_len(x@),
                forall|i: int| p <= i < out.len() ==> byte_len(#[trigger] before[i]) > byte_len(x@),
            decreases p,
        {
            p = p - 1;
        }
        proof {
            lemma_insert_by_len_at(before, x@, p as int);
            let t = strings_view(terms@).take(k + 1);
            assert(t.drop_last() =~= strings_view(terms@).take(k as int));
            assert(t.last() == x@);
        }
        out.insert(p, x);
        assert(strings_view(out@) =~= before.take(p as int).push(x@) + before.skip(p as int));
        k = k + 1;
    }
    assert(strings_view(terms@).take(terms.len() as int) =~= strings_view(terms@));
    out
}

/// The largest byte length among the strings.
fn max_byte_len(v: &Vec<String>) -> (r: usize)
    ensures
        r == spec_max_byte_len(strings_view(v@)),
{
    let mut m: usize = 0;
    let mut i: usize = 0;
    while i < v.len()
        invariant
            i <= v.len(),
            m == spec_max_byte_len(strings_view(v@).take(i as int)),
        decreases v.len() - i,
    {
        let l = str_byte_len(&v[i]);
        proof {
            let t = strings_view(v@).take(i + 1);
            assert(t.drop_last() =~= strings_view(v@).take(i as int));
            assert(t.last() == v@[i as int]@);
        }
        if l > m {
            m = l;
        }
        i = i + 1;
    }
    assert(strings_view(v@).take(v.len() as int) =~= strings_view(v@));
    m
}

impl SearchItem {
    /// An item with its terms sorted shortest first and `len` the byte
    /// length of its longest haystack (label or term).
    pub fn new(source: SearchItemSource, label: String, terms: Vec<String>, timestamp: u64) -> (r: SearchItem)
        ensures
            r@ == spec_new_item(source@, label@, strings_view(terms@), timestamp),
    {
        let sorted = sort_terms_by_len(&terms);
        let tl = max_byte_len(&sorted);
        let ll = str_byte_len(&label);
        let len = if tl >= ll {
            tl
        } else {
            ll
        };
        SearchItem { label, terms: sorted, timestamp, len, source }
    }

    /// An installed addon's item; `path` must already be canonical.
    pub fn new_installed_addon(
        path: String,
        workshop_id: Option<u64>,
        label: String,
        terms: Vec<String>,
        timestamp: u64,
    ) -> (r: SearchItem)
        ensures
            r@ == spec_new_item(SourceModel::InstalledAddons(path@, workshop_id), label@, strings_view(terms@), timestamp),
    {
        SearchItem::new(SearchItemSource::InstalledAddons(path, workshop_id), label, terms, timestamp)
    }

    /// One file of an installed addon. Its label and haystacks come from
    /// the source, so `label` and `terms` stay empty, and `len` is the
    /// longest of the entry path, the addon's title and its id text.
    pub fn new_installed_addon_file(
        addon: Arc<FileSearchAddon>,
        entry_path: String,
        size_bytes: u64,
        crc32: u32,
        timestamp: u64,
    ) -> (r: SearchItem)
        ensures
            r@.label == Seq::<char>::empty(),
            r@.terms == Seq::<Seq<char>>::empty(),
            r@.timestamp == timestamp,
            r@.len == max_nat(
                max_nat(byte_len(entry_path@), byte_len(addon@.title)),
                match addon@.id_str {
                    Some(t) => byte_len(t),
                    None => 0,
                },
            ),
            r@.source == (SourceModel::InstalledAddonFile {
                addon: addon@,
                entry_path: entry_path@,
                size_bytes,
                crc32,
            }),
    {
        let el = str_byte_len(&entry_path);
        let tl = str_byte_len(&addon.title);
        let il = match &addon.id_str {
            Some(t) => str_byte_len(t),
            None => 0,
        };
        let a = if el >= tl {
            el
        } else {
            tl
        };
        let len = if a >= il {
            a
        } else {
            il
        };
        let terms: Vec<String> = Vec::new();
        let r = SearchItem {
            len,
            label: String::new(),
            terms,
            timestamp,
            source: SearchItemSource::InstalledAddonFile { addon, entry_path, size_bytes, crc32 },
        };
        assert(strings_view(r.terms@) =~= Seq::<Seq<char>>::empty());
        r
    }

    /// The label the item shows: a file item's file name (the entry path
    /// after its last slash), else the stored label.
    pub fn label(&self) -> (r: String)
        ensures
            r@ == spec_label(self@),
    {
        match &self.source {
            SearchItemSource::InstalledAddonFile { entry_path, .. } => {
                let chars = str_chars(entry_path.as_str());
                let mut start: usize = chars.len();
                assert(chars@.take(chars@.len() as int) =~= chars@);
                assert(chars@.skip(chars@.len() as int) =~= Seq::<char>::empty());
                while start > 0 && chars[start - 1] != '/'
                    invariant
                        start <= chars.len(),
                        spec_after_last_slash(chars@) == spec_after_last_slash(chars@.take(start as int)) + chars@.skip(start as int),
                    decreases start,
                {
                    proof {
                        let t = chars@.take(start as int);
                        assert(t.drop_last() =~= chars@.take(start - 1));
                        assert(t.last() == chars@[start - 1]);
                        assert(chars@.skip(start - 1) =~= seq![chars@[start - 1]] + chars@.skip(start as int));
                        assert(spec_after_last_slash(t) == spec_after_last_slash(chars@.take(start - 1)).push(chars@[start - 1]));
                        assert(spec_after_last_slash(chars@.take(start - 1)).push(chars@[start - 1]) + chars@.skip(start as int)
                            =~= spec_after_last_slash(chars@.take(start - 1)) + chars@.skip(start - 1));
                    }
                    start = start - 1;
                }
                proof {
                    assert(chars@.take(chars@.len() as int) =~= chars@);
                    assert(chars@.skip(chars@.len() as int) =~= Seq::<char>::empty());
                    if start > 0 {
                        let t = chars@.take(start as int);
                        assert(t.last() == '/');
                    } else {
                        assert(chars@.take(0) =~= Seq::<char>::empty());
                    }
                    assert(chars@.skip(start as int) =~= chars@.subrange(start as int, chars@.len() as int));
                }
                let tail = crate::text::slice_chars(chars.as_slice(), start, chars.len());
                string_from_chars(tail.as_slice())
            },
            _ => self.label.clone(),
        }
    }

    /// The item's extra haystacks, shortest first.
    pub fn terms(&self) -> (r: &[String])
        ensures
            strings_view(r@) == self@.terms,
    {
        self.terms.as_slice()
    }
}

impl SearchItem {
    /// How `self` ranks against `other` in the index order.
    pub fn rank_ordering(&self, other: &SearchItem) -> (r: std::cmp::Ordering)
        ensures
            (r is Less) == (item_order(self@, other@) < 0),
            (r is Equal) == (item_order(self@, other@) == 0),
            (r is Greater) == (item_order(self@, other@) > 0),
    {
        let o = compare_items(self, other);
        if o < 0 {
            std::cmp::Ordering::Less
        } else if o == 0 {
            std::cmp::Ordering::Equal
        } else {
            std::cmp::Ordering::Greater
        }
    }
}

impl PartialEq for SearchItem {
    fn eq(&self, other: &Self) -> (r: bool) {
        compare_items(self, other) == 0
    }
}

impl PartialEqSpecImpl for SearchItem {
    open spec fn obeys_eq_spec() -> bool {
        true
    }

    open spec fn eq_spec(&self, other: &Self) -> bool {
        item_order(self@, other@) == 0
    }
}

impl Eq for SearchItem {
}

} // verus!
