//! The map's embedded pakfile: a ZIP archive read through vformats, of
//! which a preview keeps the material and model entries.
use vstd::prelude::*;

use super::data::BspError;
use super::paths::{
    is_pakfile_entry_oversized, is_pakfile_retained_entry, normalize_pakfile_path,
    spec_is_pakfile_material_entry, spec_is_pakfile_model_entry, spec_normalize_source_path,
    MAX_PAKFILE_ENTRY_BYTES,
};
use crate::text::str_chars;

verus! {

broadcast use vstd::seq_lib::to_multiset_insert;

/// What vformats' ZIP reader lists for an archive: each entry's stored
/// path and uncompressed size in directory order, or the reader's error
/// message.
pub uninterp spec fn zip_directory_of(bytes: Seq<u8>) -> Result<Seq<(Seq<char>, u64)>, Seq<char>>;

/// What vformats' ZIP reader gives for entry `index` of an archive with
/// entries capped at `max_entry_bytes`: its uncompressed bytes, none when
/// there is no such entry, or the reader's error message.
pub uninterp spec fn zip_entry_bytes_of(bytes: Seq<u8>, index: usize, max_entry_bytes: u64) -> Result<
    Option<Seq<u8>>,
    Seq<char>,
>;

/// The views of a ZIP directory listing.
pub open spec fn dir_view(v: Seq<(String, u64)>) -> Seq<(Seq<char>, u64)> {
    Seq::new(v.len(), |i: int| (v[i].0@, v[i].1))
}

/// `vformats::bsp::ZipReader::parse` followed by `ZipReader::entries`:
/// the archive's entries as `(path, uncompressed_size)` in directory
/// order, or the `ZipError` rendered by its `Display`. The contract names
/// the result as a function of the bytes (`zip_directory_of`) and states
/// nothing else of it.
#[verifier::external_body]
fn zip_directory(bytes: &[u8]) -> (r: Result<Vec<(String, u64)>, String>)
    ensures
        match zip_directory_of(bytes@) {
            Ok(d) => r is Ok && dir_view(r->Ok_0@) == d,
            Err(m) => r is Err && r->Err_0@ == m,
        },
{
    match vformats::bsp::ZipReader::parse(bytes) {
        Ok(reader) => Ok(reader.entries().iter().map(|e| (e.path.clone(), e.uncompressed_size)).collect()),
        Err(e) => Err(e.to_string()),
    }
}

/// `vformats::bsp::ZipReader::parse`, then `ZipReader::entry_bytes` on
/// entry `index` with `Limits::max_entry_bytes` set: the entry's bytes,
/// none when the index is past the directory, or the `ZipError` rendered
/// by its `Display`. The contract names the result as a function of its
/// arguments (`zip_entry_bytes_of`) and states nothing else of it.
#[verifier::external_body]
fn zip_entry_bytes(bytes: &[u8], index: usize, max_entry_bytes: u64) -> (r: Result<Option<Vec<u8>>, String>)
    ensures
        match zip_entry_bytes_of(bytes@, index, max_entry_bytes) {
            Ok(Some(b)) => r matches Ok(Some(v)) && v@ == b,
            Ok(None) => r matches Ok(None),
            Err(m) => r is Err && r->Err_0@ == m,
        },
{
    let reader = match vformats::bsp::ZipReader::parse(bytes) {
        Ok(reader) => reader,
        Err(e) => return Err(e.to_string()),
    };
    let Some(entry) = reader.entries().get(index) else {
        return Ok(None);
    };
    let limits = vformats::Limits { max_entry_bytes, ..vformats::Limits::default() };
    match reader.entry_bytes(entry, &limits) {
        Ok(b) => Ok(Some(b.into_owned())),
        Err(e) => Err(e.to_string()),
    }
}

/// The embedded pakfile lump's raw bytes, read on demand.
#[derive(Debug, Clone)]
pub struct MapPakFile {
    pub bytes: Vec<u8>,
}

/// One retained pakfile entry: its directory index, canonical path and
/// uncompressed size.
#[derive(Debug, Clone, PartialEq, Eq)]
pub struct MapPakFileEntry {
    pub index: usize,
    pub path: String,
    pub size: u64,
}

/// The view of an entry.
pub open spec fn entry_view(e: MapPakFileEntry) -> (usize, Seq<char>, u64) {
    (e.index, e.path@, e.size)
}

/// The views of a list of entries.
pub open spec fn entries_view(v: Seq<MapPakFileEntry>) -> Seq<(usize, Seq<char>, u64)> {
    Seq::new(v.len(), |i: int| entry_view(v[i]))
}

/// The directory entries a preview keeps, in directory order: those whose
/// canonical path is a material or model and whose size is within the cap.
pub open spec fn spec_retained_entries(dir: Seq<(Seq<char>, u64)>) -> Seq<(usize, Seq<char>, u64)>
    decreases dir.len(),
{
    if dir.len() == 0 {
        Seq::empty()
    } else {
        let rest = spec_retained_entries(dir.drop_last());
        let (p, size) = dir.last();
        match spec_normalize_source_path(p, None) {
            Some(n) => if (spec_is_pakfile_material_entry(n) || spec_is_pakfile_model_entry(n)) && size
                <= MAX_PAKFILE_ENTRY_BYTES {
                rest.push(((dir.len() - 1) as usize, n, size))
            } else {
                rest
            },
            None => rest,
        }
    }
}

/// Lexicographic order of char sequences by code point (the order of
/// `String`'s `Ord`).
pub open spec fn spec_lex_le(a: Seq<char>, b: Seq<char>) -> bool
    decreases a.len(),
{
    if a.len() == 0 {
        true
    } else if b.len() == 0 {
        false
    } else if (a[0] as u32) < (b[0] as u32) {
        true
    } else if (a[0] as u32) > (b[0] as u32) {
        false
    } else {
        spec_lex_le(a.drop_first(), b.drop_first())
    }
}

pub proof fn lemma_lex_total(a: Seq<char>, b: Seq<char>)
    ensures
        spec_lex_le(a, b) || spec_lex_le(b, a),
    decreases a.len(),
{
    if a.len() > 0 && b.len() > 0 && (a[0] as u32) == (b[0] as u32) {
        lemma_lex_total(a.drop_first(), b.drop_first());
    }
}

pub proof fn lemma_lex_trans(a: Seq<char>, b: Seq<char>, c: Seq<char>)
    requires
        spec_lex_le(a, b),
        spec_lex_le(b, c),
    ensures
        spec_lex_le(a, c),
    decreases a.len(),
{
    if a.len() > 0 && b.len() > 0 && c.len() > 0 && (a[0] as u32) == (b[0] as u32) && (b[0] as u32) == (c[0] as u32) {
        lemma_lex_trans(a.drop_first(), b.drop_first(), c.drop_first());
    }
}

/// Entries in non-decreasing path order.
pub open spec fn spec_sorted_by_path(v: Seq<(usize, Seq<char>, u64)>) -> bool {
    forall|i: int, j: int| 0 <= i < j < v.len() ==> spec_lex_le(v[i].1, v[j].1)
}

/// `a <= b` in path order.
fn lex_le(a: &[char], b: &[char]) -> (r: bool)
    ensures
        r == spec_lex_le(a@, b@),
{
    let mut i: usize = 0;
    assert(a@.skip(0) =~= a@);
    assert(b@.skip(0) =~= b@);
    while i < a.len() && i < b.len() && (a[i] as u32) == (b[i] as u32)
        invariant
            i <= a.len(),
            i <= b.len(),
            spec_lex_le(a@, b@) == spec_lex_le(a@.skip(i as int), b@.skip(i as int)),
        decreases a.len() - i,
    {
        proof {
            assert(a@.skip(i as int).drop_first() =~= a@.skip(i + 1));
            assert(b@.skip(i as int).drop_first() =~= b@.skip(i + 1));
        }
        i = i + 1;
    }
    proof {
        if i < a.len() {
            assert(a@.skip(i as int)[0] == a@[i as int]);
        }
        if i < b.len() {
            assert(b@.skip(i as int)[0] == b@[i as int]);
        }
    }
    if i == a.len() {
        true
    } else if i == b.len() {
        false
    } else {
        (a[i] as u32) < (b[i] as u32)
    }
}

/// Inserts `e` after every entry whose path is at most its own.
fn insert_by_path(v: &mut Vec<MapPakFileEntry>, e: MapPakFileEntry)
    requires
        spec_sorted_by_path(entries_view(old(v)@)),
    ensures
        spec_sorted_by_path(entries_view(final(v)@)),
        entries_view(final(v)@).to_multiset() == entries_view(old(v)@).to_multiset().insert(entry_view(e)),
{
    let ghost ev = entries_view(v@);
    let key = str_chars(e.path.as_str());
    let mut k: usize = 0;
    let mut stop = false;
    while k < v.len() && !stop
        invariant
            k <= v.len(),
            ev == entries_view(v@),
            v@ == old(v)@,
            key@ == e.path@,
            spec_sorted_by_path(ev),
            forall|j: int| 0 <= j < k ==> spec_lex_le(ev[j].1, e.path@),
            stop ==> k < v.len() && !spec_lex_le(ev[k as int].1, e.path@),
        decreases v.len() - k + (if stop { 0int } else { 1int }),
    {
        let p = str_chars(v[k].path.as_str());
        if !lex_le(p.as_slice(), key.as_slice()) {
            stop = true;
        } else {
            k = k + 1;
        }
    }
    let ghost pos = k;
    v.insert(k, e);
    proof {
        let nv = entries_view(v@);
        assert(nv =~= ev.insert(pos as int, entry_view(e)));
        if pos < ev.len() {
            lemma_lex_total(ev[pos as int].1, e.path@);
        }
        assert forall|i: int, j: int| 0 <= i < j < nv.len() implies spec_lex_le(nv[i].1, nv[j].1) by {
            if j < pos {
                assert(nv[i] == ev[i] && nv[j] == ev[j]);
            } else if j == pos {
                assert(nv[i] == ev[i]);
            } else if i == pos {
                assert(nv[j] == ev[j - 1]);
                if j - 1 > pos {
                    lemma_lex_trans(e.path@, ev[pos as int].1, ev[j - 1].1);
                }
            } else if i < pos {
                assert(nv[i] == ev[i] && nv[j] == ev[j - 1]);
            } else {
                assert(nv[i] == ev[i - 1] && nv[j] == ev[j - 1]);
            }
        }
    }
}

impl MapPakFile {
    pub fn from_pak_bytes(bytes: Vec<u8>) -> (r: Result<Self, BspError>)
        ensures
            r matches Ok(p) && p.bytes@ == bytes@,
    {
        Ok(MapPakFile { bytes })
    }

    /// The ZIP reader's error when the lump is not a readable archive (an
    /// unreadable pakfile just means no bundled content).
    pub fn read_error(&self) -> (r: Option<String>)
        ensures
            match zip_directory_of(self.bytes@) {
                Ok(_) => r is None,
                Err(m) => r matches Some(s) && s@ == m,
            },
    {
        match zip_directory(self.bytes.as_slice()) {
            Ok(_) => None,
            Err(m) => Some(m),
        }
    }

    /// The retained entries (see `spec_retained_entries`) sorted by path.
    pub fn indexed_entries(&self) -> (r: Result<Vec<MapPakFileEntry>, BspError>)
        ensures
            match zip_directory_of(self.bytes@) {
                Err(m) => r matches Err(BspError::Decode { message }) && message@ == m,
                Ok(dir) => r matches Ok(v) && spec_sorted_by_path(entries_view(v@)) && entries_view(v@).to_multiset()
                    == spec_retained_entries(dir).to_multiset(),
            },
    {
        let dir = match zip_directory(self.bytes.as_slice()) {
            Ok(d) => d,
            Err(m) => return Err(BspError::Decode { message: m }),
        };
        let ghost d = dir_view(dir@);
        let mut entries: Vec<MapPakFileEntry> = Vec::new();
        let mut i: usize = 0;
        assert(d.take(0) =~= Seq::<(Seq<char>, u64)>::empty());
        assert(entries_view(entries@) =~= Seq::<(usize, Seq<char>, u64)>::empty());
        while i < dir.len()
            invariant
                i <= dir.len(),
                d == dir_view(dir@),
                spec_sorted_by_path(entries_view(entries@)),
                entries_view(entries@).to_multiset() == spec_retained_entries(d.take(i as int)).to_multiset(),
            decreases dir.len() - i,
        {
            let ghost t = d.take(i + 1);
            assert(t.drop_last() =~= d.take(i as int));
            assert(t.last() == (dir@[i as int].0@, dir@[i as int].1));
            let entry = &dir[i];
            if let Some(path) = normalize_pakfile_path(entry.0.as_str()) {
                if is_pakfile_retained_entry(path.as_str()) && !is_pakfile_entry_oversized(entry.1) {
                    let e = MapPakFileEntry { index: i, path, size: entry.1 };
                    insert_by_path(&mut entries, e);
                    proof {
                        let rest = spec_retained_entries(d.take(i as int));
                        vstd::seq_lib::to_multiset_build(rest, entry_view(e));
                    }
                }
            }
            i = i + 1;
        }
        assert(d.take(i as int) =~= d);
        Ok(entries)
    }

    /// The bytes of directory entry `index` (capped at the pakfile entry
    /// limit); none past the directory.
    pub fn entry_bytes_by_index(&self, index: usize) -> (r: Result<Option<Vec<u8>>, BspError>)
        ensures
            match zip_entry_bytes_of(self.bytes@, index, MAX_PAKFILE_ENTRY_BYTES) {
                Ok(Some(b)) => r matches Ok(Some(v)) && v@ == b,
                Ok(None) => r matches Ok(None),
                Err(m) => r matches Err(BspError::Decode { message }) && message@ == m,
            },
    {
        match zip_entry_bytes(self.bytes.as_slice(), index, MAX_PAKFILE_ENTRY_BYTES) {
            Ok(b) => Ok(b),
            Err(m) => Err(BspError::Decode { message: m }),
        }
    }
}

} // verus!
