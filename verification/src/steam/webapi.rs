//! The keyless Steam Web API preflight for Workshop downloads: collection
//! expansion and the per-item download facts read from the responses.
//! Legacy items keep a public CDN `file_url` and can be downloaded over
//! plain HTTPS. The HTTP calls themselves are the caller's; everything
//! that is decided about them is here.
use std::collections::HashSet;

use vstd::prelude::*;

use super::workshop::{id_chunks, spec_chunk};
use crate::text::{chars_eq, parse_u64, spec_parse_int, str_chars};

verus! {

broadcast use vstd::std_specs::hash::group_hash_axioms;

/// Ids per Web API request.
pub const BATCH_SIZE: usize = 100;

/// Collections nested deeper than this are not expanded; what is left of
/// them goes to the details request as plain items.
pub const MAX_COLLECTION_DEPTH: usize = 8;

/// `EWorkshopFileType` of a child row that is itself a collection.
pub const FILETYPE_COLLECTION: u64 = 2;

/// `EResult` success.
pub const RESULT_OK: u64 = 1;

/// Why a Web API preflight failed.
#[derive(Debug)]
pub enum WebApiError {
    /// The request failed; the transport's message.
    Http(String),
    /// The response was not what the API returns.
    Parse(&'static str),
}

/// A JSON document as the responses are read: numbers carry their value
/// when it is a non-negative integer that fits in `u64`, objects their
/// entries with distinct keys.
#[derive(Debug)]
pub enum JsonValue {
    Null,
    Bool(bool),
    Number(Option<u64>),
    Str(String),
    Array(Vec<JsonValue>),
    Object(Vec<(String, JsonValue)>),
}

/// The value of the first entry of `entries` under `key`.
pub open spec fn first_entry(entries: Seq<(String, JsonValue)>, key: Seq<char>) -> Option<JsonValue>
    decreases entries.len(),
{
    if entries.len() == 0 {
        None
    } else if entries[0].0@ == key {
        Some(entries[0].1)
    } else {
        first_entry(entries.drop_first(), key)
    }
}

/// `Value::get(key)`: the field of an object, none for anything else.
pub open spec fn json_field(v: JsonValue, key: Seq<char>) -> Option<JsonValue> {
    match v {
        JsonValue::Object(entries) => first_entry(entries@, key),
        _ => None,
    }
}

/// A value read as an id or count: a `u64` number, or a string holding
/// one in decimal.
pub open spec fn json_u64(v: Option<JsonValue>) -> Option<u64> {
    match v {
        Some(JsonValue::Number(n)) => n,
        Some(JsonValue::Str(s)) => match spec_parse_int(s@, 0, u64::MAX as int) {
            Some(n) => Some(n as u64),
            None => None,
        },
        _ => None,
    }
}

/// The field of `v` under `key`.
fn field<'a>(v: &'a JsonValue, key: &str) -> (r: Option<&'a JsonValue>)
    ensures
        match r {
            Some(y) => json_field(*v, key@) == Some(*y),
            None => json_field(*v, key@) is None,
        },
{
    match v {
        JsonValue::Object(entries) => {
            let k = str_chars(key);
            let mut i: usize = 0;
            assert(entries@.skip(0) =~= entries@);
            while i < entries.len()
                invariant
                    json_field(*v, key@) == first_entry(entries@, key@),
                    k@ == key@,
                    i <= entries.len(),
                    first_entry(entries@, key@) == first_entry(entries@.skip(i as int), key@),
                decreases entries.len() - i,
            {
                let name = str_chars(entries[i].0.as_str());
                proof {
                    assert(entries@.skip(i as int)[0] == entries@[i as int]);
                    assert(entries@.skip(i as int).drop_first() =~= entries@.skip(i + 1));
                }
                if chars_eq(name.as_slice(), k.as_slice()) {
                    assert(entries@[i as int].0@ == key@);
                    assert(first_entry(entries@, key@) == Some(entries@[i as int].1));
                    let found = &entries[i].1;
                    assert(*found == entries@[i as int].1);
                    return Some(found);
                }
                i = i + 1;
            }
            assert(entries@.skip(i as int) =~= Seq::<(String, JsonValue)>::empty());
            None
        },
        _ => None,
    }
}

/// `json_u64` of a value.
fn as_u64(v: Option<&JsonValue>) -> (r: Option<u64>)
    ensures
        r == json_u64(match v {
            Some(x) => Some(*x),
            None => None,
        }),
{
    match v {
        Some(JsonValue::Number(n)) => *n,
        Some(JsonValue::Str(s)) => {
            let chars = str_chars(s.as_str());
            parse_u64(chars.as_slice())
        },
        _ => None,
    }
}

/// The rows under `response.<key>`, if that is an array.
pub open spec fn spec_response_rows(root: JsonValue, key: Seq<char>) -> Option<Seq<JsonValue>> {
    match json_field(root, "response"@) {
        Some(response) => match json_field(response, key) {
            Some(JsonValue::Array(rows)) => Some(rows@),
            _ => None,
        },
        None => None,
    }
}

fn response_rows<'a>(root: &'a JsonValue, key: &str) -> (r: Option<&'a Vec<JsonValue>>)
    ensures
        match spec_response_rows(*root, key@) {
            Some(rows) => r is Some && r->0@ == rows,
            None => r is None,
        },
{
    match field(root, "response") {
        Some(response) => match field(response, key) {
            Some(JsonValue::Array(rows)) => Some(rows),
            _ => None,
        },
        None => None,
    }
}

/// The children of a collection row as `(id, is_collection)`; children
/// without an id are skipped.
pub open spec fn spec_children(cs: Seq<JsonValue>) -> Seq<(u64, bool)>
    decreases cs.len(),
{
    if cs.len() == 0 {
        Seq::empty()
    } else {
        let prev = spec_children(cs.drop_last());
        let c = cs.last();
        match json_u64(json_field(c, "publishedfileid"@)) {
            Some(id) => prev.push((id, json_u64(json_field(c, "filetype"@)) == Some(FILETYPE_COLLECTION))),
            None => prev,
        }
    }
}

/// One row of `GetCollectionDetails`.
#[derive(Clone, Debug, PartialEq, Eq)]
pub struct CollectionRow {
    pub id: u64,
    /// `None` for a plain item; the children as `(id, is_collection)`
    /// for a collection.
    pub children: Option<Vec<(u64, bool)>>,
}

/// A collection row as the response gives it: its id, and its children
/// when it is a collection (only real collections report success); none
/// when the row has no id.
pub open spec fn spec_collection_row(row: JsonValue) -> Option<(u64, Option<Seq<(u64, bool)>>)> {
    match json_u64(json_field(row, "publishedfileid"@)) {
        None => None,
        Some(id) => {
            let children = if json_u64(json_field(row, "result"@)) == Some(RESULT_OK) {
                match json_field(row, "children"@) {
                    Some(JsonValue::Array(cs)) => Some(spec_children(cs@)),
                    _ => Some(Seq::empty()),
                }
            } else {
                None
            };
            Some((id, children))
        },
    }
}

/// The model of a collection row.
pub open spec fn row_model(r: CollectionRow) -> (u64, Option<Seq<(u64, bool)>>) {
    (
        r.id,
        match r.children {
            Some(c) => Some(c@),
            None => None,
        },
    )
}

pub open spec fn rows_model(v: Seq<CollectionRow>) -> Seq<(u64, Option<Seq<(u64, bool)>>)> {
    Seq::new(v.len(), |i: int| row_model(v[i]))
}

/// The rows of a `GetCollectionDetails` response, or the parse error: a
/// missing details array, or a row without an id (the first such row).
pub open spec fn spec_collection_details(root: JsonValue) -> Result<Seq<(u64, Option<Seq<(u64, bool)>>)>, Seq<char>> {
    match spec_response_rows(root, "collectiondetails"@) {
        None => Err("missing details array"@),
        Some(rows) => spec_collection_rows(rows),
    }
}

pub open spec fn spec_collection_rows(rows: Seq<JsonValue>) -> Result<Seq<(u64, Option<Seq<(u64, bool)>>)>, Seq<char>>
    decreases rows.len(),
{
    if rows.len() == 0 {
        Ok(Seq::empty())
    } else {
        match spec_collection_rows(rows.drop_last()) {
            Err(e) => Err(e),
            Ok(prev) => match spec_collection_row(rows.last()) {
                Some(r) => Ok(prev.push(r)),
                None => Err("missing publishedfileid"@),
            },
        }
    }
}

/// The message of a parse error.
pub open spec fn parse_error_is(e: WebApiError, msg: Seq<char>) -> bool {
    match e {
        WebApiError::Parse(m) => m@ == msg,
        _ => false,
    }
}

fn collection_children(cs: &Vec<JsonValue>) -> (r: Vec<(u64, bool)>)
    ensures
        r@ == spec_children(cs@),
{
    let mut r: Vec<(u64, bool)> = Vec::new();
    let mut i: usize = 0;
    while i < cs.len()
        invariant
            i <= cs.len(),
            r@ == spec_children(cs@.take(i as int)),
        decreases cs.len() - i,
    {
        let c = &cs[i];
        proof {
            assert(cs@.take(i + 1).drop_last() =~= cs@.take(i as int));
            assert(cs@.take(i + 1).last() == *c);
        }
        match as_u64(field(c, "publishedfileid")) {
            Some(id) => {
                let is_collection = as_u64(field(c, "filetype")) == Some(FILETYPE_COLLECTION);
                r.push((id, is_collection));
            },
            None => {},
        }
        i = i + 1;
    }
    assert(cs@.take(cs.len() as int) =~= cs@);
    r
}

/// Reads the rows of a `GetCollectionDetails` response.
pub fn parse_collection_details(root: &JsonValue) -> (r: Result<Vec<CollectionRow>, WebApiError>)
    ensures
        match spec_collection_details(*root) {
            Ok(rows) => r is Ok && rows_model(r->Ok_0@) == rows,
            Err(msg) => r is Err && parse_error_is(r->Err_0, msg),
        },
{
    let rows = match response_rows(root, "collectiondetails") {
        Some(rows) => rows,
        None => return Err(WebApiError::Parse("missing details array")),
    };
    let mut out: Vec<CollectionRow> = Vec::new();
    let mut i: usize = 0;
    assert(rows@.take(0) =~= Seq::<JsonValue>::empty());
    assert(rows_model(out@) =~= Seq::<(u64, Option<Seq<(u64, bool)>>)>::empty());
    while i < rows.len()
        invariant
            spec_response_rows(*root, "collectiondetails"@) == Some(rows@),
            i <= rows.len(),
            spec_collection_rows(rows@.take(i as int)) == Ok::<Seq<(u64, Option<Seq<(u64, bool)>>)>, Seq<char>>(rows_model(out@)),
        decreases rows.len() - i,
    {
        let row = &rows[i];
        proof {
            assert(rows@.take(i + 1).drop_last() =~= rows@.take(i as int));
            assert(rows@.take(i + 1).last() == *row);
        }
        let id = match as_u64(field(row, "publishedfileid")) {
            Some(id) => id,
            None => {
                proof {
                    assert(spec_collection_row(*row) is None);
                    assert(spec_collection_rows(rows@.take(i + 1)) == Err::<Seq<(u64, Option<Seq<(u64, bool)>>)>, Seq<char>>("missing publishedfileid"@));
                    lemma_rows_error_stays(rows@, i as int + 1);
                }
                let e = WebApiError::Parse("missing publishedfileid");
                assert(parse_error_is(e, "missing publishedfileid"@));
                return Err(e);
            },
        };
        let children = if as_u64(field(row, "result")) == Some(RESULT_OK) {
            match field(row, "children") {
                Some(JsonValue::Array(cs)) => Some(collection_children(cs)),
                _ => Some(Vec::new()),
            }
        } else {
            None
        };
        let item = CollectionRow { id, children };
        let ghost before = rows_model(out@);
        out.push(item);
        assert(rows_model(out@) =~= before.push(row_model(item)));
        i = i + 1;
    }
    assert(rows@.take(rows.len() as int) =~= rows@);
    Ok(out)
}

/// Once a row lacks an id, the rows up to the end fail with that error.
proof fn lemma_rows_error_stays(rows: Seq<JsonValue>, i: int)
    requires
        0 < i <= rows.len(),
        spec_collection_rows(rows.take(i)) == Err::<Seq<(u64, Option<Seq<(u64, bool)>>)>, Seq<char>>("missing publishedfileid"@),
    ensures
        spec_collection_rows(rows) == Err::<Seq<(u64, Option<Seq<(u64, bool)>>)>, Seq<char>>("missing publishedfileid"@),
    decreases rows.len() - i,
{
    if i < rows.len() {
        assert(rows.take(i + 1).drop_last() =~= rows.take(i));
        lemma_rows_error_stays(rows, i + 1);
    } else {
        assert(rows.take(i) =~= rows);
    }
}

/// Per-item facts from `GetPublishedFileDetails`.
#[derive(Clone, Debug, PartialEq, Eq)]
pub struct PublishedFileDetail {
    pub id: u64,
    /// Steam reported the item exists.
    pub found: bool,
    /// Public CDN URL of the legacy payload; none for SteamPipe items,
    /// which only the Steam client can download.
    pub file_url: Option<String>,
    pub file_size: u64,
}

/// The model of a detail: id, found, CDN URL and size.
pub open spec fn detail_model(d: PublishedFileDetail) -> (u64, bool, Option<Seq<char>>, u64) {
    (
        d.id,
        d.found,
        match d.file_url {
            Some(u) => Some(u@),
            None => None,
        },
        d.file_size,
    )
}

pub open spec fn details_model(v: Seq<PublishedFileDetail>) -> Seq<(u64, bool, Option<Seq<char>>, u64)> {
    Seq::new(v.len(), |i: int| detail_model(v[i]))
}

/// The detail of an item Steam did not report.
pub open spec fn missing_detail(id: u64) -> (u64, bool, Option<Seq<char>>, u64) {
    (id, false, None, 0)
}

impl PublishedFileDetail {
    /// The detail of an item Steam did not report.
    pub fn missing(id: u64) -> (r: PublishedFileDetail)
        ensures
            detail_model(r) == missing_detail(id),
    {
        PublishedFileDetail { id, found: false, file_url: None, file_size: 0 }
    }
}

/// A details row as the response gives it, none when it has no id: found
/// when the result is success, the CDN URL when it is a non-empty string,
/// the size when it reads as a number (else zero).
pub open spec fn spec_detail_row(row: JsonValue) -> Option<(u64, bool, Option<Seq<char>>, u64)> {
    match json_u64(json_field(row, "publishedfileid"@)) {
        None => None,
        Some(id) => Some(
            (
                id,
                json_u64(json_field(row, "result"@)) == Some(RESULT_OK),
                match json_field(row, "file_url"@) {
                    Some(JsonValue::Str(u)) => if u@.len() > 0 {
                        Some(u@)
                    } else {
                        None
                    },
                    _ => None,
                },
                match json_u64(json_field(row, "file_size"@)) {
                    Some(n) => n,
                    None => 0,
                },
            ),
        ),
    }
}

pub open spec fn spec_detail_rows(rows: Seq<JsonValue>) -> Result<Seq<(u64, bool, Option<Seq<char>>, u64)>, Seq<char>>
    decreases rows.len(),
{
    if rows.len() == 0 {
        Ok(Seq::empty())
    } else {
        match spec_detail_rows(rows.drop_last()) {
            Err(e) => Err(e),
            Ok(prev) => match spec_detail_row(rows.last()) {
                Some(d) => Ok(prev.push(d)),
                None => Err("missing publishedfileid"@),
            },
        }
    }
}

/// The rows of a `GetPublishedFileDetails` response, or the parse error.
pub open spec fn spec_published_file_details(root: JsonValue) -> Result<Seq<(u64, bool, Option<Seq<char>>, u64)>, Seq<char>> {
    match spec_response_rows(root, "publishedfiledetails"@) {
        None => Err("missing details array"@),
        Some(rows) => spec_detail_rows(rows),
    }
}

proof fn lemma_detail_rows_error_stays(rows: Seq<JsonValue>, i: int)
    requires
        0 < i <= rows.len(),
        spec_detail_rows(rows.take(i)) == Err::<Seq<(u64, bool, Option<Seq<char>>, u64)>, Seq<char>>("missing publishedfileid"@),
    ensures
        spec_detail_rows(rows) == Err::<Seq<(u64, bool, Option<Seq<char>>, u64)>, Seq<char>>("missing publishedfileid"@),
    decreases rows.len() - i,
{
    if i < rows.len() {
        assert(rows.take(i + 1).drop_last() =~= rows.take(i));
        lemma_detail_rows_error_stays(rows, i + 1);
    } else {
        assert(rows.take(i) =~= rows);
    }
}

/// Reads the rows of a `GetPublishedFileDetails` response.
pub fn parse_published_file_details(root: &JsonValue) -> (r: Result<Vec<PublishedFileDetail>, WebApiError>)
    ensures
        match spec_published_file_details(*root) {
            Ok(rows) => r is Ok && details_model(r->Ok_0@) == rows,
            Err(msg) => r is Err && parse_error_is(r->Err_0, msg),
        },
{
    let rows = match response_rows(root, "publishedfiledetails") {
        Some(rows) => rows,
        None => return Err(WebApiError::Parse("missing details array")),
    };
    let mut out: Vec<PublishedFileDetail> = Vec::new();
    let mut i: usize = 0;
    assert(rows@.take(0) =~= Seq::<JsonValue>::empty());
    assert(details_model(out@) =~= Seq::<(u64, bool, Option<Seq<char>>, u64)>::empty());
    while i < rows.len()
        invariant
            spec_response_rows(*root, "publishedfiledetails"@) == Some(rows@),
            i <= rows.len(),
            spec_detail_rows(rows@.take(i as int)) == Ok::<Seq<(u64, bool, Option<Seq<char>>, u64)>, Seq<char>>(details_model(out@)),
        decreases rows.len() - i,
    {
        let row = &rows[i];
        proof {
            assert(rows@.take(i + 1).drop_last() =~= rows@.take(i as int));
            assert(rows@.take(i + 1).last() == *row);
        }
        let id = match as_u64(field(row, "publishedfileid")) {
            Some(id) => id,
            None => {
                proof {
                    assert(spec_detail_row(*row) is None);
                    assert(spec_detail_rows(rows@.take(i + 1)) == Err::<Seq<(u64, bool, Option<Seq<char>>, u64)>, Seq<char>>("missing publishedfileid"@));
                    lemma_detail_rows_error_stays(rows@, i as int + 1);
                }
                return Err(WebApiError::Parse("missing publishedfileid"));
            },
        };
        let found = as_u64(field(row, "result")) == Some(RESULT_OK);
        let file_url = match field(row, "file_url") {
            Some(JsonValue::Str(u)) => if u.as_str().is_empty() {
                None
            } else {
                Some(u.clone())
            },
            _ => None,
        };
        let file_size = match as_u64(field(row, "file_size")) {
            Some(n) => n,
            None => 0,
        };
        let item = PublishedFileDetail { id, found, file_url, file_size };
        let ghost before = details_model(out@);
        out.push(item);
        assert(details_model(out@) =~= before.push(detail_model(item)));
        i = i + 1;
    }
    assert(rows@.take(rows.len() as int) =~= rows@);
    Ok(out)
}

/// The last row of `rows` for item `id`.
pub open spec fn last_detail_for(rows: Seq<(u64, bool, Option<Seq<char>>, u64)>, id: u64) -> Option<(u64, bool, Option<Seq<char>>, u64)>
    decreases rows.len(),
{
    if rows.len() == 0 {
        None
    } else if rows.last().0 == id {
        Some(rows.last())
    } else {
        last_detail_for(rows.drop_last(), id)
    }
}

/// The details for `requested`, in its order: each id takes the (last)
/// row Steam gave for it, once; an id Steam omitted, or met again, comes
/// back as not found.
pub open spec fn spec_align_details(
    requested: Seq<u64>,
    rows: Seq<(u64, bool, Option<Seq<char>>, u64)>,
) -> Seq<(u64, bool, Option<Seq<char>>, u64)>
    decreases requested.len(),
{
    if requested.len() == 0 {
        Seq::empty()
    } else {
        let prev = spec_align_details(requested.drop_last(), rows);
        let id = requested.last();
        match last_detail_for(rows, id) {
            Some(d) => if requested.drop_last().contains(id) {
                prev.push(missing_detail(id))
            } else {
                prev.push(d)
            },
            None => prev.push(missing_detail(id)),
        }
    }
}

/// A copy of a detail.
fn copy_detail(d: &PublishedFileDetail) -> (r: PublishedFileDetail)
    ensures
        detail_model(r) == detail_model(*d),
{
    let file_url = match &d.file_url {
        Some(u) => Some(u.clone()),
        None => None,
    };
    PublishedFileDetail { id: d.id, found: d.found, file_url, file_size: d.file_size }
}

/// Re-keys parsed rows onto the requested id order.
pub fn align_details(requested: &[u64], rows: Vec<PublishedFileDetail>) -> (r: Vec<PublishedFileDetail>)
    ensures
        details_model(r@) == spec_align_details(requested@, details_model(rows@)),
{
    let ghost rm = details_model(rows@);
    let mut taken: HashSet<u64> = HashSet::new();
    let mut out: Vec<PublishedFileDetail> = Vec::new();
    let mut i: usize = 0;
    while i < requested.len()
        invariant
            rm == details_model(rows@),
            i <= requested.len(),
            details_model(out@) == spec_align_details(requested@.take(i as int), rm),
            forall|x: u64| taken@.contains(x) <==> requested@.take(i as int).contains(x),
        decreases requested.len() - i,
    {
        let id = requested[i];
        proof {
            assert(requested@.take(i + 1).drop_last() =~= requested@.take(i as int));
            assert(requested@.take(i + 1).last() == id);
        }
        let seen_before = taken.contains(&id);
        // the last row for `id`
        let mut j: usize = rows.len();
        assert(rm.take(rm.len() as int) =~= rm);
        while j > 0 && rows[j - 1].id != id
            invariant
                rm == details_model(rows@),
                j <= rows.len(),
                last_detail_for(rm, id) == last_detail_for(rm.take(j as int), id),
            decreases j,
        {
            proof {
                assert(rm.take(j as int).drop_last() =~= rm.take(j - 1));
            }
            j = j - 1;
        }
        proof {
            if j == 0 {
                assert(rm.take(0) =~= Seq::<(u64, bool, Option<Seq<char>>, u64)>::empty());
            } else {
                assert(rm.take(j as int).last() == rm[j - 1]);
            }
        }
        let ghost before = details_model(out@);
        if j > 0 && !seen_before {
            let d = copy_detail(&rows[j - 1]);
            out.push(d);
            assert(details_model(out@) =~= before.push(rm[j - 1]));
        } else {
            out.push(PublishedFileDetail::missing(id));
            assert(details_model(out@) =~= before.push(missing_detail(id)));
        }
        taken.insert(id);
        proof {
            let t0 = requested@.take(i as int);
            let t1 = requested@.take(i + 1);
            assert(t1 =~= t0.push(id));
            assert forall|x: u64| taken@.contains(x) <==> t1.contains(x) by {
                if t1.contains(x) && x != id {
                    let w = choose|w: int| 0 <= w < t1.len() && t1[w] == x;
                    assert(t0[w] == x);
                }
                if t0.contains(x) {
                    let w = choose|w: int| 0 <= w < t0.len() && t0[w] == x;
                    assert(t1[w] == x);
                }
                assert(t1[i as int] == id);
            }
        }
        i = i + 1;
    }
    assert(requested@.take(requested.len() as int) =~= requested@);
    out
}

/// The children a collection row lists, by the last row for `id`: none
/// when there is no row, `Some(None)` for a plain item.
pub open spec fn last_row_for(rows: Seq<(u64, Option<Seq<(u64, bool)>>)>, id: u64) -> Option<Option<Seq<(u64, bool)>>>
    decreases rows.len(),
{
    if rows.len() == 0 {
        None
    } else if rows.last().0 == id {
        Some(rows.last().1)
    } else {
        last_row_for(rows.drop_last(), id)
    }
}

/// The set of a sequence with one more element.
proof fn lemma_to_set_push(prefix: Seq<u64>, id: u64)
    ensures
        prefix.push(id).to_set() == prefix.to_set().insert(id),
{
    assert forall|x: u64| prefix.push(id).to_set().contains(x) <==> prefix.to_set().insert(id).contains(x) by {
        if prefix.push(id).contains(x) {
            let j = choose|j: int| 0 <= j < prefix.push(id).len() && prefix.push(id)[j] == x;
            if j < prefix.len() {
                assert(prefix[j] == x);
            }
        }
        if prefix.contains(x) {
            let j = choose|j: int| 0 <= j < prefix.len() && prefix[j] == x;
            assert(prefix.push(id)[j] == x);
        }
        if x == id {
            assert(prefix.push(id)[prefix.len() as int] == x);
        }
    }
    assert(prefix.push(id).to_set() =~= prefix.to_set().insert(id));
}

/// Frontier-at-a-time collection expansion with global de-duplication:
/// the ids seen, the items found, the collections still to expand, and
/// how many levels were expanded.
pub struct CollectionResolution {
    seen: HashSet<u64>,
    items: Vec<u64>,
    frontier: Vec<u64>,
    levels: usize,
}

#[verifier::ext_equal]
pub struct ResolutionModel {
    pub seen: Set<u64>,
    pub items: Seq<u64>,
    pub frontier: Seq<u64>,
    pub levels: nat,
}

impl View for CollectionResolution {
    type V = ResolutionModel;

    closed spec fn view(&self) -> ResolutionModel {
        ResolutionModel { seen: self.seen@, items: self.items@, frontier: self.frontier@, levels: self.levels as nat }
    }
}

/// One child met while expanding: a new id joins the frontier (a
/// collection) or the items; a seen one is skipped.
pub open spec fn with_child(st: ResolutionModel, child: (u64, bool)) -> ResolutionModel {
    if st.seen.contains(child.0) {
        st
    } else if child.1 {
        ResolutionModel { seen: st.seen.insert(child.0), frontier: st.frontier.push(child.0), ..st }
    } else {
        ResolutionModel { seen: st.seen.insert(child.0), items: st.items.push(child.0), ..st }
    }
}

pub open spec fn with_children(st: ResolutionModel, children: Seq<(u64, bool)>) -> ResolutionModel
    decreases children.len(),
{
    if children.len() == 0 {
        st
    } else {
        with_child(with_children(st, children.drop_last()), children.last())
    }
}

/// One requested id: a collection's children are taken in; an id with no
/// row, or a plain item's row, becomes an item.
pub open spec fn with_requested(st: ResolutionModel, id: u64, rows: Seq<(u64, Option<Seq<(u64, bool)>>)>) -> ResolutionModel {
    match last_row_for(rows, id) {
        Some(Some(children)) => with_children(st, children),
        _ => ResolutionModel { items: st.items.push(id), ..st },
    }
}

pub open spec fn with_rows(
    st: ResolutionModel,
    requested: Seq<u64>,
    rows: Seq<(u64, Option<Seq<(u64, bool)>>)>,
) -> ResolutionModel
    decreases requested.len(),
{
    if requested.len() == 0 {
        st
    } else {
        with_requested(with_rows(st, requested.drop_last(), rows), requested.last(), rows)
    }
}

impl CollectionResolution {
    /// Starts with the known items and the ids that may be collections,
    /// all of them seen.
    pub fn new(known_items: Vec<u64>, possible_collections: Vec<u64>) -> (r: CollectionResolution)
        ensures
            r@.seen == known_items@.to_set() + possible_collections@.to_set(),
            r@.items == known_items@,
            r@.frontier == possible_collections@,
            r@.levels == 0,
    {
        let mut seen: HashSet<u64> = HashSet::new();
        let ghost kn = known_items@;
        let ghost pc = possible_collections@;
        let mut i: usize = 0;
        assert(kn.take(0).to_set() =~= Set::<u64>::empty());
        while i < known_items.len()
            invariant
                kn == known_items@,
                i <= known_items.len(),
                seen@ == kn.take(i as int).to_set(),
            decreases known_items.len() - i,
        {
            let v = known_items[i];
            proof {
                assert(kn.take(i + 1) =~= kn.take(i as int).push(v));
                lemma_to_set_push(kn.take(i as int), v);
            }
            seen.insert(v);
            i = i + 1;
        }
        assert(kn.take(kn.len() as int) =~= kn);
        let mut k: usize = 0;
        assert(pc.take(0).to_set() =~= Set::<u64>::empty());
        assert(kn.to_set() + pc.take(0).to_set() =~= kn.to_set());
        while k < possible_collections.len()
            invariant
                kn == known_items@,
                pc == possible_collections@,
                k <= possible_collections.len(),
                seen@ == kn.to_set() + pc.take(k as int).to_set(),
            decreases possible_collections.len() - k,
        {
            let v = possible_collections[k];
            proof {
                assert(pc.take(k + 1) =~= pc.take(k as int).push(v));
                lemma_to_set_push(pc.take(k as int), v);
                assert(kn.to_set() + pc.take(k as int).to_set().insert(v) =~= (kn.to_set() + pc.take(k as int).to_set()).insert(v));
            }
            seen.insert(v);
            k = k + 1;
        }
        assert(pc.take(pc.len() as int) =~= pc);
        CollectionResolution { seen, items: known_items, frontier: possible_collections, levels: 0 }
    }

    /// The items found so far.
    pub fn items(&self) -> (r: &Vec<u64>)
        ensures
            r@ == self@.items,
    {
        &self.items
    }

    /// The collections still to expand.
    pub fn frontier(&self) -> (r: &Vec<u64>)
        ensures
            r@ == self@.frontier,
    {
        &self.frontier
    }

    /// Takes the frontier, leaving it empty.
    pub fn take_frontier(&mut self) -> (r: Vec<u64>)
        ensures
            r@ == old(self)@.frontier,
            final(self)@ == (ResolutionModel { frontier: Seq::empty(), ..old(self)@ }),
    {
        let mut f: Vec<u64> = Vec::new();
        std::mem::swap(&mut f, &mut self.frontier);
        assert(self@ =~= ResolutionModel { frontier: Seq::empty(), ..old(self)@ });
        f
    }

    /// The next level to expand, as request batches: the whole frontier,
    /// unless it is empty or `MAX_COLLECTION_DEPTH` levels were expanded.
    pub fn next_level(&mut self) -> (r: Option<Vec<Vec<u64>>>)
        ensures
            old(self)@.levels < MAX_COLLECTION_DEPTH && old(self)@.frontier.len() > 0 ==> {
                &&& r is Some
                &&& final(self)@ == (ResolutionModel { frontier: Seq::empty(), levels: old(self)@.levels + 1, ..old(self)@ })
                &&& r->0@.len() == (old(self)@.frontier.len() + BATCH_SIZE - 1) / BATCH_SIZE as int
                &&& forall|i: int| 0 <= i < r->0@.len() ==> (#[trigger] r->0@[i])@ == spec_chunk(old(self)@.frontier, BATCH_SIZE as int, i)
            },
            !(old(self)@.levels < MAX_COLLECTION_DEPTH && old(self)@.frontier.len() > 0) ==> r is None && final(self)@ == old(self)@,
    {
        if self.levels < MAX_COLLECTION_DEPTH && self.frontier.len() > 0 {
            let mut f: Vec<u64> = Vec::new();
            std::mem::swap(&mut f, &mut self.frontier);
            self.levels = self.levels + 1;
            assert(self@ =~= ResolutionModel { frontier: Seq::empty(), levels: old(self)@.levels + 1, ..old(self)@ });
            Some(id_chunks(f.as_slice(), BATCH_SIZE))
        } else {
            None
        }
    }

    /// Takes in the rows answering the batch `requested`.
    pub fn apply_rows(&mut self, requested: &[u64], rows: &[CollectionRow])
        ensures
            final(self)@ == with_rows(old(self)@, requested@, rows_model(rows@)),
    {
        let ghost rm = rows_model(rows@);
        let mut i: usize = 0;
        assert(requested@.take(0) =~= Seq::<u64>::empty());
        while i < requested.len()
            invariant
                rm == rows_model(rows@),
                i <= requested.len(),
                self@ == with_rows(old(self)@, requested@.take(i as int), rm),
            decreases requested.len() - i,
        {
            let id = requested[i];
            proof {
                assert(requested@.take(i + 1).drop_last() =~= requested@.take(i as int));
                assert(requested@.take(i + 1).last() == id);
            }
            let mut j: usize = rows.len();
            assert(rm.take(rm.len() as int) =~= rm);
            while j > 0 && rows[j - 1].id != id
                invariant
                    rm == rows_model(rows@),
                    j <= rows.len(),
                    last_row_for(rm, id) == last_row_for(rm.take(j as int), id),
                decreases j,
            {
                proof {
                    assert(rm.take(j as int).drop_last() =~= rm.take(j - 1));
                }
                j = j - 1;
            }
            proof {
                if j == 0 {
                    assert(rm.take(0) =~= Seq::<(u64, Option<Seq<(u64, bool)>>)>::empty());
                } else {
                    assert(rm.take(j as int).last() == rm[j - 1]);
                }
            }
            if j > 0 {
                match &rows[j - 1].children {
                    Some(children) => {
                        self.take_children(children);
                    },
                    None => {
                        self.items.push(id);
                    },
                }
            } else {
                self.items.push(id);
            }
            i = i + 1;
        }
        assert(requested@.take(requested.len() as int) =~= requested@);
    }

    fn take_children(&mut self, children: &Vec<(u64, bool)>)
        ensures
            final(self)@ == with_children(old(self)@, children@),
    {
        let mut k: usize = 0;
        assert(children@.take(0) =~= Seq::<(u64, bool)>::empty());
        while k < children.len()
            invariant
                k <= children.len(),
                self@ == with_children(old(self)@, children@.take(k as int)),
            decreases children.len() - k,
        {
            let (child, is_collection) = children[k];
            let ghost prev = self@;
            proof {
                assert(children@.take(k + 1).drop_last() =~= children@.take(k as int));
                assert(children@.take(k + 1).last() == (child, is_collection));
            }
            if self.seen.insert(child) {
                if is_collection {
                    self.frontier.push(child);
                } else {
                    self.items.push(child);
                }
            }
            assert(self@ =~= with_child(prev, (child, is_collection)));
            k = k + 1;
        }
        assert(children@.take(children.len() as int) =~= children@);
    }

    /// The ids to ask details for: the items found, then whatever the
    /// depth limit left unexpanded.
    pub fn into_item_ids(self) -> (r: Vec<u64>)
        ensures
            r@ == self@.items + self@.frontier,
    {
        let mut items = self.items;
        let mut frontier = self.frontier;
        items.append(&mut frontier);
        items
    }
}

/// The ids of a list cut into request batches.
pub fn id_batches(ids: &[u64]) -> (r: Vec<Vec<u64>>)
    ensures
        r@.len() == (ids@.len() + BATCH_SIZE - 1) / BATCH_SIZE as int,
        forall|i: int| 0 <= i < r@.len() ==> (#[trigger] r@[i])@ == spec_chunk(ids@, BATCH_SIZE as int, i),
{
    id_chunks(ids, BATCH_SIZE)
}

} // verus!
