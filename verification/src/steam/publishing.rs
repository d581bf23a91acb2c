//! Workshop publishing: submission data, tags, and the content folder's
//! single packed addon.
use vstd::prelude::*;

use std::path::PathBuf;

use crate::map::paths::{extension_chars, spec_extension};
use crate::search::order::{chars_order, compare_chars, lemma_chars_order_props, lemma_chars_order_trans};
use crate::text::{chars_eq, ci_eq, spec_ci_eq, str_chars};

verus! {

#[verifier::external_type_specification]
#[verifier::external_body]
pub struct ExPathBuf(PathBuf);

/// Publishing settings captured when a publish flow starts.
#[derive(Debug)]
pub struct PublishSettingsSnapshot {
    pub temp: Option<PathBuf>,
    pub ignore_globs: Vec<String>,
}

/// Whether a submission creates a Workshop item or updates one (with an
/// optional changelog).
#[derive(Debug, Clone)]
pub enum PublishSubmissionMode {
    Create,
    Update { id: u64, changes: Option<String> },
}

#[derive(Debug)]
pub struct PublishSubmission {
    pub content_path_src: PathBuf,
    pub icon_path: Option<PathBuf>,
    pub title: String,
    pub tags: Vec<String>,
    pub addon_type: String,
    pub upscale: bool,
    pub mode: PublishSubmissionMode,
    pub settings: Option<PublishSettingsSnapshot>,
}

#[derive(Debug, Clone, Copy, PartialEq, Eq)]
pub struct PublishSubmissionOutcome {
    pub published_file_id: u64,
    pub legal_agreement_required: bool,
}

/// A freshly created Workshop item and whether Steam requires the legal
/// agreement before it is visible.
#[derive(Debug, Clone, Copy, PartialEq, Eq)]
pub struct PublishOutcome {
    pub id: u64,
    pub legal_agreement_required: bool,
}

/// The Workshop tags of an addon: its own tags, then `Addon` and its type.
pub fn publish_tags(tags: Vec<String>, addon_type: String) -> (r: Vec<String>)
    ensures
        r@.len() == tags@.len() + 2,
        forall|i: int| 0 <= i < tags@.len() ==> r@[i] == tags@[i],
        r@[tags@.len() as int]@ == "Addon"@,
        r@[tags@.len() + 1int] == addon_type,
{
    let mut tags = tags;
    tags.push("Addon".to_owned());
    tags.push(addon_type);
    tags
}

/// Why a folder cannot be published.
#[derive(Debug, Clone, Copy, PartialEq, Eq)]
pub enum ContentPathError {
    InvalidContentPath,
    MultipleGMAs,
    NoEntries,
}

/// The packed addon a content folder publishes.
#[derive(Debug, Clone, PartialEq, Eq)]
pub struct ContentPath(pub String);

/// The entries of a folder listing whose extension is exactly `gma`.
pub open spec fn spec_gma_entries(entries: Seq<Seq<char>>) -> Seq<Seq<char>>
    decreases entries.len(),
{
    if entries.len() == 0 {
        Seq::empty()
    } else {
        let rest = spec_gma_entries(entries.drop_last());
        if spec_extension(entries.last()) == Some("gma"@) {
            rest.push(entries.last())
        } else {
            rest
        }
    }
}

/// The views of a list of strings.
pub open spec fn strings_view(v: Seq<String>) -> Seq<Seq<char>> {
    Seq::new(v.len(), |i: int| v[i]@)
}

impl ContentPath {
    /// The content folder's one `.gma`, from whether the path is a folder
    /// and the paths of its entries: a non-folder is invalid, two addons
    /// are ambiguous, none is empty.
    pub fn new(is_dir: bool, entries: Vec<String>) -> (r: Result<Self, ContentPathError>)
        ensures
            !is_dir ==> r == Err::<ContentPath, ContentPathError>(ContentPathError::InvalidContentPath),
            is_dir ==> {
                let g = spec_gma_entries(strings_view(entries@));
                &&& g.len() == 0 ==> r == Err::<ContentPath, ContentPathError>(ContentPathError::NoEntries)
                &&& g.len() >= 2 ==> r == Err::<ContentPath, ContentPathError>(ContentPathError::MultipleGMAs)
                &&& g.len() == 1 ==> (r matches Ok(c) && c.0@ == g[0])
            },
    {
        if !is_dir {
            return Err(ContentPathError::InvalidContentPath);
        }
        let ghost all = strings_view(entries@);
        let gma = str_chars("gma");
        let mut found: Option<usize> = None;
        let mut i: usize = 0;
        assert(all.take(0) =~= Seq::<Seq<char>>::empty());
        while i < entries.len()
            invariant
                is_dir,
                i <= entries.len(),
                all == strings_view(entries@),
                gma@ == "gma"@,
                spec_gma_entries(all.take(i as int)).len() <= 1,
                found is None <==> spec_gma_entries(all.take(i as int)).len() == 0,
                found matches Some(k) ==> k < i && spec_gma_entries(all.take(i as int))[0] == entries@[k as int]@,
            decreases entries.len() - i,
        {
            assert(all.take(i + 1).drop_last() =~= all.take(i as int));
            assert(all.take(i + 1).last() == entries@[i as int]@);
            let p = str_chars(entries[i].as_str());
            let is_gma = match extension_chars(p.as_slice()) {
                Some(ext) => crate::text::chars_eq(ext.as_slice(), gma.as_slice()),
                None => false,
            };
            if is_gma {
                if found.is_some() {
                    proof {
                        lemma_gma_count_grows(all, i as int + 1);
                    }
                    return Err(ContentPathError::MultipleGMAs);
                }
                found = Some(i);
            }
            i = i + 1;
        }
        assert(all.take(i as int) =~= all);
        match found {
            Some(k) => Ok(ContentPath(entries[k].clone())),
            None => Err(ContentPathError::NoEntries),
        }
    }
}

/// The addon entries of a listing include those of any prefix.
proof fn lemma_gma_count_grows(entries: Seq<Seq<char>>, n: int)
    requires
        0 <= n <= entries.len(),
    ensures
        spec_gma_entries(entries).len() >= spec_gma_entries(entries.take(n)).len(),
    decreases entries.len() - n,
{
    if n < entries.len() {
        assert(entries.take(n + 1).drop_last() =~= entries.take(n));
        lemma_gma_count_grows(entries, n + 1);
    } else {
        assert(entries.take(n) =~= entries);
    }
}

/// The image formats the Workshop takes for a preview icon.
#[derive(Debug, Clone, Copy, PartialEq, Eq)]
pub enum IconFormat {
    Png,
    Gif,
    Jpeg,
}

/// A preview icon: a custom image, by its path, format and pixel size and
/// whether it is to be upscaled, or the bundled default icon.
#[derive(Debug, Clone, PartialEq, Eq)]
pub enum WorkshopIcon {
    Custom { path: String, format: IconFormat, width: u32, height: u32, upscale: bool },
    Default,
}

/// The largest icon file the Workshop takes, in bytes.
pub const WORKSHOP_ICON_MAX_SIZE: u64 = 1048576;

/// The smallest icon file the Workshop takes, in bytes.
pub const WORKSHOP_ICON_MIN_SIZE: u64 = 16;

/// Why an icon file is refused before it is decoded.
#[derive(Debug, Clone, Copy, PartialEq, Eq)]
pub enum IconError {
    IconTooLarge,
    IconTooSmall,
    IconInvalidFormat,
}

/// The format an icon extension names, ignoring ASCII case.
pub open spec fn spec_icon_format(ext: Seq<char>) -> Option<IconFormat> {
    if spec_ci_eq(ext, "png"@) {
        Some(IconFormat::Png)
    } else if spec_ci_eq(ext, "gif"@) {
        Some(IconFormat::Gif)
    } else if spec_ci_eq(ext, "jpeg"@) || spec_ci_eq(ext, "jpg"@) {
        Some(IconFormat::Jpeg)
    } else {
        None
    }
}

/// The extension an icon path is read by: its own, or `jpg` when it has
/// none.
pub open spec fn spec_icon_extension(path: Seq<char>) -> Seq<char> {
    match spec_extension(path) {
        Some(x) => x,
        None => "jpg"@,
    }
}

impl WorkshopIcon {
    /// Whether an icon may be upscaled: never a GIF, and only one that is
    /// not already a square of at least 512 pixels a side.
    pub fn can_upscale(width: u32, height: u32, format: IconFormat) -> (r: bool)
        ensures
            r == (format != IconFormat::Gif && (width < 512 || height < 512 || width != height)),
    {
        let gif = match format {
            IconFormat::Gif => true,
            _ => false,
        };
        !gif && ((width < 512 || height < 512) || width != height)
    }

    /// The checks made on an icon file before it is decoded, from its size
    /// in bytes and its path: a file over the limit is too large, one under
    /// it too small, and otherwise its extension decides the format.
    pub fn format_for(len: u64, path: &str) -> (r: Result<IconFormat, IconError>)
        ensures
            len > WORKSHOP_ICON_MAX_SIZE ==> r == Err::<IconFormat, IconError>(IconError::IconTooLarge),
            len < WORKSHOP_ICON_MIN_SIZE ==> r == Err::<IconFormat, IconError>(IconError::IconTooSmall),
            WORKSHOP_ICON_MIN_SIZE <= len <= WORKSHOP_ICON_MAX_SIZE ==> r == match spec_icon_format(
                spec_icon_extension(path@),
            ) {
                Some(f) => Ok::<IconFormat, IconError>(f),
                None => Err(IconError::IconInvalidFormat),
            },
    {
        if len > WORKSHOP_ICON_MAX_SIZE {
            return Err(IconError::IconTooLarge);
        } else if len < WORKSHOP_ICON_MIN_SIZE {
            return Err(IconError::IconTooSmall);
        }
        let p = str_chars(path);
        let ext = match extension_chars(p.as_slice()) {
            Some(x) => x,
            None => str_chars("jpg"),
        };
        assert(ext@ == spec_icon_extension(path@));
        if ci_eq(ext.as_slice(), str_chars("png").as_slice()) {
            Ok(IconFormat::Png)
        } else if ci_eq(ext.as_slice(), str_chars("gif").as_slice()) {
            Ok(IconFormat::Gif)
        } else if ci_eq(ext.as_slice(), str_chars("jpeg").as_slice()) || ci_eq(ext.as_slice(), str_chars("jpg").as_slice()) {
            Ok(IconFormat::Jpeg)
        } else {
            Err(IconError::IconInvalidFormat)
        }
    }
}

// --- whitelist check ----------------------------------------------------------

/// One file of a content folder as the whitelist check reads it: its path
/// relative to the folder, with `/` separators; its size in bytes; and
/// whether the addon whitelist admits that path. Files that the ignore
/// rules drop are no rows.
#[derive(Debug, Clone, PartialEq, Eq)]
pub struct WhitelistRow {
    pub relative_path: String,
    pub size: u64,
    pub whitelisted: bool,
}

/// A file that goes into the packed addon: its relative path and size.
#[derive(Debug, Clone, PartialEq, Eq)]
pub struct WhitelistedFile {
    pub path: String,
    pub size: u64,
}

/// Why a content folder's files cannot be packed.
#[derive(Debug, Clone, PartialEq, Eq)]
pub enum WhitelistError {
    InvalidContentPath,
    DuplicateEntry(String),
    NotWhitelisted(Vec<String>),
    NoEntries,
}

/// How many refused paths the check reports; one more ends the scan.
pub const WHITELIST_MAX_REPORTED: usize = 9;

/// The views of whitelist rows.
pub open spec fn whitelist_rows_view(rows: Seq<WhitelistRow>) -> Seq<(Seq<char>, u64, bool)> {
    Seq::new(rows.len(), |i: int| (rows[i].relative_path@, rows[i].size, rows[i].whitelisted))
}

/// The views of packed files.
pub open spec fn whitelisted_files_view(v: Seq<WhitelistedFile>) -> Seq<(Seq<char>, u64)> {
    Seq::new(v.len(), |i: int| (v[i].path@, v[i].size))
}

/// Row `i` repeats the path of an earlier row.
pub open spec fn spec_seen_before(rows: Seq<(Seq<char>, u64, bool)>, i: int) -> bool {
    exists|j: int| 0 <= j < i && #[trigger] rows[j].0 == rows[i].0
}

/// The scan of the first `n` rows, in order: the duplicate path it
/// stopped on, if any; the refused paths so far; whether it stopped at a
/// refusal past `WHITELIST_MAX_REPORTED`; the admitted files, gathered
/// only while nothing was refused; and their total size. A duplicate
/// path stops the scan; so does a refusal when the list is full.
pub open spec fn spec_whitelist_scan(rows: Seq<(Seq<char>, u64, bool)>, n: int) -> (
    Option<Seq<char>>,
    Seq<Seq<char>>,
    bool,
    Seq<(Seq<char>, u64)>,
    int,
)
    decreases n,
{
    if n <= 0 {
        (None, Seq::empty(), false, Seq::empty(), 0)
    } else {
        let prev = spec_whitelist_scan(rows, n - 1);
        let r = rows[n - 1];
        if prev.0 is Some || prev.2 {
            prev
        } else if spec_seen_before(rows, n - 1) {
            (Some(r.0), prev.1, prev.2, prev.3, prev.4)
        } else if !r.2 {
            if prev.1.len() == WHITELIST_MAX_REPORTED {
                (None, prev.1, true, prev.3, prev.4)
            } else {
                (None, prev.1.push(r.0), false, prev.3, prev.4)
            }
        } else if prev.1.len() == 0 {
            (None, prev.1, false, prev.3.push((r.0, r.1)), prev.4 + r.1)
        } else {
            prev
        }
    }
}

/// Every running total the scan reaches fits in a `u64`.
pub open spec fn spec_whitelist_size_fits(rows: Seq<(Seq<char>, u64, bool)>) -> bool {
    forall|n: int| 0 <= n <= rows.len() ==> #[trigger] spec_whitelist_scan(rows, n).4 <= u64::MAX
}

proof fn lemma_scan_halted(rows: Seq<(Seq<char>, u64, bool)>, m: int, n: int)
    requires
        0 <= m <= n,
        spec_whitelist_scan(rows, m).0 is Some || spec_whitelist_scan(rows, m).2,
    ensures
        spec_whitelist_scan(rows, n) == spec_whitelist_scan(rows, m),
    decreases n - m,
{
    if n > m {
        lemma_scan_halted(rows, m, n - 1);
    }
}

proof fn lemma_scan_bounds(rows: Seq<(Seq<char>, u64, bool)>, n: int)
    requires
        0 <= n,
    ensures
        spec_whitelist_scan(rows, n).1.len() <= WHITELIST_MAX_REPORTED,
        spec_whitelist_scan(rows, n).3.len() <= n,
        spec_whitelist_scan(rows, n).4 >= 0,
    decreases n,
{
    if n > 0 {
        lemma_scan_bounds(rows, n - 1);
    }
}

/// The paths of `v`, as char sequences.
pub open spec fn path_strings_view(v: Seq<String>) -> Seq<Seq<char>> {
    Seq::new(v.len(), |i: int| v[i]@)
}

/// `s` is in `chars_order`.
pub open spec fn spec_chars_sorted(s: Seq<Seq<char>>) -> bool {
    forall|i: int, j: int| 0 <= i < j < s.len() ==> chars_order(s[i], s[j]) <= 0
}

/// The refused paths as reported: sorted, then `...` when the scan stopped
/// at a refusal past the reported ones.
pub open spec fn spec_refusal_report(failed: Seq<Seq<char>>, stopped: bool, l: Seq<Seq<char>>) -> bool {
    &&& l.len() == failed.len() + if stopped { 1int } else { 0int }
    &&& l.take(failed.len() as int).to_multiset() == failed.to_multiset()
    &&& spec_chars_sorted(l.take(failed.len() as int))
    &&& stopped ==> l[failed.len() as int] == "..."@
}

/// Sorts `v` by `chars_order`.
fn sort_paths(v: Vec<String>) -> (r: Vec<String>)
    ensures
        path_strings_view(r@).to_multiset() == path_strings_view(v@).to_multiset(),
        spec_chars_sorted(path_strings_view(r@)),
{
    broadcast use vstd::seq_lib::group_to_multiset_ensures, vstd::seq_lib::to_multiset_insert;

    let ghost all = path_strings_view(v@);
    let mut out: Vec<String> = Vec::new();
    let mut k: usize = 0;
    while k < v.len()
        invariant
            k <= v.len(),
            all == path_strings_view(v@),
            path_strings_view(out@).to_multiset() == all.take(k as int).to_multiset(),
            spec_chars_sorted(path_strings_view(out@)),
        decreases v.len() - k,
    {
        let x = v[k].clone();
        let xc = str_chars(x.as_str());
        let ghost o = path_strings_view(out@);
        let mut p: usize = 0;
        while p < out.len() && compare_chars(str_chars(out[p].as_str()).as_slice(), xc.as_slice()) <= 0
            invariant
                p <= out.len(),
                o == path_strings_view(out@),
                xc@ == x@,
                forall|i: int| 0 <= i < p ==> chars_order(#[trigger] o[i], x@) <= 0,
            decreases out.len() - p,
        {
            p = p + 1;
        }
        proof {
            if p < out.len() {
                assert(chars_order(o[p as int], x@) > 0);
            }
        }
        out.insert(p, x);
        proof {
            let n = path_strings_view(out@);
            assert(n =~= o.insert(p as int, x@));
            assert(all.take(k + 1) =~= all.take(k as int).push(all[k as int]));
            assert(all[k as int] == x@);
            vstd::seq_lib::to_multiset_insert(o, p as int, x@);
            vstd::seq_lib::to_multiset_build(all.take(k as int), x@);
            assert forall|i: int, j: int| 0 <= i < j < n.len() implies chars_order(n[i], n[j]) <= 0 by {
                if j == p as int {
                    assert(n[i] == o[i]);
                } else if i == p as int {
                    assert(n[j] == o[j - 1]);
                    lemma_chars_order_props(o[p as int], x@);
                    if j - 1 > p as int {
                        lemma_chars_order_props(x@, o[p as int]);
                        lemma_chars_order_trans(x@, o[p as int], o[j - 1]);
                    } else {
                        lemma_chars_order_props(x@, o[p as int]);
                    }
                } else {
                    let oi = if i < p { i } else { i - 1 };
                    let oj = if j < p { j } else { j - 1 };
                    assert(n[i] == o[oi]);
                    assert(n[j] == o[oj]);
                }
            }
        }
        k = k + 1;
    }
    assert(all.take(v.len() as int) =~= all);
    out
}

/// Checks a content folder's files for packing, from whether its path is
/// an absolute folder and its rows in walk order (see
/// `spec_whitelist_scan`): a duplicate path is refused; refused paths are
/// reported sorted, at most `WHITELIST_MAX_REPORTED` of them and then
/// `...` when there were more; with none refused, the admitted files and
/// their total size, or `NoEntries` when there are none.
pub fn verify_whitelist_rows(is_content_dir: bool, rows: &[WhitelistRow]) -> (r: Result<(Vec<WhitelistedFile>, u64), WhitelistError>)
    requires
        is_content_dir ==> spec_whitelist_size_fits(whitelist_rows_view(rows@)),
    ensures
        !is_content_dir ==> r == Err::<(Vec<WhitelistedFile>, u64), WhitelistError>(WhitelistError::InvalidContentPath),
        is_content_dir ==> {
            let scan = spec_whitelist_scan(whitelist_rows_view(rows@), rows@.len() as int);
            match scan.0 {
                Some(p) => r matches Err(WhitelistError::DuplicateEntry(q)) && q@ == p,
                None => if scan.1.len() > 0 {
                    r matches Err(WhitelistError::NotWhitelisted(l)) && spec_refusal_report(scan.1, scan.2, path_strings_view(l@))
                } else if scan.3.len() == 0 {
                    r == Err::<(Vec<WhitelistedFile>, u64), WhitelistError>(WhitelistError::NoEntries)
                } else {
                    r matches Ok((files, size)) && whitelisted_files_view(files@) == scan.3 && size == scan.4
                },
            }
        },
{
    if !is_content_dir {
        return Err(WhitelistError::InvalidContentPath);
    }
    let ghost rv = whitelist_rows_view(rows@);
    let mut paths: Vec<Vec<char>> = Vec::new();
    let mut failed: Vec<String> = Vec::new();
    let mut stopped = false;
    let mut files: Vec<WhitelistedFile> = Vec::new();
    let mut size: u64 = 0;
    let mut i: usize = 0;
    while i < rows.len() && !stopped
        invariant
            is_content_dir,
            i <= rows.len(),
            rv == whitelist_rows_view(rows@),
            spec_whitelist_size_fits(rv),
            paths@.len() == i,
            forall|j: int| 0 <= j < i ==> (#[trigger] paths@[j])@ == rv[j].0,
            spec_whitelist_scan(rv, i as int) == (
                None::<Seq<char>>,
                path_strings_view(failed@),
                stopped,
                whitelisted_files_view(files@),
                size as int,
            ),
        decreases rows.len() - i,
    {
        let row = &rows[i];
        let pc = str_chars(row.relative_path.as_str());
        assert(rv[i as int].0 == row.relative_path@);
        let mut j: usize = 0;
        let mut seen = false;
        while j < i && !seen
            invariant
                j <= i,
                i < rows.len(),
                paths@.len() == i,
                pc@ == rv[i as int].0,
                forall|t: int| 0 <= t < i ==> (#[trigger] paths@[t])@ == rv[t].0,
                seen ==> spec_seen_before(rv, i as int),
                !seen ==> forall|t: int| 0 <= t < j ==> rv[t].0 != rv[i as int].0,
            decreases i - j + if seen { 0int } else { 1int },
        {
            if chars_eq(paths[j].as_slice(), pc.as_slice()) {
                seen = true;
                assert(rv[j as int].0 == rv[i as int].0);
            } else {
                j = j + 1;
            }
        }
        proof {
            lemma_scan_bounds(rv, i as int);
            assert(spec_whitelist_scan(rv, i + 1) == {
                let prev = spec_whitelist_scan(rv, i as int);
                let r = rv[i as int];
                if spec_seen_before(rv, i as int) {
                    (Some(r.0), prev.1, prev.2, prev.3, prev.4)
                } else if !r.2 {
                    if prev.1.len() == WHITELIST_MAX_REPORTED {
                        (None, prev.1, true, prev.3, prev.4)
                    } else {
                        (None, prev.1.push(r.0), false, prev.3, prev.4)
                    }
                } else if prev.1.len() == 0 {
                    (None, prev.1, false, prev.3.push((r.0, r.1)), prev.4 + r.1)
                } else {
                    prev
                }
            });
        }
        if seen {
            let dup = row.relative_path.clone();
            proof {
                lemma_scan_halted(rv, i + 1, rows@.len() as int);
            }
            return Err(WhitelistError::DuplicateEntry(dup));
        }
        if !row.whitelisted {
            if failed.len() == WHITELIST_MAX_REPORTED {
                stopped = true;
            } else {
                let ghost before = path_strings_view(failed@);
                failed.push(row.relative_path.clone());
                assert(path_strings_view(failed@) =~= before.push(rv[i as int].0));
            }
        } else if failed.len() == 0 {
            proof {
                assert(spec_whitelist_scan(rv, i + 1).4 <= u64::MAX);
            }
            size = size + row.size;
            let ghost before = whitelisted_files_view(files@);
            files.push(WhitelistedFile { path: row.relative_path.clone(), size: row.size });
            assert(whitelisted_files_view(files@) =~= before.push((rv[i as int].0, rv[i as int].1)));
        }
        paths.push(pc);
        i = i + 1;
    }
    proof {
        if stopped {
            lemma_scan_halted(rv, i as int, rows@.len() as int);
        }
    }
    if failed.len() > 0 {
        let ghost fv = path_strings_view(failed@);
        let mut report = sort_paths(failed);
        let ghost sorted = path_strings_view(report@);
        proof {
            vstd::seq_lib::to_multiset_len(fv);
            vstd::seq_lib::to_multiset_len(sorted);
            assert(sorted.take(sorted.len() as int) =~= sorted);
        }
        if stopped {
            let dots = "...".to_string();
            report.push(dots);
            proof {
                assert(path_strings_view(report@) =~= sorted.push(dots@));
                assert(path_strings_view(report@).take(sorted.len() as int) =~= sorted);
            }
        }
        return Err(WhitelistError::NotWhitelisted(report));
    }
    if files.len() == 0 {
        return Err(WhitelistError::NoEntries);
    }
    Ok((files, size))
}

} // verus!
