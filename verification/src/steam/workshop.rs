//! Workshop query batching: page-sized id chunks, and de-duplication of
//! ids against those already requested.
use vstd::prelude::*;

use std::collections::HashSet;

verus! {

broadcast use vstd::std_specs::hash::group_hash_axioms;

/// How many items one Workshop UGC query page returns (Steamworks'
/// `kNumUGCResultsPerPage`).
pub const RESULTS_PER_PAGE: usize = 50;

/// Whether a details query asks Steam for full descriptions or summaries.
#[derive(Clone, Copy, Debug, PartialEq, Eq)]
pub enum DescriptionLength {
    Summary,
    Full,
}

impl DescriptionLength {
    pub fn returns_full_description(self) -> (r: bool)
        ensures
            r == (self is Full),
    {
        match self {
            DescriptionLength::Full => true,
            DescriptionLength::Summary => false,
        }
    }
}

/// Why a Workshop query produced no items.
#[derive(Clone, Debug, PartialEq, Eq)]
pub enum WorkshopQueryError {
    QueryCreateFailed,
    /// Steam never delivered a result for the query.
    Abandoned,
    Steam(String),
}

/// The client-facing text of a Steam error: `ERR_STEAM_ERROR`, with
/// `:` and the error when there is one.
pub open spec fn spec_steam_query_error_text(error: Seq<char>) -> Seq<char> {
    if error.len() == 0 {
        "ERR_STEAM_ERROR"@
    } else {
        "ERR_STEAM_ERROR:"@ + error
    }
}

pub fn format_steam_query_error(error: &str) -> (r: String)
    ensures
        r@ == spec_steam_query_error_text(error@),
{
    if error.is_empty() {
        "ERR_STEAM_ERROR".to_owned()
    } else {
        let mut chars = crate::text::str_chars("ERR_STEAM_ERROR:");
        let rest = crate::text::str_chars(error);
        let ghost before = chars@;
        let mut i: usize = 0;
        while i < rest.len()
            invariant
                i <= rest.len(),
                chars@ == before + rest@.take(i as int),
            decreases rest.len() - i,
        {
            chars.push(rest[i]);
            i = i + 1;
            assert(chars@ =~= before + rest@.take(i as int));
        }
        assert(rest@.take(i as int) =~= rest@);
        crate::text::string_from_chars(chars.as_slice())
    }
}

/// The `i`-th chunk of `ids` cut into chunks of `size`: the ids from
/// `i * size` up to `(i + 1) * size` or the end.
pub open spec fn spec_chunk(ids: Seq<u64>, size: int, i: int) -> Seq<u64> {
    ids.subrange(
        i * size,
        if (i + 1) * size <= ids.len() {
            (i + 1) * size
        } else {
            ids.len() as int
        },
    )
}

/// `ids` cut into consecutive chunks of `size`, the last one possibly
/// shorter (`slice::chunks`).
pub fn id_chunks(ids: &[u64], size: usize) -> (r: Vec<Vec<u64>>)
    requires
        size > 0,
    ensures
        r@.len() == (ids@.len() + size - 1) / size as int,
        forall|i: int| 0 <= i < r@.len() ==> (#[trigger] r@[i])@ == spec_chunk(ids@, size as int, i),
{
    let mut chunks: Vec<Vec<u64>> = Vec::new();
    let mut start: usize = 0;
    let n = ids.len();
    assert(chunks@.len() * size == 0) by (nonlinear_arith)
        requires
            chunks@.len() == 0,
    ;
    while start < n
        invariant
            size > 0,
            n == ids@.len(),
            start <= n,
            start == (if chunks@.len() * size <= n { chunks@.len() * size } else { n as int }),
            chunks@.len() > 0 ==> (chunks@.len() - 1) * size < n,
            forall|i: int| 0 <= i < chunks@.len() ==> (#[trigger] chunks@[i])@ == spec_chunk(ids@, size as int, i),
        decreases n - start,
    {
        let ghost k = chunks@.len() as int;
        assert(start == k * size);
        let end = if n - start >= size {
            start + size
        } else {
            n
        };
        let chunk = copy_range(ids, start, end);
        chunks.push(chunk);
        proof {
            assert((k + 1) * size == start + size) by (nonlinear_arith)
                requires
                    k * size == start,
            ;
            assert(chunks@[k]@ == spec_chunk(ids@, size as int, k));
            if end < n {
                assert((k + 1) * size <= n);
            } else {
                assert((k + 1) * size >= n);
            }
        }
        start = end;
    }
    proof {
        let c = chunks@.len() as int;
        if n == 0 {
            assert(c == 0);
            assert((size - 1) / (size as int) == 0) by (nonlinear_arith)
                requires
                    size > 0,
            ;
        } else {
            assert(c >= 1);
            assert(c * size >= n);
            assert((n + size - 1) / (size as int) == c) by (nonlinear_arith)
                requires
                    (c - 1) * size < n,
                    n <= c * size,
                    size > 0,
            ;
        }
    }
    chunks
}

/// `ids` cut into consecutive chunks of `RESULTS_PER_PAGE`, the last one
/// possibly shorter.
pub fn workshop_item_id_chunks(ids: &[u64]) -> (r: Vec<Vec<u64>>)
    ensures
        r@.len() == (ids@.len() + RESULTS_PER_PAGE - 1) / RESULTS_PER_PAGE as int,
        forall|i: int| 0 <= i < r@.len() ==> (#[trigger] r@[i])@ == spec_chunk(ids@, RESULTS_PER_PAGE as int, i),
{
    id_chunks(ids, RESULTS_PER_PAGE)
}

/// `s[start..end]` as a new vector.
fn copy_range(s: &[u64], start: usize, end: usize) -> (r: Vec<u64>)
    requires
        start <= end <= s@.len(),
    ensures
        r@ == s@.subrange(start as int, end as int),
{
    let mut r: Vec<u64> = Vec::new();
    let mut i = start;
    while i < end
        invariant
            start <= i <= end <= s@.len(),
            r@ =~= s@.subrange(start as int, i as int),
        decreases end - i,
    {
        r.push(s[i]);
        i = i + 1;
        assert(r@ =~= s@.subrange(start as int, i as int));
    }
    r
}

/// The items of the successful chunks, in chunk order.
pub open spec fn spec_chunk_items<T>(chunks: Seq<Result<Vec<T>, WorkshopQueryError>>) -> Seq<T>
    decreases chunks.len(),
{
    if chunks.len() == 0 {
        Seq::empty()
    } else {
        let rest = spec_chunk_items(chunks.drop_last());
        match chunks.last() {
            Ok(v) => rest + v@,
            Err(_) => rest,
        }
    }
}

/// The last failed chunk's error.
pub open spec fn spec_last_error<T>(chunks: Seq<Result<Vec<T>, WorkshopQueryError>>) -> Option<WorkshopQueryError>
    decreases chunks.len(),
{
    if chunks.len() == 0 {
        None
    } else {
        match chunks.last() {
            Err(e) => Some(e),
            Ok(_) => spec_last_error(chunks.drop_last()),
        }
    }
}

/// Combines per-chunk query results: any success gives every successful
/// chunk's items in order; otherwise the last chunk error (or a failed
/// query when there were no chunks).
pub fn combine_workshop_chunk_results<T>(chunk_results: Vec<Result<Vec<T>, WorkshopQueryError>>, item_capacity: usize) -> (r: Result<
    Vec<T>,
    WorkshopQueryError,
>)
    ensures
        (exists|i: int| 0 <= i < chunk_results@.len() && chunk_results@[i] is Ok) ==> (r matches Ok(v) && v@
            == spec_chunk_items(chunk_results@)),
        !(exists|i: int| 0 <= i < chunk_results@.len() && chunk_results@[i] is Ok) ==> r == Err::<Vec<T>, WorkshopQueryError>(
            match spec_last_error(chunk_results@) {
                Some(e) => e,
                None => WorkshopQueryError::QueryCreateFailed,
            },
        ),
{
    let ghost all = chunk_results@;
    let mut items: Vec<T> = Vec::new();
    let mut any = false;
    let mut last_error: Option<WorkshopQueryError> = None;
    let mut rest = chunk_results;
    let n = rest.len();
    assert(all.len() == n);
    let mut i: usize = 0;
    assert(all.take(0) =~= Seq::<Result<Vec<T>, WorkshopQueryError>>::empty());
    assert(all.skip(0) =~= all);
    while rest.len() > 0
        invariant
            i <= all.len(),
            rest@ == all.skip(i as int),
            all.len() <= usize::MAX,
            items@ == spec_chunk_items(all.take(i as int)),
            last_error == spec_last_error(all.take(i as int)),
            any == exists|k: int| 0 <= k < i && all[k] is Ok,
        decreases rest@.len(),
    {
        let result = rest.remove(0);
        proof {
            assert(result == all[i as int]);
            assert(rest@ =~= all.skip(i + 1));
            assert(all.take(i + 1).drop_last() =~= all.take(i as int));
            assert(all.take(i + 1).last() == all[i as int]);
        }
        match result {
            Ok(mut chunk) => {
                any = true;
                let ghost before = items@;
                let ghost c = chunk@;
                items.append(&mut chunk);
                assert(items@ == before + c);
            },
            Err(e) => {
                last_error = Some(e);
            },
        }
        i = i + 1;
    }
    assert(all.take(i as int) =~= all);
    if any {
        return Ok(items);
    }
    match last_error {
        Some(e) => Err(e),
        None => Err(WorkshopQueryError::QueryCreateFailed),
    }
}

/// `ids` without those already in `cache` and without repeats, in order.
pub open spec fn spec_new_ids(cache: Set<u64>, ids: Seq<u64>) -> Seq<u64>
    decreases ids.len(),
{
    if ids.len() == 0 {
        Seq::empty()
    } else {
        let rest = spec_new_ids(cache, ids.drop_last());
        let id = ids.last();
        if cache.contains(id) || ids.drop_last().contains(id) {
            rest
        } else {
            rest.push(id)
        }
    }
}

/// The ids not yet in `cache`, first occurrences only, in order; every
/// id is then in the cache.
pub fn filter_new_workshop_ids(cache: &mut HashSet<u64>, ids: Vec<u64>) -> (r: Vec<u64>)
    ensures
        r@ == spec_new_ids(old(cache)@, ids@),
        final(cache)@ == old(cache)@ + ids@.to_set(),
{
    let ghost start = cache@;
    let mut out: Vec<u64> = Vec::new();
    let mut i: usize = 0;
    assert(ids@.take(0) =~= Seq::<u64>::empty());
    assert(start + ids@.take(0).to_set() =~= start);
    while i < ids.len()
        invariant
            i <= ids.len(),
            start == old(cache)@,
            out@ == spec_new_ids(start, ids@.take(i as int)),
            cache@ == start + ids@.take(i as int).to_set(),
        decreases ids.len() - i,
    {
        let id = ids[i];
        let ghost prefix = ids@.take(i as int);
        proof {
            assert(ids@.take(i + 1).drop_last() =~= prefix);
            assert(ids@.take(i + 1).last() == id);
            assert(ids@.take(i + 1) =~= prefix.push(id));
            assert(prefix.push(id).to_set() =~= prefix.to_set().insert(id)) by {
                assert forall|x: u64| prefix.push(id).to_set().contains(x) <==> prefix.to_set().insert(id).contains(x) by {
                    if prefix.push(id).contains(x) {
                        let j = choose|j: int| 0 <= j < prefix.push(id).len() && prefix.push(id)[j] == x;
                        if j < prefix.len() {
                            assert(prefix[j] == x);
                        }
                    }
                    if prefix.contains(x) {
                        let j = choose|j: int| 0 <= j < prefix.len() && prefix[j] == x;
                        assert(prefix.push(id)[j] == x);
                    }
                    if x == id {
                        assert(prefix.push(id)[prefix.len() as int] == x);
                    }
                }
            }
        }
        let fresh = cache.insert(id);
        if fresh {
            out.push(id);
        }
        proof {
            assert((start.contains(id) || prefix.contains(id)) == !fresh) by {
                if prefix.contains(id) {
                    assert(prefix.to_set().contains(id));
                }
                if prefix.to_set().contains(id) {
                    assert(prefix.contains(id));
                }
            }
        }
        i = i + 1;
    }
    assert(ids@.take(i as int) =~= ids@);
    out
}

/// What `filter_new_workshop_ids` returns keeps the order of `ids`, holds no
/// id that was already known, and no id twice.
pub proof fn lemma_new_ids_fresh_and_distinct(cache: Set<u64>, ids: Seq<u64>)
    ensures
        forall|k: int| 0 <= k < spec_new_ids(cache, ids).len() ==> !cache.contains(#[trigger] spec_new_ids(cache, ids)[k]),
        forall|a: int, b: int|
            0 <= a < b < spec_new_ids(cache, ids).len() ==> spec_new_ids(cache, ids)[a] != spec_new_ids(cache, ids)[b],
        forall|k: int| 0 <= k < spec_new_ids(cache, ids).len() ==> ids.contains(#[trigger] spec_new_ids(cache, ids)[k]),
    decreases ids.len(),
{
    if ids.len() > 0 {
        let init = ids.drop_last();
        lemma_new_ids_fresh_and_distinct(cache, init);
        let rest = spec_new_ids(cache, init);
        let id = ids.last();
        assert forall|k: int| 0 <= k < rest.len() implies ids.contains(#[trigger] rest[k]) by {
            let j = choose|j: int| 0 <= j < init.len() && init[j] == rest[k];
            assert(ids[j] == rest[k]);
        }
        if !(cache.contains(id) || init.contains(id)) {
            assert forall|k: int| 0 <= k < rest.len() implies rest[k] != id by {
                assert(init.contains(rest[k]));
            }
            assert(ids[ids.len() - 1] == id);
        }
    }
}


/// `x` turns up in `ids` before every place where `y` does.
pub open spec fn spec_appears_before(ids: Seq<u64>, x: u64, y: u64) -> bool {
    forall|j: int| 0 <= j < ids.len() && #[trigger] ids[j] == y ==> exists|i: int| 0 <= i < j && ids[i] == x
}

/// What `filter_new_workshop_ids` returns misses no new id, and keeps
/// the order in which ids first appear: every id of `ids` that was not
/// already known is in it, and of two ids in it, the earlier one first
/// appears in `ids` before the later one does.
pub proof fn lemma_new_ids_complete_and_ordered(cache: Set<u64>, ids: Seq<u64>)
    ensures
        forall|x: u64| ids.contains(x) && !cache.contains(x) ==> #[trigger] spec_new_ids(cache, ids).contains(x),
        forall|a: int, b: int|
            0 <= a < b < spec_new_ids(cache, ids).len() ==> spec_appears_before(
                ids,
                #[trigger] spec_new_ids(cache, ids)[a],
                #[trigger] spec_new_ids(cache, ids)[b],
            ),
    decreases ids.len(),
{
    lemma_new_ids_fresh_and_distinct(cache, ids);
    if ids.len() > 0 {
        let init = ids.drop_last();
        let id = ids.last();
        let rest = spec_new_ids(cache, init);
        let r = spec_new_ids(cache, ids);
        lemma_new_ids_complete_and_ordered(cache, init);
        lemma_new_ids_fresh_and_distinct(cache, init);
        let added = !(cache.contains(id) || init.contains(id));
        assert forall|x: u64| ids.contains(x) && !cache.contains(x) implies #[trigger] r.contains(x) by {
            let j = choose|j: int| 0 <= j < ids.len() && ids[j] == x;
            if j < init.len() {
                assert(init[j] == x);
                assert(rest.contains(x));
                let k = choose|k: int| 0 <= k < rest.len() && rest[k] == x;
                if added {
                    assert(r[k] == x);
                }
            } else if added {
                assert(r[rest.len() as int] == x);
            } else {
                assert(init.contains(x));
                assert(rest.contains(x));
            }
        }
        assert forall|a: int, b: int| 0 <= a < b < r.len() implies spec_appears_before(ids, #[trigger] r[a], #[trigger] r[b]) by {
            assert(r[a] == rest[a]);
            assert(init.contains(rest[a]));
            assert forall|j: int| 0 <= j < ids.len() && #[trigger] ids[j] == r[b] implies exists|i: int| 0 <= i < j && ids[i] == r[a] by {
                if b < rest.len() {
                    assert(r[b] == rest[b]);
                    assert(init.contains(rest[b]));
                    let jj = if j < init.len() {
                        j
                    } else {
                        choose|t: int| 0 <= t < init.len() && init[t] == rest[b]
                    };
                    assert(init[jj] == rest[b]);
                    assert(spec_appears_before(init, rest[a], rest[b]));
                    let i = choose|i: int| 0 <= i < jj && init[i] == rest[a];
                    assert(ids[i] == r[a]);
                } else {
                    assert(added && r[b] == id);
                    if j < init.len() {
                        assert(init[j] == id);
                        assert(false);
                    }
                    let i = choose|i: int| 0 <= i < init.len() && init[i] == rest[a];
                    assert(ids[i] == r[a]);
                }
            }
        }
    }
}

/// Draining chunk query results as they arrive: whether any chunk
/// succeeded, the last error met, and whether Steam abandoned a chunk
/// (which ends the draining).
pub struct ChunkDrain {
    pub any_succeeded: bool,
    pub last_error: Option<WorkshopQueryError>,
    pub stopped: bool,
}

impl ChunkDrain {
    pub fn new() -> (r: ChunkDrain)
        ensures
            !r.any_succeeded,
            r.last_error is None,
            !r.stopped,
    {
        ChunkDrain { any_succeeded: false, last_error: None, stopped: false }
    }

    /// Takes one chunk result; `None` when Steam never answered it. A
    /// successful chunk is handed back to be delivered at once; a failed
    /// one is remembered as the last error; an unanswered one is an
    /// abandoned query and stops the draining.
    pub fn record<T>(&mut self, received: Option<Result<T, WorkshopQueryError>>) -> (r: Option<T>)
        ensures
            match received {
                None => r is None && final(self).stopped && final(self).last_error == Some(WorkshopQueryError::Abandoned)
                    && final(self).any_succeeded == old(self).any_succeeded,
                Some(Ok(x)) => r == Some(x) && final(self).any_succeeded && final(self).last_error == old(self).last_error
                    && final(self).stopped == old(self).stopped,
                Some(Err(e)) => r is None && final(self).last_error == Some(e) && final(self).any_succeeded
                    == old(self).any_succeeded && final(self).stopped == old(self).stopped,
            },
    {
        match received {
            None => {
                self.last_error = Some(WorkshopQueryError::Abandoned);
                self.stopped = true;
                None
            },
            Some(Ok(x)) => {
                self.any_succeeded = true;
                Some(x)
            },
            Some(Err(e)) => {
                self.last_error = Some(e);
                None
            },
        }
    }

    /// The outcome: success when any chunk succeeded, else the last error
    /// (a failed query when there was none).
    pub fn finish(self) -> (r: Result<(), WorkshopQueryError>)
        ensures
            self.any_succeeded ==> r is Ok,
            !self.any_succeeded ==> r == Err::<(), WorkshopQueryError>(
                match self.last_error {
                    Some(e) => e,
                    None => WorkshopQueryError::QueryCreateFailed,
                },
            ),
    {
        if self.any_succeeded {
            Ok(())
        } else {
            match self.last_error {
                Some(e) => Err(e),
                None => Err(WorkshopQueryError::QueryCreateFailed),
            }
        }
    }
}

} // verus!
