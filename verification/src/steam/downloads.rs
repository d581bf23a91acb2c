//! Workshop download planning: expanding collections into the items to
//! queue, moving pending batches, and checking a download request against
//! size limits before anything is fetched.
use vstd::prelude::*;

use std::collections::HashSet;
use std::time::Duration;

verus! {

broadcast use vstd::std_specs::hash::group_hash_axioms;

/// What a Workshop details query said of one requested id.
#[derive(Clone, Debug, PartialEq, Eq)]
pub enum WorkshopDownloadQueryItem {
    Item(u64),
    Collection { children: Vec<u64> },
}

/// What to do after a details query.
#[derive(Clone, Debug, PartialEq, Eq)]
pub enum WorkshopDownloadAction {
    FetchWorkshopItems(Vec<u64>),
    QueueDownload(u64),
    MissingItem(u64),
}

/// Ids still to query for being collections, and every id seen so far.
pub struct PossibleCollectionsState {
    pub queue: Vec<u64>,
    pub downloaded: HashSet<u64>,
}

/// The mathematical content of an action.
pub enum ActionV {
    Fetch(Seq<u64>),
    Queue(u64),
    Missing(u64),
}

pub open spec fn action_view(a: WorkshopDownloadAction) -> ActionV {
    match a {
        WorkshopDownloadAction::FetchWorkshopItems(v) => ActionV::Fetch(v@),
        WorkshopDownloadAction::QueueDownload(x) => ActionV::Queue(x),
        WorkshopDownloadAction::MissingItem(x) => ActionV::Missing(x),
    }
}

pub open spec fn actions_view(v: Seq<WorkshopDownloadAction>) -> Seq<ActionV> {
    Seq::new(v.len(), |i: int| action_view(v[i]))
}

/// The mathematical content of a query result.
pub open spec fn item_view(i: Option<WorkshopDownloadQueryItem>) -> Option<Result<u64, Seq<u64>>> {
    match i {
        Some(WorkshopDownloadQueryItem::Item(x)) => Some(Ok(x)),
        Some(WorkshopDownloadQueryItem::Collection { children }) => Some(Err(children@)),
        None => None,
    }
}

pub open spec fn items_view(v: Seq<Option<WorkshopDownloadQueryItem>>) -> Seq<Option<Result<u64, Seq<u64>>>> {
    Seq::new(v.len(), |i: int| item_view(v[i]))
}

/// Query-result processing state: actions so far, the non-collection
/// items, the queue and the seen set.
pub struct ApplyState {
    pub actions: Seq<ActionV>,
    pub items: Seq<u64>,
    pub queue: Seq<u64>,
    pub seen: Set<u64>,
}

/// Children of a collection not seen before join the queue, once each.
pub open spec fn spec_enqueue(queue: Seq<u64>, seen: Set<u64>, children: Seq<u64>) -> (Seq<u64>, Set<u64>)
    decreases children.len(),
{
    if children.len() == 0 {
        (queue, seen)
    } else {
        let (q, s) = spec_enqueue(queue, seen, children.drop_last());
        let c = children.last();
        if s.contains(c) {
            (q, s)
        } else {
            (q.push(c), s.insert(c))
        }
    }
}

/// One query result applied: a collection fetches its children and
/// queues the unseen ones; an item is queued for download; a missing
/// result reports the requested id at that position.
pub open spec fn spec_apply_one(st: ApplyState, query: Seq<u64>, i: int, r: Option<Result<u64, Seq<u64>>>) -> ApplyState {
    match r {
        Some(Err(children)) => {
            let (q, s) = spec_enqueue(st.queue, st.seen, children);
            ApplyState { actions: st.actions.push(ActionV::Fetch(children)), queue: q, seen: s, ..st }
        },
        Some(Ok(x)) => ApplyState { actions: st.actions.push(ActionV::Queue(x)), items: st.items.push(x), ..st },
        None => if 0 <= i < query.len() {
            ApplyState { actions: st.actions.push(ActionV::Missing(query[i])), ..st }
        } else {
            st
        },
    }
}

pub open spec fn spec_apply(st: ApplyState, query: Seq<u64>, results: Seq<Option<Result<u64, Seq<u64>>>>) -> ApplyState
    decreases results.len(),
{
    if results.len() == 0 {
        st
    } else {
        spec_apply_one(spec_apply(st, query, results.drop_last()), query, results.len() - 1, results.last())
    }
}

/// The actions of a whole query: per result, then one fetch of all the
/// plain items when there are any.
pub open spec fn spec_final_actions(st: ApplyState) -> Seq<ActionV> {
    if st.items.len() > 0 {
        st.actions.push(ActionV::Fetch(st.items))
    } else {
        st.actions
    }
}

/// Each id once, in order of first occurrence.
pub open spec fn spec_dedup(ids: Seq<u64>) -> Seq<u64>
    decreases ids.len(),
{
    if ids.len() == 0 {
        Seq::empty()
    } else {
        let rest = spec_dedup(ids.drop_last());
        if ids.drop_last().contains(ids.last()) {
            rest
        } else {
            rest.push(ids.last())
        }
    }
}

impl PossibleCollectionsState {
    /// The state that queries `queue`, with its ids seen.
    pub fn new(queue: Vec<u64>) -> (r: Self)
        ensures
            r.queue@ == queue@,
            r.downloaded@ == queue@.to_set(),
    {
        let mut downloaded: HashSet<u64> = HashSet::new();
        let mut i: usize = 0;
        while i < queue.len()
            invariant
                i <= queue.len(),
                downloaded@ == queue@.take(i as int).to_set(),
            decreases queue.len() - i,
        {
            proof {
                lemma_take_push_set(queue@, i as int);
            }
            downloaded.insert(queue[i]);
            i = i + 1;
        }
        assert(queue@.take(i as int) =~= queue@);
        PossibleCollectionsState { queue, downloaded }
    }

    /// Splits `ids` by the workshop cache: cached ids stay in `ids`, the
    /// rest become the possible collections to query. Without a cache every
    /// id is a possible collection and `ids` is emptied.
    pub fn split_initial(ids: &mut Vec<u64>, workshop_cache: Option<&HashSet<u64>>) -> (r: Self)
        ensures
            workshop_cache is None ==> final(ids)@.len() == 0 && r.queue@ == old(ids)@,
            workshop_cache matches Some(c) ==> final(ids)@ == old(ids)@.filter(|id: u64| c@.contains(id))
                && r.queue@ == old(ids)@.filter(|id: u64| !c@.contains(id)),
            r.downloaded@ == r.queue@.to_set(),
    {
        match workshop_cache {
            None => {
                let mut taken: Vec<u64> = Vec::new();
                std::mem::swap(&mut taken, ids);
                PossibleCollectionsState::new(taken)
            },
            Some(cache) => {
                let ghost orig = ids@;
                let mut kept: Vec<u64> = Vec::new();
                let mut possible: Vec<u64> = Vec::new();
                let mut i: usize = 0;
                assert(orig.take(0) =~= Seq::<u64>::empty());
                while i < ids.len()
                    invariant
                        i <= ids.len(),
                        ids@ == orig,
                        kept@ == orig.take(i as int).filter(|id: u64| cache@.contains(id)),
                        possible@ == orig.take(i as int).filter(|id: u64| !cache@.contains(id)),
                    decreases ids.len() - i,
                {
                    let id = ids[i];
                    proof {
                        assert(orig.take(i + 1).drop_last() =~= orig.take(i as int));
                        reveal(Seq::filter);
                    }
                    if cache.contains(&id) {
                        kept.push(id);
                    } else {
                        possible.push(id);
                    }
                    i = i + 1;
                }
                assert(orig.take(i as int) =~= orig);
                *ids = kept;
                PossibleCollectionsState::new(possible)
            },
        }
    }

    /// The queued ids to query next (taking them), when connected and there
    /// are any.
    pub fn next_query(&mut self, connected: bool) -> (r: Option<Vec<u64>>)
        ensures
            (old(self).queue@.len() == 0 || !connected) ==> r is None && final(self).queue@ == old(self).queue@,
            (old(self).queue@.len() > 0 && connected) ==> (r matches Some(q) && q@ == old(self).queue@
                && final(self).queue@.len() == 0),
            final(self).downloaded@ == old(self).downloaded@,
    {
        if self.queue.len() == 0 || !connected {
            None
        } else {
            let mut taken: Vec<u64> = Vec::new();
            std::mem::swap(&mut taken, &mut self.queue);
            Some(taken)
        }
    }

    /// Applies one query's results (see `spec_apply`, `spec_final_actions`).
    pub fn apply_query_results(&mut self, query: &[u64], results: Vec<Option<WorkshopDownloadQueryItem>>) -> (r: Vec<
        WorkshopDownloadAction,
    >)
        ensures
            ({
                let end = spec_apply(
                    ApplyState {
                        actions: Seq::empty(),
                        items: Seq::empty(),
                        queue: old(self).queue@,
                        seen: old(self).downloaded@,
                    },
                    query@,
                    items_view(results@),
                );
                &&& actions_view(r@) == spec_final_actions(end)
                &&& final(self).queue@ == end.queue
                &&& final(self).downloaded@ == end.seen
            }),
    {
        let ghost rs = items_view(results@);
        let ghost st0 = ApplyState {
            actions: Seq::empty(),
            items: Seq::empty(),
            queue: self.queue@,
            seen: self.downloaded@,
        };
        let mut actions: Vec<WorkshopDownloadAction> = Vec::new();
        let mut items: Vec<u64> = Vec::new();
        let mut i: usize = 0;
        assert(rs.take(0) =~= Seq::<Option<Result<u64, Seq<u64>>>>::empty());
        assert(actions_view(actions@) =~= Seq::<ActionV>::empty());
        while i < results.len()
            invariant
                i <= results.len(),
                rs == items_view(results@),
                ({
                    let st = spec_apply(st0, query@, rs.take(i as int));
                    &&& actions_view(actions@) == st.actions
                    &&& items@ == st.items
                    &&& self.queue@ == st.queue
                    &&& self.downloaded@ == st.seen
                }),
            decreases results.len() - i,
        {
            proof {
                assert(rs.take(i + 1).drop_last() =~= rs.take(i as int));
                assert(rs.take(i + 1).last() == item_view(results@[i as int]));
            }
            let ghost before = actions_view(actions@);
            match &results[i] {
                Some(WorkshopDownloadQueryItem::Collection { children }) => {
                    actions.push(WorkshopDownloadAction::FetchWorkshopItems(copy_ids(children)));
                    assert(actions_view(actions@) =~= before.push(ActionV::Fetch(children@)));
                    let mut k: usize = 0;
                    let ghost q0 = self.queue@;
                    let ghost s0 = self.downloaded@;
                    assert(children@.take(0) =~= Seq::<u64>::empty());
                    while k < children.len()
                        invariant
                            k <= children.len(),
                            (self.queue@, self.downloaded@) == spec_enqueue(q0, s0, children@.take(k as int)),
                        decreases children.len() - k,
                    {
                        assert(children@.take(k + 1).drop_last() =~= children@.take(k as int));
                        let item = children[k];
                        if self.downloaded.insert(item) {
                            self.queue.push(item);
                        }
                        k = k + 1;
                    }
                    assert(children@.take(k as int) =~= children@);
                },
                Some(WorkshopDownloadQueryItem::Item(item)) => {
                    items.push(*item);
                    actions.push(WorkshopDownloadAction::QueueDownload(*item));
                    assert(actions_view(actions@) =~= before.push(ActionV::Queue(*item)));
                },
                None => {
                    if i < query.len() {
                        actions.push(WorkshopDownloadAction::MissingItem(query[i]));
                        assert(actions_view(actions@) =~= before.push(ActionV::Missing(query@[i as int])));
                    }
                },
            }
            i = i + 1;
        }
        assert(rs.take(i as int) =~= rs);
        if items.len() > 0 {
            let ghost before = actions_view(actions@);
            actions.push(WorkshopDownloadAction::FetchWorkshopItems(items));
            assert(actions_view(actions@) =~= before.push(ActionV::Fetch(items@)));
        }
        actions
    }
}

/// Seen ids grow by one element per step.
proof fn lemma_take_push_set(s: Seq<u64>, i: int)
    requires
        0 <= i < s.len(),
    ensures
        s.take(i + 1).to_set() == s.take(i).to_set().insert(s[i]),
{
    let p = s.take(i);
    assert(s.take(i + 1) =~= p.push(s[i]));
    assert forall|x: u64| p.push(s[i]).to_set().contains(x) <==> p.to_set().insert(s[i]).contains(x) by {
        if p.push(s[i]).contains(x) {
            let j = choose|j: int| 0 <= j < p.push(s[i]).len() && p.push(s[i])[j] == x;
            if j < p.len() {
                assert(p[j] == x);
            }
        }
        if p.contains(x) {
            let j = choose|j: int| 0 <= j < p.len() && p[j] == x;
            assert(p.push(s[i])[j] == x);
        }
        if x == s[i] {
            assert(p.push(s[i])[p.len() as int] == x);
        }
    }
    assert(p.push(s[i]).to_set() =~= p.to_set().insert(s[i]));
}

fn copy_ids(v: &Vec<u64>) -> (r: Vec<u64>)
    ensures
        r@ == v@,
{
    let mut r: Vec<u64> = Vec::new();
    let mut i: usize = 0;
    while i < v.len()
        invariant
            i <= v.len(),
            r@ =~= v@.take(i as int),
        decreases v.len() - i,
    {
        r.push(v[i]);
        i = i + 1;
        assert(r@ =~= v@.take(i as int));
    }
    assert(v@.take(i as int) =~= v@);
    r
}

/// Moves every pending entry to the end of `downloading`, returning how
/// many moved.
pub fn append_pending_batch<T>(downloading: &mut Vec<T>, pending: &mut Vec<T>) -> (r: usize)
    ensures
        r == old(pending)@.len(),
        final(downloading)@ == old(downloading)@ + old(pending)@,
        final(pending)@.len() == 0,
{
    let batch_len = pending.len();
    downloading.append(pending);
    batch_len
}

/// Size limits a download request is checked against.
#[derive(Clone, Copy, Debug, PartialEq, Eq)]
pub struct WorkshopDownloadPreflightLimits {
    pub max_item_bytes: u64,
    pub max_total_bytes: u64,
    pub query_timeout: Duration,
}

/// A Workshop item's file type, as far as preflight cares.
#[derive(Clone, Copy, Debug, PartialEq, Eq)]
pub enum WorkshopFileType {
    Collection,
    Other,
}

/// Steam's `EItemState` installed bit.
pub const ITEM_STATE_INSTALLED: u32 = 4;
/// Steam's `EItemState` needs-update bit.
pub const ITEM_STATE_NEEDS_UPDATE: u32 = 8;

#[derive(Clone, Debug, PartialEq, Eq)]
pub struct WorkshopDownloadPreflightItem {
    pub id: u64,
    pub file_type: WorkshopFileType,
    pub file_size: u64,
    /// `EItemState` bits.
    pub state: u32,
    pub has_install_info: bool,
}

impl WorkshopDownloadPreflightItem {
    pub fn installed(&self) -> (r: bool)
        ensures
            r == (self.state & ITEM_STATE_INSTALLED != 0),
    {
        self.state & ITEM_STATE_INSTALLED != 0
    }

    pub fn needs_update(&self) -> (r: bool)
        ensures
            r == (self.state & ITEM_STATE_NEEDS_UPDATE != 0),
    {
        self.state & ITEM_STATE_NEEDS_UPDATE != 0
    }

    /// Steam will download the item: it is not installed, or it needs an
    /// update.
    pub fn queues_steam_download(&self) -> (r: bool)
        ensures
            r == (self.state & ITEM_STATE_INSTALLED == 0 || self.state & ITEM_STATE_NEEDS_UPDATE != 0),
    {
        !self.installed() || self.needs_update()
    }
}

/// An accepted download request.
#[derive(Clone, Debug, PartialEq, Eq)]
pub struct WorkshopDownloadPreflight {
    pub items: Vec<WorkshopDownloadPreflightItem>,
    pub total_file_size: u64,
    pub limits: WorkshopDownloadPreflightLimits,
}

/// Why a download request was refused.
#[derive(Debug, PartialEq, Eq)]
pub enum WorkshopDownloadPreflightError {
    EmptyIds,
    SteamNotConnected,
    QueryCreateFailed,
    QueryFailed(String),
    QueryTimedOut { timeout: Duration },
    MissingItem(u64),
    QueryItemMismatch { expected: u64, actual: u64 },
    CollectionItem(u64),
    UnknownFileSize(u64),
    ItemTooLarge { id: u64, file_size: u64, max_item_bytes: u64 },
    TotalTooLarge { total_file_size: u64, max_total_bytes: u64 },
    AlreadyInstalled { id: u64, state: u32 },
}

/// The first refusal among the first `n` items, checked in order
/// (collection, already installed, unknown size, too large), if any.
pub open spec fn spec_item_refusal(item: WorkshopDownloadPreflightItem, max_item_bytes: u64) -> Option<
    WorkshopDownloadPreflightError,
> {
    if item.file_type is Collection {
        Some(WorkshopDownloadPreflightError::CollectionItem(item.id))
    } else if !(item.state & ITEM_STATE_INSTALLED == 0 || item.state & ITEM_STATE_NEEDS_UPDATE != 0) {
        Some(WorkshopDownloadPreflightError::AlreadyInstalled { id: item.id, state: item.state })
    } else if item.file_size == 0 {
        Some(WorkshopDownloadPreflightError::UnknownFileSize(item.id))
    } else if item.file_size > max_item_bytes {
        Some(
            WorkshopDownloadPreflightError::ItemTooLarge {
                id: item.id,
                file_size: item.file_size,
                max_item_bytes,
            },
        )
    } else {
        None
    }
}

/// The sum of the items' sizes, saturating at `u64::MAX`.
pub open spec fn spec_total_size(items: Seq<WorkshopDownloadPreflightItem>) -> u64
    decreases items.len(),
{
    if items.len() == 0 {
        0
    } else {
        let t = spec_total_size(items.drop_last()) as int + items.last().file_size as int;
        if t > u64::MAX {
            u64::MAX
        } else {
            t as u64
        }
    }
}

/// The first item refused on its own, if any.
pub open spec fn spec_first_refusal(items: Seq<WorkshopDownloadPreflightItem>, max_item_bytes: u64) -> Option<
    WorkshopDownloadPreflightError,
>
    decreases items.len(),
{
    if items.len() == 0 {
        None
    } else {
        match spec_first_refusal(items.drop_last(), max_item_bytes) {
            Some(e) => Some(e),
            None => spec_item_refusal(items.last(), max_item_bytes),
        }
    }
}

/// Checks a download request: the first item that is a collection, is
/// already installed and current, has no known size, or is over the
/// per-item limit refuses the request; so does a total over the total
/// limit. Otherwise the request is accepted with its (saturating) total.
pub fn validate_workshop_download_preflight_items(
    items: Vec<WorkshopDownloadPreflightItem>,
    limits: WorkshopDownloadPreflightLimits,
) -> (r: Result<WorkshopDownloadPreflight, WorkshopDownloadPreflightError>)
    ensures
        match spec_first_refusal(items@, limits.max_item_bytes) {
            Some(e) => r == Err::<WorkshopDownloadPreflight, WorkshopDownloadPreflightError>(e),
            None => {
                let total = spec_total_size(items@);
                if total > limits.max_total_bytes {
                    r == Err::<WorkshopDownloadPreflight, WorkshopDownloadPreflightError>(
                        WorkshopDownloadPreflightError::TotalTooLarge {
                            total_file_size: total,
                            max_total_bytes: limits.max_total_bytes,
                        },
                    )
                } else {
                    r matches Ok(p) && p.items@ == items@ && p.total_file_size == total && p.limits == limits
                }
            },
        },
{
    let mut total: u64 = 0;
    let mut i: usize = 0;
    assert(items@.take(0) =~= Seq::<WorkshopDownloadPreflightItem>::empty());
    while i < items.len()
        invariant
            i <= items.len(),
            spec_first_refusal(items@.take(i as int), limits.max_item_bytes) is None,
            total == spec_total_size(items@.take(i as int)),
        decreases items.len() - i,
    {
        proof {
            assert(items@.take(i + 1).drop_last() =~= items@.take(i as int));
            assert(items@.take(i + 1).last() == items@[i as int]);
        }
        let item = &items[i];
        let refusal: Option<WorkshopDownloadPreflightError> = if let WorkshopFileType::Collection = item.file_type {
            Some(WorkshopDownloadPreflightError::CollectionItem(item.id))
        } else if !item.queues_steam_download() {
            Some(WorkshopDownloadPreflightError::AlreadyInstalled { id: item.id, state: item.state })
        } else if item.file_size == 0 {
            Some(WorkshopDownloadPreflightError::UnknownFileSize(item.id))
        } else if item.file_size > limits.max_item_bytes {
            Some(
                WorkshopDownloadPreflightError::ItemTooLarge {
                    id: item.id,
                    file_size: item.file_size,
                    max_item_bytes: limits.max_item_bytes,
                },
            )
        } else {
            None
        };
        if let Some(e) = refusal {
            proof {
                lemma_refusal_extends(items@, limits.max_item_bytes, i as int + 1);
            }
            return Err(e);
        }
        total = total.saturating_add(item.file_size);
        i = i + 1;
    }
    assert(items@.take(i as int) =~= items@);
    if total > limits.max_total_bytes {
        return Err(WorkshopDownloadPreflightError::TotalTooLarge { total_file_size: total, max_total_bytes: limits.max_total_bytes });
    }
    Ok(WorkshopDownloadPreflight { items, total_file_size: total, limits })
}

/// A refusal within a prefix is the refusal of the whole list.
proof fn lemma_refusal_extends(items: Seq<WorkshopDownloadPreflightItem>, max: u64, n: int)
    requires
        0 <= n <= items.len(),
        spec_first_refusal(items.take(n), max) is Some,
    ensures
        spec_first_refusal(items, max) == spec_first_refusal(items.take(n), max),
    decreases items.len() - n,
{
    if n < items.len() {
        assert(items.take(n + 1).drop_last() =~= items.take(n));
        lemma_refusal_extends(items, max, n + 1);
    } else {
        assert(items.take(n) =~= items);
    }
}


/// A request is refused before any query when it names no ids or Steam
/// is not connected.
pub fn preflight_start(id_count: usize, connected: bool) -> (r: Result<(), WorkshopDownloadPreflightError>)
    ensures
        id_count == 0 ==> r == Err::<(), WorkshopDownloadPreflightError>(WorkshopDownloadPreflightError::EmptyIds),
        id_count > 0 && !connected ==> r == Err::<(), WorkshopDownloadPreflightError>(
            WorkshopDownloadPreflightError::SteamNotConnected,
        ),
        id_count > 0 && connected ==> r is Ok,
{
    if id_count == 0 {
        return Err(WorkshopDownloadPreflightError::EmptyIds);
    }
    if !connected {
        return Err(WorkshopDownloadPreflightError::SteamNotConnected);
    }
    Ok(())
}

/// The first requested id that the query rows do not answer in place:
/// a missing row, or a row for another item.
pub open spec fn spec_row_problem(ids: Seq<u64>, rows: Seq<WorkshopDownloadPreflightItem>, n: int) -> Option<
    WorkshopDownloadPreflightError,
>
    decreases n,
{
    if n <= 0 {
        None
    } else {
        match spec_row_problem(ids, rows, n - 1) {
            Some(e) => Some(e),
            None => if n - 1 >= rows.len() {
                Some(WorkshopDownloadPreflightError::MissingItem(ids[n - 1]))
            } else if rows[n - 1].id != ids[n - 1] {
                Some(WorkshopDownloadPreflightError::QueryItemMismatch { expected: ids[n - 1], actual: rows[n - 1].id })
            } else {
                None
            },
        }
    }
}

/// Checks the rows of a details query against the requested ids, in order,
/// then the answered items against the limits.
pub fn preflight_from_query_rows(
    ids: &[u64],
    rows: Vec<WorkshopDownloadPreflightItem>,
    limits: WorkshopDownloadPreflightLimits,
) -> (r: Result<WorkshopDownloadPreflight, WorkshopDownloadPreflightError>)
    ensures
        match spec_row_problem(ids@, rows@, ids@.len() as int) {
            Some(e) => r == Err::<WorkshopDownloadPreflight, WorkshopDownloadPreflightError>(e),
            None => {
                let items = rows@.take(ids@.len() as int);
                match spec_first_refusal(items, limits.max_item_bytes) {
                    Some(e) => r == Err::<WorkshopDownloadPreflight, WorkshopDownloadPreflightError>(e),
                    None => {
                        let total = spec_total_size(items);
                        if total > limits.max_total_bytes {
                            r == Err::<WorkshopDownloadPreflight, WorkshopDownloadPreflightError>(
                                WorkshopDownloadPreflightError::TotalTooLarge {
                                    total_file_size: total,
                                    max_total_bytes: limits.max_total_bytes,
                                },
                            )
                        } else {
                            r matches Ok(p) && p.items@ == items && p.total_file_size == total && p.limits == limits
                        }
                    },
                }
            },
        },
{
    let mut items: Vec<WorkshopDownloadPreflightItem> = Vec::new();
    let mut i: usize = 0;
    while i < ids.len()
        invariant
            i <= ids.len(),
            spec_row_problem(ids@, rows@, i as int) is None,
            i <= rows@.len(),
            items@ == rows@.take(i as int),
        decreases ids.len() - i,
    {
        if i >= rows.len() {
            proof {
                lemma_row_problem_extends(ids@, rows@, i as int + 1, ids@.len() as int);
            }
            return Err(WorkshopDownloadPreflightError::MissingItem(ids[i]));
        }
        if rows[i].id != ids[i] {
            proof {
                lemma_row_problem_extends(ids@, rows@, i as int + 1, ids@.len() as int);
            }
            return Err(WorkshopDownloadPreflightError::QueryItemMismatch { expected: ids[i], actual: rows[i].id });
        }
        let row = &rows[i];
        items.push(WorkshopDownloadPreflightItem {
            id: row.id,
            file_type: row.file_type,
            file_size: row.file_size,
            state: row.state,
            has_install_info: row.has_install_info,
        });
        proof {
            assert(items@ =~= rows@.take(i + 1));
        }
        i = i + 1;
    }
    validate_workshop_download_preflight_items(items, limits)
}

/// A problem within the first `n` ids is the problem of any longer prefix.
proof fn lemma_row_problem_extends(ids: Seq<u64>, rows: Seq<WorkshopDownloadPreflightItem>, n: int, m: int)
    requires
        0 <= n <= m,
        spec_row_problem(ids, rows, n) is Some,
    ensures
        spec_row_problem(ids, rows, m) == spec_row_problem(ids, rows, n),
    decreases m - n,
{
    if n < m {
        lemma_row_problem_extends(ids, rows, n, m - 1);
    }
}


/// Where a preflighted item is downloaded.
#[derive(Clone, Copy, Debug, PartialEq, Eq)]
pub enum DownloadLane {
    /// The keyless Web API could not see it (private and friends-only
    /// items); the authenticated Steamworks path decides.
    Unresolved,
    /// A legacy item with a public CDN URL: downloaded over HTTPS.
    Http,
    /// Queued on the Steam client, which extracts an installed,
    /// up-to-date copy from disk.
    SteamClient,
}

/// Whether an item is installed, up to date and has install info, so its
/// copy on disk can be extracted.
pub open spec fn spec_extracts_installed(state: u32, has_install_info: bool) -> bool {
    state & ITEM_STATE_INSTALLED != 0 && state & ITEM_STATE_NEEDS_UPDATE == 0 && has_install_info
}

/// The lane of a preflighted item: unresolved when the Web API did not
/// find it; HTTPS when it has a CDN URL and no installed copy to extract;
/// the Steam client otherwise.
pub open spec fn spec_download_lane(found: bool, has_file_url: bool, state: u32, has_install_info: bool) -> DownloadLane {
    if !found {
        DownloadLane::Unresolved
    } else if has_file_url && !spec_extracts_installed(state, has_install_info) {
        DownloadLane::Http
    } else {
        DownloadLane::SteamClient
    }
}

pub fn download_lane(detail: &crate::steam::webapi::PublishedFileDetail, state: u32, has_install_info: bool) -> (r: DownloadLane)
    ensures
        r == spec_download_lane(detail.found, detail.file_url is Some, state, has_install_info),
{
    if !detail.found {
        return DownloadLane::Unresolved;
    }
    let extract_installed = state & ITEM_STATE_INSTALLED != 0 && state & ITEM_STATE_NEEDS_UPDATE == 0 && has_install_info;
    match &detail.file_url {
        Some(_) => if !extract_installed {
            DownloadLane::Http
        } else {
            DownloadLane::SteamClient
        },
        None => DownloadLane::SteamClient,
    }
}

/// The ids of the items the Web API found, in order: those whose Workshop
/// metadata is fetched.
pub fn found_detail_ids(details: &Vec<crate::steam::webapi::PublishedFileDetail>) -> (r: Vec<u64>)
    ensures
        r@ == spec_found_ids(details@),
{
    let mut r: Vec<u64> = Vec::new();
    let mut i: usize = 0;
    while i < details.len()
        invariant
            i <= details.len(),
            r@ == spec_found_ids(details@.take(i as int)),
        decreases details.len() - i,
    {
        proof {
            assert(details@.take(i + 1).drop_last() =~= details@.take(i as int));
            assert(details@.take(i + 1).last() == details@[i as int]);
        }
        if details[i].found {
            r.push(details[i].id);
        }
        i = i + 1;
    }
    assert(details@.take(details.len() as int) =~= details@);
    r
}

/// The ids of the found details, in order.
pub open spec fn spec_found_ids(d: Seq<crate::steam::webapi::PublishedFileDetail>) -> Seq<u64>
    decreases d.len(),
{
    if d.len() == 0 {
        Seq::empty()
    } else if d.last().found {
        spec_found_ids(d.drop_last()).push(d.last().id)
    } else {
        spec_found_ids(d.drop_last())
    }
}

} // verus!
