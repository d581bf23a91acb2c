use std::cmp::Ordering;

use gmpublished_backend::search::{
    fuzzy_score_terms, FileSearchAddon, Search, SearchItem, SearchItemSource, SearchScope, Searchable,
    FULL_SEARCH_MAX_HITS, MAX_QUICK_RESULTS,
};

#[derive(Clone)]
struct SearchFixture {
    id: u64,
    label: String,
    terms: Vec<String>,
    timestamp: u64,
}

impl Searchable for SearchFixture {
    fn search_item(&self) -> Option<SearchItem> {
        Some(SearchItem::new(
            SearchItemSource::MyWorkshop(self.id),
            self.label.clone(),
            self.terms.clone(),
            self.timestamp,
        ))
    }
}

fn search_fixture<const N: usize>(id: u64, label: &str, terms: [&str; N], timestamp: u64) -> SearchFixture {
    SearchFixture {
        id,
        label: label.to_owned(),
        terms: terms.iter().map(|t| (*t).to_owned()).collect(),
        timestamp,
    }
}

/// An installed addon as the GMA reader indexes it: its tags, type and
/// Workshop id as terms.
struct InstalledFixture {
    path: String,
    title: String,
    id: Option<u64>,
    modified: u64,
}

impl Searchable for InstalledFixture {
    fn search_item(&self) -> Option<SearchItem> {
        let mut terms = vec!["build".to_owned(), "fun".to_owned(), "servercontent".to_owned()];
        if let Some(id) = self.id {
            terms.push(id.to_string());
        }
        Some(SearchItem::new_installed_addon(
            self.path.clone(),
            self.id,
            self.title.clone(),
            terms,
            self.modified,
        ))
    }
}

fn labels(search: &Search) -> Vec<String> {
    search.items().iter().map(|item| item.label()).collect()
}

#[test]
fn search_item_new_sorts_terms_and_tracks_max_length() {
    let item = SearchItem::new(
        SearchItemSource::MyWorkshop(99),
        "Medium".to_string(),
        vec!["longest-term".to_string(), "x".to_string(), "mid".to_string()],
        7_u64,
    );

    assert_eq!(
        item.terms(),
        &["x".to_string(), "mid".to_string(), "longest-term".to_string()]
    );
    assert_eq!(item.len, "longest-term".len());
    assert_eq!(item.timestamp, 7);
}

#[test]
fn search_add_bulk_indexes_installed_addons_and_deduplicates_workshop_ids() {
    let first = InstalledFixture {
        path: "/tmp/search/first.gma".to_owned(),
        title: "First".to_owned(),
        id: Some(77),
        modified: 1,
    };
    let second = InstalledFixture {
        path: "/tmp/search/second.gma".to_owned(),
        title: "Second".to_owned(),
        id: Some(77),
        modified: 2,
    };
    let local_only = InstalledFixture {
        path: "/tmp/search/local.gma".to_owned(),
        title: "Local".to_owned(),
        id: None,
        modified: 3,
    };
    let mut search = Search::new();

    search.add_bulk(&[first, second, local_only]);
    search.dirty();

    assert_eq!(search.items().len(), 3);
    assert_eq!(search.installed_addons().len(), 1);
    assert!(search.installed_addons().contains_key(&77));
    assert_eq!(search.installed_addons()[&77].label(), "Second");
}

#[test]
fn sync_installed_addons_replaces_installed_subset_only() {
    let mut search = Search::new();
    search.add(&search_fixture(11, "Workshop Survivor", ["survivor"], 1));
    search.sync_installed_addons(vec![SearchItem::new_installed_addon(
        "/tmp/old.gma".to_owned(),
        Some(22),
        "Old Addon".to_owned(),
        vec!["oldterm".to_owned()],
        2_u64,
    )]);
    search.dirty();

    search.sync_installed_addons(vec![SearchItem::new_installed_addon(
        "/tmp/new.gma".to_owned(),
        Some(33),
        "New Addon".to_owned(),
        vec!["newterm".to_owned()],
        3_u64,
    )]);
    search.dirty();

    let labels = labels(&search);
    assert!(labels.contains(&"Workshop Survivor".to_owned()));
    assert!(labels.contains(&"New Addon".to_owned()));
    assert!(!labels.contains(&"Old Addon".to_owned()));
}

#[test]
fn sync_installed_addons_added_addon_is_findable_immediately() {
    let mut search = Search::new();

    search.sync_installed_addons(vec![SearchItem::new_installed_addon(
        "/tmp/live.gma".to_owned(),
        Some(44),
        "Live Refresh Addon".to_owned(),
        vec!["needle-live".to_owned()],
        4_u64,
    )]);
    let result = search.quick_search("needle-live".to_owned());

    assert_eq!(result.hits.len(), 1);
    assert_eq!(result.hits[0].item.label(), "Live Refresh Addon");
}

#[test]
fn sync_installed_addons_removed_addon_stops_matching() {
    let mut search = Search::new();
    search.sync_installed_addons(vec![SearchItem::new_installed_addon(
        "/tmp/removed.gma".to_owned(),
        Some(55),
        "Removed Addon".to_owned(),
        vec!["gone-needle".to_owned()],
        5_u64,
    )]);
    assert_eq!(search.quick_search("gone-needle".to_owned()).hits.len(), 1);

    search.sync_installed_addons(Vec::new());
    let result = search.quick_search("gone-needle".to_owned());

    assert!(result.hits.is_empty());
}

#[test]
fn sync_installed_addon_files_searches_file_scope_only() {
    let mut search = Search::new();
    search.sync_installed_addons(vec![SearchItem::new_installed_addon(
        "/tmp/riverden.gma".to_owned(),
        Some(66),
        "Riverden Addon".to_owned(),
        vec!["roleplay".to_owned()],
        6_u64,
    )]);
    let riverden = FileSearchAddon::new("/tmp/riverden.gma".to_owned(), "Riverden Addon".to_owned(), Some(66));
    search.sync_installed_addon_files(vec![
        SearchItem::new_installed_addon_file(
            riverden.clone(),
            "maps/rp_riverden_v1a.bsp".to_owned(),
            123,
            456,
            6_u64,
        ),
        SearchItem::new_installed_addon_file(riverden, "maps/gm_flatgrass.bsp".to_owned(), 123, 789, 6_u64),
    ]);

    assert!(search.quick_search("rp_riverden".to_owned()).hits.is_empty());
    let result = search.quick_search_with_scope("rp_riverden".to_owned(), SearchScope::Files);

    assert_eq!(result.hits.len(), 1);
    match &result.hits[0].item.source {
        SearchItemSource::InstalledAddonFile { entry_path, addon, .. } => {
            assert_eq!(entry_path, "maps/rp_riverden_v1a.bsp");
            assert_eq!(addon.title, "Riverden Addon");
        }
        source => panic!("expected file source, got {source:?}"),
    }
    assert_eq!(
        search
            .quick_search_with_scope("bsp".to_owned(), SearchScope::Files)
            .hits
            .len(),
        2
    );
}

#[test]
fn dirty_sorts_once_then_singular_adds_replace_by_identity() {
    let mut search = Search::new();
    search.add_bulk(&[
        search_fixture(1, "Alpha", ["tool"], 100),
        search_fixture(2, "Beta", ["tool"], 200),
    ]);

    // The first query sorts; the flag must clear so later queries skip it.
    search.dirty();
    assert!(!search.is_dirty());

    // Same source, new timestamp: the old entry is replaced, not
    // duplicated (Ord-positional replacement would miss it because the
    // timestamp moved).
    search.add(&search_fixture(1, "Alpha Updated", ["tool"], 300));
    let items = search.items();
    assert_eq!(items.len(), 2);
    assert!(items.iter().any(|item| item.label() == "Alpha Updated"));
    assert!(items.iter().all(|item| item.label() != "Alpha"));
    // Newest-first index order held through the sorted insert.
    assert!(items
        .windows(2)
        .all(|pair| pair[0].rank_ordering(&pair[1]) != Ordering::Greater));
}

#[test]
fn search_quick_matches_terms_when_label_does_not_match() {
    let mut search = Search::new();
    search.add_bulk(&[search_fixture(501, "Completely Different", ["needle"], 1)]);
    search.dirty();

    let result = search.quick_scored("needle", SearchScope::Addons);

    assert_eq!(result.hits.len(), 1);
    assert_eq!(result.hits[0].item.label(), "Completely Different");
    assert!(!result.has_more);
}

#[test]
fn search_quick_multi_word_query_requires_all_atoms() {
    let mut search = Search::new();
    search.add_bulk(&[
        search_fixture(510, "Wire Model Pack", [], 1),
        search_fixture(511, "Wire Extras", [], 2),
        search_fixture(512, "Model Dump", [], 3),
    ]);
    search.dirty();

    let result = search.quick_scored("wire model", SearchScope::Addons);

    assert_eq!(result.hits.len(), 1);
    assert_eq!(result.hits[0].item.label(), "Wire Model Pack");
}

#[test]
fn search_quick_caps_results_reports_has_more_and_orders_by_score() {
    let fixtures = (0..12)
        .map(|index| SearchFixture {
            id: 600 + index,
            label: format!("Needle Result {index:02}"),
            terms: Vec::new(),
            timestamp: index,
        })
        .collect::<Vec<_>>();
    let mut search = Search::new();
    search.add_bulk(&fixtures);
    search.dirty();

    let result = search.quick_scored("needle", SearchScope::Addons);

    assert_eq!(result.hits.len(), usize::from(MAX_QUICK_RESULTS));
    assert!(result.has_more);
    assert!(result
        .hits
        .windows(2)
        .all(|window| window[0].score >= window[1].score));
}

#[test]
fn eq_matches_ord_across_a_matrix_of_key_components() {
    let sources = [
        SearchItemSource::MyWorkshop(1),
        SearchItemSource::MyWorkshop(2),
        SearchItemSource::WorkshopItem(1),
    ];
    let timestamps = [10_u64, 20_u64];
    let labels = ["abc", "abcde"];

    let mut items = Vec::new();
    for source in &sources {
        for timestamp in timestamps {
            for label in labels {
                let source = match source {
                    SearchItemSource::MyWorkshop(id) => SearchItemSource::MyWorkshop(*id),
                    SearchItemSource::WorkshopItem(id) => SearchItemSource::WorkshopItem(*id),
                    _ => unreachable!(),
                };
                items.push(SearchItem::new(source, (*label).to_owned(), Vec::new(), timestamp));
            }
        }
    }

    for a in &items {
        for b in &items {
            assert_eq!(
                a == b,
                a.rank_ordering(b) == Ordering::Equal,
                "eq/cmp disagreement: {a:?} vs {b:?}"
            );
        }
    }
}

#[test]
fn refresh_installed_addon_labels_replaces_stale_label_everywhere() {
    let mut search = Search::new();
    search.add(&InstalledFixture {
        path: "/tmp/refresh.gma".to_owned(),
        title: "Old Title".to_owned(),
        id: Some(77),
        modified: 1,
    });

    search.refresh_installed_addon_labels(&[(77, "New Title".to_owned())]);

    let installed = search
        .installed_addons()
        .get(&77)
        .cloned()
        .expect("installed addon entry");
    assert_eq!(installed.label(), "New Title");
    assert!(installed.terms().contains(&"Old Title".to_owned()));

    // The replacement lands in the item list too, not just the by-id table.
    assert_eq!(labels(&search), vec!["New Title".to_owned()]);

    // The stale label stays searchable as a term; the fresh label is
    // searchable as the new label itself.
    assert_eq!(search.quick_search("New Title".to_owned()).hits.len(), 1);
    assert_eq!(search.quick_search("Old Title".to_owned()).hits.len(), 1);
}

#[test]
fn refresh_with_an_unchanged_title_keeps_the_item() {
    let mut search = Search::new();
    search.add(&InstalledFixture {
        path: "/tmp/same.gma".to_owned(),
        title: "Same Title".to_owned(),
        id: Some(5),
        modified: 1,
    });
    search.refresh_installed_addon_labels(&[(5, "Same Title".to_owned()), (6, "Unknown".to_owned())]);
    let installed = search.installed_addons().get(&5).cloned().expect("entry");
    assert!(!installed.terms().contains(&"Same Title".to_owned()));
    assert_eq!(labels(&search), vec!["Same Title".to_owned()]);
}

#[test]
fn file_items_take_their_label_from_the_entry_path() {
    let addon = FileSearchAddon::new("/tmp/a.gma".to_owned(), "An Addon".to_owned(), Some(1234));
    assert_eq!(addon.id_str.as_deref(), Some("1234"));
    let item = SearchItem::new_installed_addon_file(addon.clone(), "materials/models/x.vmt".to_owned(), 1, 2, 3);
    assert_eq!(item.label(), "x.vmt");
    assert!(item.terms().is_empty());
    assert_eq!(item.len, "materials/models/x.vmt".len());
    let bare = SearchItem::new_installed_addon_file(addon, "readme".to_owned(), 1, 2, 3);
    assert_eq!(bare.label(), "readme");
    assert_eq!(bare.len, "An Addon".len());
}

#[test]
fn index_order_is_newest_first_then_longest_then_by_source() {
    let older = SearchItem::new(SearchItemSource::MyWorkshop(1), "a".to_owned(), Vec::new(), 1);
    let newer = SearchItem::new(SearchItemSource::MyWorkshop(1), "a".to_owned(), Vec::new(), 2);
    assert_eq!(newer.rank_ordering(&older), Ordering::Less);
    let longer = SearchItem::new(SearchItemSource::MyWorkshop(1), "abc".to_owned(), Vec::new(), 1);
    assert_eq!(longer.rank_ordering(&older), Ordering::Less);
    let addon = SearchItem::new(SearchItemSource::InstalledAddons("/x/a".to_owned(), None), "a".to_owned(), Vec::new(), 1);
    let workshop = SearchItem::new(SearchItemSource::WorkshopItem(0), "a".to_owned(), Vec::new(), 1);
    assert_eq!(addon.rank_ordering(&older), Ordering::Less);
    assert_eq!(workshop.rank_ordering(&older), Ordering::Greater);
    // Paths compare component by component: "/a/b" sorts before "/a-c".
    let nested = SearchItem::new(SearchItemSource::InstalledAddons("/a/b".to_owned(), None), "a".to_owned(), Vec::new(), 1);
    let dashed = SearchItem::new(SearchItemSource::InstalledAddons("/a-c".to_owned(), None), "a".to_owned(), Vec::new(), 1);
    assert_eq!(nested.rank_ordering(&dashed), Ordering::Less);
    // An installed addon's identity is its path: a second id does not
    // make it a different source.
    let with_id = SearchItem::new(SearchItemSource::InstalledAddons("/a/b".to_owned(), Some(9)), "a".to_owned(), Vec::new(), 1);
    assert!(nested == with_id);
}

#[test]
fn dirty_keeps_the_first_of_equal_items() {
    let mut search = Search::new();
    search.add_search_items(vec![
        SearchItem::new(SearchItemSource::MyWorkshop(3), "first".to_owned(), Vec::new(), 5),
        SearchItem::new(SearchItemSource::MyWorkshop(3), "later".to_owned(), Vec::new(), 5),
        SearchItem::new(SearchItemSource::MyWorkshop(4), "other".to_owned(), Vec::new(), 9),
    ]);
    assert!(search.is_dirty());
    search.dirty();
    assert_eq!(labels(&search), vec!["other".to_owned(), "first".to_owned()]);
}

#[test]
fn a_dirty_index_appends_without_replacing() {
    let mut search = Search::new();
    search.add_bulk(&[search_fixture(1, "One", [], 1)]);
    search.add(&search_fixture(1, "One Again", [], 2));
    assert_eq!(search.items().len(), 2);
    search.clear();
    assert!(search.items().is_empty());
    assert!(search.installed_addons().is_empty());
    assert!(!search.is_dirty());
}

#[test]
fn quick_returns_items_and_the_more_flag() {
    let mut search = Search::new();
    search.add_bulk(&[search_fixture(1, "Needle", [], 1), search_fixture(2, "Haystack", [], 2)]);
    let (items, more) = search.quick("needle".to_owned());
    assert_eq!(items.len(), 1);
    assert_eq!(items[0].label(), "Needle");
    assert!(!more);
    // A query longer than every haystack matches nothing.
    let (items, _) = search.quick("needle needle needle".to_owned());
    assert!(items.is_empty());
}

#[test]
fn full_scored_returns_every_scoring_item_best_first() {
    let mut search = Search::new();
    search.add_bulk(&[
        search_fixture(701, "Needle One", ["servercontent"], 1),
        search_fixture(702, "Other", ["needle"], 2),
        search_fixture(703, "Unrelated", ["sandbox"], 3),
    ]);
    search.dirty();

    let hits = search.full_scored("needle", SearchScope::Addons);

    assert_eq!(hits.len(), 2);
    assert!(hits.windows(2).all(|w| w[0].score >= w[1].score));
    assert!(search.full_scored("needle", SearchScope::Files).is_empty());
    assert!(FULL_SEARCH_MAX_HITS >= hits.len());
}

#[test]
fn fuzzy_score_terms_trims_and_takes_the_best_term() {
    assert_eq!(fuzzy_score_terms("   ", &["anything"]), Some(0));
    assert_eq!(fuzzy_score_terms("zzz", &["abc", "def"]), None);
    let best = fuzzy_score_terms(" wire ", &["wire", "wiremod extras"]).expect("a match");
    let exact = fuzzy_score_terms("wire", &["wire"]).expect("a match");
    assert_eq!(best, exact);
    assert!(best > 0);
}


#[test]
fn queries_past_the_scoring_limit_match_nothing() {
    let at_limit = "a".repeat(2048);
    let past_limit = "a".repeat(2049);
    assert!(fuzzy_score_terms(&at_limit, &[at_limit.as_str()]).is_some());
    assert_eq!(fuzzy_score_terms(&past_limit, &[past_limit.as_str()]), None);
    assert_eq!(fuzzy_score_terms(&format!("  {past_limit}  "), &["a"]), None);
}
