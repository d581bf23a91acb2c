use std::collections::HashSet;
use std::time::Duration;

use gmpublished_backend::steam::downloads::{
    append_pending_batch, preflight_from_query_rows, preflight_start,
    validate_workshop_download_preflight_items, PossibleCollectionsState,
    WorkshopDownloadAction, WorkshopDownloadPreflightError, WorkshopDownloadPreflightItem,
    WorkshopDownloadPreflightLimits, WorkshopDownloadQueryItem, WorkshopFileType,
    ITEM_STATE_INSTALLED, ITEM_STATE_NEEDS_UPDATE,
};
use gmpublished_backend::steam::publishing::{
    publish_tags, verify_whitelist_rows, ContentPath, ContentPathError, IconError, IconFormat, WhitelistError,
    WhitelistRow, WhitelistedFile, WorkshopIcon,
};
use gmpublished_backend::steam::workshop::{
    combine_workshop_chunk_results, filter_new_workshop_ids, format_steam_query_error,
    workshop_item_id_chunks, ChunkDrain, DescriptionLength, WorkshopQueryError, RESULTS_PER_PAGE,
};
use gmpublished_backend::steam::background::{next_retry_delay, RuntimeState, SteamBackgroundStart};
use gmpublished_backend::steam::downloads::{download_lane, found_detail_ids, DownloadLane};
use gmpublished_backend::steam::webapi::{
    align_details, id_batches, parse_collection_details, parse_published_file_details, CollectionResolution,
    CollectionRow, JsonValue, PublishedFileDetail, WebApiError, BATCH_SIZE, MAX_COLLECTION_DEPTH,
};

fn preflight_item(id: u64, file_type: WorkshopFileType, file_size: u64, state: u32) -> WorkshopDownloadPreflightItem {
    WorkshopDownloadPreflightItem {
        id,
        file_type,
        file_size,
        state,
        has_install_info: false,
    }
}

fn preflight_limits() -> WorkshopDownloadPreflightLimits {
    WorkshopDownloadPreflightLimits {
        max_item_bytes: 10_000,
        max_total_bytes: 20_000,
        query_timeout: Duration::from_secs(1),
    }
}

#[test]
fn detail_queries_request_full_descriptions() {
    assert!(DescriptionLength::Full.returns_full_description());
    assert!(!DescriptionLength::Summary.returns_full_description());
}

#[test]
fn empty_id_list_produces_no_query_chunks() {
    assert!(workshop_item_id_chunks(&[]).is_empty());
}

#[test]
fn workshop_item_id_chunks_split_at_steamworks_page_cap() {
    let ids = (1..=RESULTS_PER_PAGE * 2 + 3)
        .map(|id| id as u64)
        .collect::<Vec<_>>();

    let chunks = workshop_item_id_chunks(&ids);

    assert_eq!(chunks.len(), 3);
    assert_eq!(chunks[0].len(), RESULTS_PER_PAGE);
    assert_eq!(chunks[1].len(), RESULTS_PER_PAGE);
    assert_eq!(chunks[2].len(), 3);
    assert_eq!(chunks[0][0], 1);
    assert_eq!(chunks[2][2], (RESULTS_PER_PAGE * 2 + 3) as u64);
}

#[test]
fn filter_new_workshop_ids_preserves_order_and_rejects_known_ids() {
    let mut cache = HashSet::from([2u64, 4]);

    let filtered = filter_new_workshop_ids(&mut cache, vec![1, 2, 3, 1, 4, 5]);

    assert_eq!(filtered, vec![1, 3, 5]);
    assert!(cache.contains(&1));
    assert!(cache.contains(&2));
    assert!(cache.contains(&3));
    assert!(cache.contains(&4));
    assert!(cache.contains(&5));
}

#[test]
fn workshop_chunk_results_keep_ordered_partial_successes_and_last_error() {
    let items = combine_workshop_chunk_results(
        vec![
            Ok(vec![10u64]),
            Err(WorkshopQueryError::Steam("first".to_owned())),
            Ok(vec![20, 21]),
        ],
        3,
    )
    .expect("partial success should return successful chunks");

    assert_eq!(items, vec![10, 20, 21]);

    let error = combine_workshop_chunk_results::<u64>(
        vec![
            Err(WorkshopQueryError::QueryCreateFailed),
            Err(WorkshopQueryError::Steam("last".to_owned())),
        ],
        0,
    )
    .expect_err("all failed chunks should return the last failure");

    assert_eq!(error, WorkshopQueryError::Steam("last".to_owned()));
    assert_eq!(
        combine_workshop_chunk_results::<u64>(Vec::new(), 0),
        Err(WorkshopQueryError::QueryCreateFailed)
    );
}

#[test]
fn steam_query_errors_render_their_detail() {
    assert_eq!(format_steam_query_error(""), "ERR_STEAM_ERROR");
    assert_eq!(format_steam_query_error("Busy"), "ERR_STEAM_ERROR:Busy");
}

#[test]
fn preflight_accepts_non_cached_items_within_size_limits() {
    let preflight = validate_workshop_download_preflight_items(
        vec![
            preflight_item(100, WorkshopFileType::Other, 4_096, 0),
            preflight_item(
                101,
                WorkshopFileType::Other,
                8_192,
                ITEM_STATE_INSTALLED | ITEM_STATE_NEEDS_UPDATE,
            ),
        ],
        preflight_limits(),
    )
    .expect("preflight should accept direct non-cached items");

    assert_eq!(preflight.total_file_size, 12_288);
    assert!(preflight.items.iter().all(WorkshopDownloadPreflightItem::queues_steam_download));
}

#[test]
fn preflight_rejects_cached_installed_items() {
    let error = validate_workshop_download_preflight_items(
        vec![preflight_item(100, WorkshopFileType::Other, 4_096, ITEM_STATE_INSTALLED)],
        preflight_limits(),
    )
    .expect_err("cached installed item should be rejected");

    assert!(matches!(
        error,
        WorkshopDownloadPreflightError::AlreadyInstalled { id, .. } if id == 100
    ));
}

#[test]
fn preflight_rejects_collections_and_unbounded_sizes() {
    let collection_error = validate_workshop_download_preflight_items(
        vec![preflight_item(100, WorkshopFileType::Collection, 4_096, 0)],
        preflight_limits(),
    )
    .expect_err("collection should be rejected");
    assert_eq!(collection_error, WorkshopDownloadPreflightError::CollectionItem(100));

    let unknown_size_error = validate_workshop_download_preflight_items(
        vec![preflight_item(101, WorkshopFileType::Other, 0, 0)],
        preflight_limits(),
    )
    .expect_err("unknown size should be rejected");
    assert_eq!(unknown_size_error, WorkshopDownloadPreflightError::UnknownFileSize(101));

    let too_large = validate_workshop_download_preflight_items(
        vec![preflight_item(102, WorkshopFileType::Other, 10_001, 0)],
        preflight_limits(),
    )
    .expect_err("oversized item should be rejected");
    assert_eq!(
        too_large,
        WorkshopDownloadPreflightError::ItemTooLarge { id: 102, file_size: 10_001, max_item_bytes: 10_000 }
    );

    let total = validate_workshop_download_preflight_items(
        vec![
            preflight_item(103, WorkshopFileType::Other, 10_000, 0),
            preflight_item(104, WorkshopFileType::Other, 10_000, 0),
            preflight_item(105, WorkshopFileType::Other, 1, 0),
        ],
        preflight_limits(),
    )
    .expect_err("oversized total should be rejected");
    assert_eq!(
        total,
        WorkshopDownloadPreflightError::TotalTooLarge { total_file_size: 20_001, max_total_bytes: 20_000 }
    );
}

#[test]
fn known_workshop_items_bypass_collection_queries() {
    let mut ids = vec![10u64, 20, 30];
    let workshop_cache = HashSet::from([10u64, 30]);

    let state = PossibleCollectionsState::split_initial(&mut ids, Some(&workshop_cache));

    assert_eq!(ids, vec![10, 30]);
    assert_eq!(state.queue, vec![20]);
}

#[test]
fn unavailable_workshop_cache_queries_every_input_as_possible_collection() {
    let mut ids = vec![10u64, 20, 30];

    let state = PossibleCollectionsState::split_initial(&mut ids, None);

    assert!(ids.is_empty());
    assert_eq!(state.queue, vec![10, 20, 30]);
}

#[test]
fn collection_expansion_recurses_and_preserves_upstream_action_order() {
    let mut ids = vec![10u64, 20];
    let workshop_cache = HashSet::from([10u64]);
    let mut state = PossibleCollectionsState::split_initial(&mut ids, Some(&workshop_cache));
    let mut actions = Vec::new();

    while let Some(query) = state.next_query(true) {
        let results = match query.as_slice() {
            [collection] if *collection == 20 => {
                vec![Some(WorkshopDownloadQueryItem::Collection { children: vec![21, 22] })]
            }
            [first, nested_collection] if *first == 21 && *nested_collection == 22 => {
                vec![
                    Some(WorkshopDownloadQueryItem::Item(21)),
                    Some(WorkshopDownloadQueryItem::Collection { children: vec![23] }),
                ]
            }
            [item] if *item == 23 => vec![Some(WorkshopDownloadQueryItem::Item(23))],
            other => panic!("unexpected query batch: {other:?}"),
        };

        actions.extend(state.apply_query_results(&query, results));
    }

    assert_eq!(
        actions,
        vec![
            WorkshopDownloadAction::FetchWorkshopItems(vec![21, 22]),
            WorkshopDownloadAction::QueueDownload(21),
            WorkshopDownloadAction::FetchWorkshopItems(vec![23]),
            WorkshopDownloadAction::FetchWorkshopItems(vec![21]),
            WorkshopDownloadAction::QueueDownload(23),
            WorkshopDownloadAction::FetchWorkshopItems(vec![23]),
        ]
    );

    let queued = actions
        .iter()
        .filter_map(|action| match action {
            WorkshopDownloadAction::QueueDownload(item) => Some(*item),
            _ => None,
        })
        .chain(ids)
        .collect::<Vec<_>>();
    assert_eq!(queued, vec![21, 23, 10]);
}

#[test]
fn missing_collection_query_rows_emit_item_not_found_actions() {
    let mut ids = vec![42u64];
    let mut state = PossibleCollectionsState::split_initial(&mut ids, None);
    let query = state.next_query(true).expect("initial query");

    let actions = state.apply_query_results(&query, vec![None]);

    assert_eq!(actions, vec![WorkshopDownloadAction::MissingItem(42)]);
    assert!(state.next_query(true).is_none());
}

#[test]
fn disconnected_state_stops_collection_expansion_without_dropping_queue() {
    let mut state = PossibleCollectionsState::new(vec![1, 2]);

    assert!(state.next_query(false).is_none());
    assert_eq!(state.queue, vec![1, 2]);
}

#[test]
fn pending_batch_append_moves_all_items_in_one_scheduling_batch() {
    let mut downloading = vec![0u64];
    let mut pending = (1..=30u64).collect::<Vec<_>>();

    let batch_len = append_pending_batch(&mut downloading, &mut pending);

    assert_eq!(batch_len, 30);
    assert!(pending.is_empty());
    assert_eq!(downloading, (0..=30u64).collect::<Vec<_>>());
}

#[test]
fn publish_tags_append_addon_and_type() {
    assert_eq!(
        publish_tags(vec!["Fun".to_owned()], "gamemode".to_owned()),
        vec!["Fun".to_owned(), "Addon".to_owned(), "gamemode".to_owned()]
    );
}

#[test]
fn publishing_config_helpers_preserve_tags_status_keys_and_urls() {
    assert_eq!(
        publish_tags(vec!["fun".to_string(), "scenic".to_string()], "map".to_string()),
        vec!["fun".to_string(), "scenic".to_string(), "Addon".to_string(), "map".to_string()]
    );
}

#[test]
fn content_folder_needs_exactly_one_gma() {
    assert_eq!(
        ContentPath::new(true, vec!["a/readme.txt".to_owned(), "a/addon.gma".to_owned()]),
        Ok(ContentPath("a/addon.gma".to_owned()))
    );
    assert_eq!(
        ContentPath::new(true, vec!["a/x.gma".to_owned(), "a/y.gma".to_owned()]),
        Err(ContentPathError::MultipleGMAs)
    );
    assert_eq!(ContentPath::new(true, vec!["a/x.GMA".to_owned()]), Err(ContentPathError::NoEntries));
    assert_eq!(ContentPath::new(false, Vec::new()), Err(ContentPathError::InvalidContentPath));
}

/// A JSON text read into the library's document type, as the app reads
/// Web API responses.
fn json(text: &str) -> Result<JsonValue, WebApiError> {
    fn convert(v: serde_json::Value) -> JsonValue {
        match v {
            serde_json::Value::Null => JsonValue::Null,
            serde_json::Value::Bool(b) => JsonValue::Bool(b),
            serde_json::Value::Number(n) => JsonValue::Number(n.as_u64()),
            serde_json::Value::String(s) => JsonValue::Str(s),
            serde_json::Value::Array(a) => JsonValue::Array(a.into_iter().map(convert).collect()),
            serde_json::Value::Object(m) => JsonValue::Object(m.into_iter().map(|(k, v)| (k, convert(v))).collect()),
        }
    }
    serde_json::from_str::<serde_json::Value>(text)
        .map(convert)
        .map_err(|_| WebApiError::Parse("invalid JSON"))
}

#[test]
fn collection_details_distinguishes_items_collections_and_nesting() {
    let root = json(
        r#"{"response":{"result":1,"resultcount":3,"collectiondetails":[
            {"publishedfileid":"10","result":9},
            {"publishedfileid":"20","result":1,"children":[
                {"publishedfileid":"21","sortorder":0,"filetype":0},
                {"publishedfileid":"22","sortorder":1,"filetype":2}
            ]},
            {"publishedfileid":"30","result":1}
        ]}}"#,
    )
    .expect("json");
    let rows = parse_collection_details(&root).expect("parse");

    assert_eq!(rows[0].id, 10);
    assert!(rows[0].children.is_none());
    assert_eq!(rows[1].children, Some(vec![(21, false), (22, true)]));
    assert_eq!(rows[2].children, Some(Vec::new()));
}

#[test]
fn published_file_details_parses_string_sizes_and_empty_urls() {
    let root = json(
        r#"{"response":{"result":1,"resultcount":3,"publishedfiledetails":[
            {"publishedfileid":"1","result":1,"file_size":"20670035","file_url":""},
            {"publishedfileid":"2","result":1,"file_size":123,"file_url":"https://cdn.example/ugc/x/"},
            {"publishedfileid":"3","result":9}
        ]}}"#,
    )
    .expect("json");
    let details = parse_published_file_details(&root).expect("parse");

    assert_eq!(
        details,
        vec![
            PublishedFileDetail {
                id: 1,
                found: true,
                file_url: None,
                file_size: 20_670_035,
            },
            PublishedFileDetail {
                id: 2,
                found: true,
                file_url: Some("https://cdn.example/ugc/x/".to_owned()),
                file_size: 123,
            },
            PublishedFileDetail {
                id: 3,
                found: false,
                file_url: None,
                file_size: 0,
            },
        ]
    );
}

#[test]
fn malformed_payloads_are_parse_errors() {
    assert!(matches!(
        json("not json").and_then(|root| parse_published_file_details(&root)),
        Err(WebApiError::Parse(_))
    ));
    assert!(matches!(
        json(r#"{"response":{}}"#).and_then(|root| parse_collection_details(&root)),
        Err(WebApiError::Parse(_))
    ));
}

#[test]
fn rows_without_an_id_are_parse_errors() {
    let root = json(r#"{"response":{"publishedfiledetails":[{"publishedfileid":"1"},{"result":1}]}}"#).expect("json");
    assert!(matches!(
        parse_published_file_details(&root),
        Err(WebApiError::Parse("missing publishedfileid"))
    ));
    let root = json(r#"{"response":{"collectiondetails":[{"publishedfileid":"-4"}]}}"#).expect("json");
    assert!(matches!(
        parse_collection_details(&root),
        Err(WebApiError::Parse("missing publishedfileid"))
    ));
    let root = json(r#"{"response":{"collectiondetails":{}}}"#).expect("json");
    assert!(matches!(
        parse_collection_details(&root),
        Err(WebApiError::Parse("missing details array"))
    ));
}

#[test]
fn collection_resolution_expands_nested_collections_once() {
    let mut resolution = CollectionResolution::new(vec![1], vec![20, 40]);

    // Level 0: id 20 is a collection containing an item, a nested
    // collection, and a duplicate of the already-known item 1; id 40
    // has no row at all (treated as an item).
    let frontier = resolution.take_frontier();
    assert_eq!(frontier, vec![20, 40]);
    resolution.apply_rows(
        &frontier,
        &[CollectionRow {
            id: 20,
            children: Some(vec![(21, false), (22, true), (1, false)]),
        }],
    );
    assert_eq!(resolution.frontier(), &vec![22]);
    assert_eq!(resolution.items(), &vec![1, 21, 40]);

    // Level 1: nested collection resolves to one new item plus a
    // duplicate of 21, which must not repeat.
    let frontier = resolution.take_frontier();
    resolution.apply_rows(
        &frontier,
        &[CollectionRow {
            id: 22,
            children: Some(vec![(23, false), (21, false)]),
        }],
    );
    assert!(resolution.frontier().is_empty());
    assert_eq!(resolution.items(), &vec![1, 21, 40, 23]);
}

#[test]
fn details_align_to_requested_order_with_missing_rows_marked_not_found() {
    let aligned = align_details(
        &[1, 2],
        vec![PublishedFileDetail {
            id: 2,
            found: true,
            file_url: None,
            file_size: 7,
        }],
    );

    assert_eq!(aligned[0], PublishedFileDetail::missing(1));
    assert_eq!(aligned[1].id, 2);
    assert!(aligned[1].found);
}

#[test]
fn an_id_requested_twice_takes_its_row_once() {
    let row = PublishedFileDetail { id: 5, found: true, file_url: None, file_size: 9 };
    let aligned = align_details(&[5, 5], vec![row.clone()]);
    assert_eq!(aligned, vec![row, PublishedFileDetail::missing(5)]);
}

#[test]
fn collection_levels_stop_at_the_depth_limit() {
    let mut resolution = CollectionResolution::new(Vec::new(), vec![1]);
    let mut levels = 0;
    while let Some(batches) = resolution.next_level() {
        levels += 1;
        for batch in batches {
            let next = batch[0] + 1;
            resolution.apply_rows(&batch, &[CollectionRow { id: batch[0], children: Some(vec![(next, true)]) }]);
        }
    }
    assert_eq!(levels, MAX_COLLECTION_DEPTH);
    assert!(resolution.next_level().is_none());
    // What the limit left unexpanded is asked for as a plain item.
    assert_eq!(resolution.into_item_ids(), vec![MAX_COLLECTION_DEPTH as u64 + 1]);
}

#[test]
fn id_batches_hold_at_most_a_batch_each() {
    let ids: Vec<u64> = (0..(BATCH_SIZE as u64 * 2 + 1)).collect();
    let batches = id_batches(&ids);
    assert_eq!(batches.len(), 3);
    assert_eq!(batches[0].len(), BATCH_SIZE);
    assert_eq!(batches[2], vec![BATCH_SIZE as u64 * 2]);
    assert!(id_batches(&[]).is_empty());
}

/// Drains results as they arrive from a channel that holds `results` and
/// is then closed: a closed channel is an unanswered chunk.
fn drain(results: Vec<Result<Vec<u64>, WorkshopQueryError>>, chunk_count: usize) -> (Vec<Vec<u64>>, Result<(), WorkshopQueryError>) {
    let mut arrivals = results.into_iter();
    let mut state = ChunkDrain::new();
    let mut delivered = Vec::new();
    for _ in 0..chunk_count {
        if let Some(chunk) = state.record(arrivals.next()) {
            delivered.push(chunk);
        }
        if state.stopped {
            break;
        }
    }
    (delivered, state.finish())
}

#[test]
fn drain_streams_each_ok_chunk_and_isolates_a_failed_one() {
    let (delivered, result) = drain(
        vec![Ok(vec![10]), Err(WorkshopQueryError::Steam("boom".to_owned())), Ok(vec![20, 21])],
        3,
    );
    result.expect("a partially successful query is not an error");
    assert_eq!(delivered, vec![vec![10], vec![20, 21]]);
}

#[test]
fn drain_errors_only_when_every_chunk_failed() {
    let (delivered, result) = drain(
        vec![Err(WorkshopQueryError::QueryCreateFailed), Err(WorkshopQueryError::Steam("last".to_owned()))],
        2,
    );
    assert!(delivered.is_empty());
    assert_eq!(result.expect_err("all failed"), WorkshopQueryError::Steam("last".to_owned()));
}

#[test]
fn a_chunk_steam_never_answers_is_an_error_rather_than_a_panic() {
    let (delivered, result) = drain(vec![Ok(vec![10])], 2);
    result.expect("the chunk that did answer still counts as a success");
    assert_eq!(delivered.len(), 1);

    let (delivered, result) = drain(Vec::new(), 1);
    assert!(delivered.is_empty());
    assert_eq!(result.expect_err("a query Steam never answered is a failed query"), WorkshopQueryError::Abandoned);
}

#[test]
fn dormant_runtime_shutdown_is_terminal_and_idempotent() {
    let runtime = RuntimeState::<u8>::new(true);
    let (runtime, control) = runtime.shutdown();
    assert!(control.is_none());
    let (runtime, control) = runtime.shutdown();
    assert!(control.is_none());
    assert!(matches!(runtime, RuntimeState::Stopped));
    assert_eq!(runtime.start_outcome(), Some(SteamBackgroundStart::Stopped));
}

#[test]
fn disabled_runtime_stays_disabled_when_shutdown_is_requested() {
    let runtime = RuntimeState::<u8>::new(false);
    let (runtime, _) = runtime.shutdown();
    assert!(matches!(runtime, RuntimeState::Disabled));
    assert_eq!(runtime.start_outcome(), Some(SteamBackgroundStart::Disabled));
}

#[test]
fn a_running_runtime_hands_its_control_to_shutdown() {
    let dormant = RuntimeState::<u8>::new(true);
    assert_eq!(dormant.start_outcome(), None);
    let running = RuntimeState::Running(7u8);
    assert_eq!(running.start_outcome(), Some(SteamBackgroundStart::AlreadyRunning));
    let (after, control) = running.shutdown();
    assert_eq!(control, Some(7));
    assert!(matches!(after, RuntimeState::Stopped));
}

#[test]
fn connection_retries_back_off_up_to_the_cap() {
    assert_eq!(next_retry_delay(50, 1000), 100);
    assert_eq!(next_retry_delay(800, 1000), 1000);
    assert_eq!(next_retry_delay(1000, 1000), 1000);
}

#[test]
fn preflighted_items_go_to_the_cheapest_lane() {
    let legacy = PublishedFileDetail { id: 1, found: true, file_url: Some("https://cdn/x".to_owned()), file_size: 3 };
    let steampipe = PublishedFileDetail { id: 2, found: true, file_url: None, file_size: 3 };
    let hidden = PublishedFileDetail::missing(3);
    assert_eq!(download_lane(&legacy, 0, false), DownloadLane::Http);
    // installed and current with install info: extracted from disk
    assert_eq!(download_lane(&legacy, ITEM_STATE_INSTALLED, true), DownloadLane::SteamClient);
    assert_eq!(download_lane(&legacy, ITEM_STATE_INSTALLED | ITEM_STATE_NEEDS_UPDATE, true), DownloadLane::Http);
    assert_eq!(download_lane(&steampipe, 0, false), DownloadLane::SteamClient);
    assert_eq!(download_lane(&hidden, 0, false), DownloadLane::Unresolved);
    assert_eq!(found_detail_ids(&vec![legacy, hidden, steampipe]), vec![1, 2]);
}

#[test]
fn preflight_refuses_empty_requests_and_a_disconnected_client() {
    assert_eq!(preflight_start(0, true), Err(WorkshopDownloadPreflightError::EmptyIds));
    assert_eq!(preflight_start(0, false), Err(WorkshopDownloadPreflightError::EmptyIds));
    assert_eq!(preflight_start(2, false), Err(WorkshopDownloadPreflightError::SteamNotConnected));
    assert_eq!(preflight_start(2, true), Ok(()));
}

#[test]
fn preflight_query_rows_must_answer_each_id_in_place() {
    let ids = [100, 200];
    let rows = vec![
        preflight_item(100, WorkshopFileType::Other, 4_096, 0),
        preflight_item(200, WorkshopFileType::Other, 1_000, 0),
    ];
    let preflight = preflight_from_query_rows(&ids, rows.clone(), preflight_limits()).expect("rows answer the ids");
    assert_eq!(preflight.items, rows);
    assert_eq!(preflight.total_file_size, 5_096);
    assert_eq!(
        preflight_from_query_rows(&ids, vec![rows[0].clone()], preflight_limits()),
        Err(WorkshopDownloadPreflightError::MissingItem(200))
    );
    assert_eq!(
        preflight_from_query_rows(&ids, vec![rows[1].clone(), rows[0].clone()], preflight_limits()),
        Err(WorkshopDownloadPreflightError::QueryItemMismatch { expected: 100, actual: 200 })
    );
    // Rows past the requested ids are ignored; answered items still meet the limits.
    let extra = vec![rows[0].clone(), rows[1].clone(), preflight_item(300, WorkshopFileType::Collection, 1, 0)];
    assert_eq!(preflight_from_query_rows(&ids, extra, preflight_limits()).map(|p| p.items), Ok(rows));
    let too_big = vec![preflight_item(100, WorkshopFileType::Other, 10_001, 0)];
    assert_eq!(
        preflight_from_query_rows(&[100], too_big, preflight_limits()),
        Err(WorkshopDownloadPreflightError::ItemTooLarge { id: 100, file_size: 10_001, max_item_bytes: 10_000 })
    );
}

#[test]
fn icons_upscale_unless_gif_or_already_a_large_square() {
    assert!(WorkshopIcon::can_upscale(256, 256, IconFormat::Png));
    assert!(WorkshopIcon::can_upscale(512, 1024, IconFormat::Jpeg));
    assert!(WorkshopIcon::can_upscale(600, 511, IconFormat::Jpeg));
    assert!(!WorkshopIcon::can_upscale(512, 512, IconFormat::Png));
    assert!(!WorkshopIcon::can_upscale(1024, 1024, IconFormat::Jpeg));
    assert!(!WorkshopIcon::can_upscale(100, 50, IconFormat::Gif));
}

#[test]
fn icon_files_are_checked_by_size_then_extension() {
    assert_eq!(WorkshopIcon::format_for(1_048_577, "icon.png"), Err(IconError::IconTooLarge));
    assert_eq!(WorkshopIcon::format_for(15, "icon.png"), Err(IconError::IconTooSmall));
    assert_eq!(WorkshopIcon::format_for(15, "icon.bmp"), Err(IconError::IconTooSmall));
    assert_eq!(WorkshopIcon::format_for(1_048_576, "/addons/icon.PNG"), Ok(IconFormat::Png));
    assert_eq!(WorkshopIcon::format_for(16, "icon.gif"), Ok(IconFormat::Gif));
    assert_eq!(WorkshopIcon::format_for(4096, "icon.Jpeg"), Ok(IconFormat::Jpeg));
    assert_eq!(WorkshopIcon::format_for(4096, "icon.jpg"), Ok(IconFormat::Jpeg));
    assert_eq!(WorkshopIcon::format_for(4096, "icon"), Ok(IconFormat::Jpeg));
    assert_eq!(WorkshopIcon::format_for(4096, "icon.bmp"), Err(IconError::IconInvalidFormat));
}

fn whitelist_row(path: &str, size: u64, whitelisted: bool) -> WhitelistRow {
    WhitelistRow { relative_path: path.to_string(), size, whitelisted }
}

#[test]
fn whitelist_check_packs_admitted_files_with_their_total_size() {
    let rows = vec![whitelist_row("lua/a.lua", 10, true), whitelist_row("materials/b.vmt", 5, true)];
    assert_eq!(
        verify_whitelist_rows(true, &rows),
        Ok((
            vec![
                WhitelistedFile { path: "lua/a.lua".to_string(), size: 10 },
                WhitelistedFile { path: "materials/b.vmt".to_string(), size: 5 },
            ],
            15
        ))
    );
    assert_eq!(verify_whitelist_rows(false, &rows), Err(WhitelistError::InvalidContentPath));
    assert_eq!(verify_whitelist_rows(true, &[]), Err(WhitelistError::NoEntries));
}

#[test]
fn whitelist_check_refuses_a_repeated_path() {
    let rows = vec![whitelist_row("a.lua", 1, true), whitelist_row("b.exe", 1, false), whitelist_row("a.lua", 1, true)];
    assert_eq!(verify_whitelist_rows(true, &rows), Err(WhitelistError::DuplicateEntry("a.lua".to_string())));
}

#[test]
fn whitelist_check_reports_refused_paths_sorted() {
    let rows = vec![whitelist_row("ok.lua", 3, true), whitelist_row("b.exe", 1, false), whitelist_row("a.exe", 1, false)];
    assert_eq!(
        verify_whitelist_rows(true, &rows),
        Err(WhitelistError::NotWhitelisted(vec!["a.exe".to_string(), "b.exe".to_string()]))
    );
}

#[test]
fn whitelist_check_stops_after_nine_refusals() {
    let mut rows: Vec<WhitelistRow> =
        ["z", "y", "x", "w", "v", "u", "t", "s", "r", "q", "p"].iter().map(|p| whitelist_row(p, 1, false)).collect();
    rows.push(whitelist_row("z", 1, false));
    let mut expected: Vec<String> = ["r", "s", "t", "u", "v", "w", "x", "y", "z"].iter().map(|p| p.to_string()).collect();
    expected.push("...".to_string());
    assert_eq!(verify_whitelist_rows(true, &rows), Err(WhitelistError::NotWhitelisted(expected)));
}
