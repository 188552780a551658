use nfl_data_pipeline::config::Config;
use nfl_data_pipeline::fetch::{
    build_url, on_attempt, start_fetch, AttemptOutcome, DataCategory, FetchError, FetchStep,
};
use nfl_data_pipeline::parser::{decode_roster_doc, decode_schedule_doc, decode_stats_doc};
use nfl_data_pipeline::pipeline::{
    current_utc_year, import_player_stats, import_rosters, import_schedule, make_batches,
    next_phase, parse_mode, phase_category, seasons_in_range, validation_counts, RunMode,
    SeasonPhase,
};
use nfl_data_pipeline::store::{ImportStatus, ProgressRow, Store};

const ROSTER_HEADER: &str = "season,team,position,full_name,gsis_id,jersey_number,status,height,weight,college";

fn roster_row(i: usize) -> String {
    format!(
        "2024,KC,QB,Player {i},00-{i:07},{n},ACT,6-2,210,State U",
        i = i,
        n = (i % 98) + 1
    )
}

fn roster_doc(rows: usize) -> String {
    let mut doc = String::from(ROSTER_HEADER);
    doc.push('\n');
    for i in 0..rows {
        doc.push_str(&roster_row(i));
        doc.push('\n');
    }
    doc
}

fn store_with_teams(abbrs: &[&str]) -> Store {
    let mut store = Store::new();
    for a in abbrs {
        store.add_team(a.to_string());
    }
    store
}

#[test]
fn ngs_before_2016_fails_without_any_request() {
    assert_eq!(
        start_fetch(DataCategory::NgsPassing, 2015, 3).err(),
        Some(FetchError::DataUnavailable)
    );
    assert_eq!(
        start_fetch(DataCategory::NgsRushing, 2015, 3).err(),
        Some(FetchError::DataUnavailable)
    );
    assert_eq!(
        start_fetch(DataCategory::NgsReceiving, 1999, 3).err(),
        Some(FetchError::DataUnavailable)
    );
    assert!(start_fetch(DataCategory::NgsPassing, 2016, 3).is_ok());
    assert!(start_fetch(DataCategory::Rosters, 2015, 3).is_ok());
}

#[test]
fn retry_backoff_is_two_then_four_seconds() {
    let st = start_fetch(DataCategory::Rosters, 2020, 3).unwrap();
    let mut delays: Vec<u64> = Vec::new();
    let st = match on_attempt(st, AttemptOutcome::Transient) {
        FetchStep::Backoff(d, st) => {
            delays.push(d);
            st
        }
        _ => panic!("expected a backoff"),
    };
    let st = match on_attempt(st, AttemptOutcome::Transient) {
        FetchStep::Backoff(d, st) => {
            delays.push(d);
            st
        }
        _ => panic!("expected a second backoff"),
    };
    match on_attempt(st, AttemptOutcome::Success("the document".to_string())) {
        FetchStep::Done(doc) => assert_eq!(doc, "the document"),
        _ => panic!("expected the document"),
    }
    assert_eq!(delays, vec![2, 4]);
}

#[test]
fn not_found_is_permanent_and_retries_exhaust() {
    let st = start_fetch(DataCategory::Schedule, 2020, 3).unwrap();
    match on_attempt(st, AttemptOutcome::HttpNotFound) {
        FetchStep::Failed(e) => assert_eq!(e, FetchError::NotFound),
        _ => panic!("expected a permanent failure"),
    }
    let st = start_fetch(DataCategory::Schedule, 2020, 3).unwrap();
    let st = match on_attempt(st, AttemptOutcome::Transient) {
        FetchStep::Backoff(_, st) => st,
        _ => panic!("expected a backoff"),
    };
    let st = match on_attempt(st, AttemptOutcome::Transient) {
        FetchStep::Backoff(_, st) => st,
        _ => panic!("expected a backoff"),
    };
    match on_attempt(st, AttemptOutcome::Transient) {
        FetchStep::Failed(e) => assert_eq!(e, FetchError::Exhausted(3)),
        _ => panic!("expected exhaustion"),
    }
}

#[test]
fn zero_attempt_allowance_fails_without_any_request() {
    assert_eq!(
        start_fetch(DataCategory::Rosters, 2020, 0).err(),
        Some(FetchError::Exhausted(0))
    );
    // Availability is decided before the allowance.
    assert_eq!(
        start_fetch(DataCategory::NgsPassing, 2015, 0).err(),
        Some(FetchError::DataUnavailable)
    );
}

#[test]
fn hard_invalid_records_are_never_persisted() {
    let doc = "season,team,position,full_name,gsis_id\n2024,KC,QB,Good One,00-0000001\n1850,KC,QB,Too Old,00-0000002\n2024,KC,QB,No Id,\n2024,GB,WR,Good Two,00-0000003\n";
    let mut store = store_with_teams(&["KC", "GB"]);
    let imported = import_rosters(&mut store, doc, 2024, 500, false);
    assert_eq!(imported, 2);
    assert_eq!(store.count_players(), 2);
    assert_eq!(
        store.get_import_progress(2024, DataCategory::Rosters).unwrap().records_imported,
        2
    );

    let games = "game_id,season,game_type,week,gameday,away_team,home_team\n2024_01_KC_GB,2024,REG,1,2024-09-05,KC,GB\n2500_01_KC_GB,2500,REG,1,2500-09-05,KC,GB\n2024_99_KC_GB,2024,REG,99,2024-09-06,KC,GB\n";
    let imported = import_schedule(&mut store, games, 2024, 500, false);
    assert_eq!(imported, 1);
    assert_eq!(store.count_games(2024), 1);
    assert_eq!(store.count_games(2500), 0);

    let stats = "player_id,season,week,season_type,passing_yards\n00-0000001,2024,1,REG,250.0\n00-0000001,2024,0,REG,100.0\n00-0000003,1901,1,REG,90.0\n";
    let imported = import_player_stats(&mut store, stats, 2024, 500, false);
    assert_eq!(imported, 1);
    assert_eq!(store.count_game_stats(2024), 1);
}

#[test]
fn urls_are_deterministic_per_category_and_season() {
    assert_eq!(
        build_url(DataCategory::Rosters, 2024),
        "https://github.com/nflverse/nflverse-data/releases/download/rosters/roster_2024.csv"
    );
    assert_eq!(
        build_url(DataCategory::Schedule, 1999),
        "https://github.com/nflverse/nflverse-data/releases/download/schedules/sched_1999.csv"
    );
    assert_eq!(
        build_url(DataCategory::PlayerStats, 2010),
        "https://github.com/nflverse/nflverse-data/releases/download/player_stats/player_stats_2010.csv"
    );
    assert_eq!(
        build_url(DataCategory::NgsPassing, 2016),
        "https://github.com/nflverse/nflverse-data/releases/download/nextgen_stats/ngs_2016_passing.csv"
    );
}

#[test]
fn twelve_hundred_rows_make_three_batches_and_one_progress_entry() {
    let doc = roster_doc(1200);
    let (records, skipped) = decode_roster_doc(&doc);
    assert_eq!(records.len(), 1200);
    assert_eq!(skipped, 0);
    let batches = make_batches(records, 500);
    let sizes: Vec<usize> = batches.iter().map(|b| b.len()).collect();
    assert_eq!(sizes, vec![500, 500, 200]);

    let mut store = store_with_teams(&["KC"]);
    let imported = import_rosters(&mut store, &doc, 2024, 500, false);
    assert_eq!(imported, 1200);
    assert_eq!(store.count_players(), 1200);
    assert_eq!(
        store.get_import_progress(2024, DataCategory::Rosters),
        Some(ProgressRow {
            season: 2024,
            data_type: DataCategory::Rosters,
            status: ImportStatus::Completed,
            records_imported: 1200,
        })
    );
}

#[test]
fn importing_the_same_roster_twice_changes_nothing() {
    let doc = roster_doc(37);
    let mut once = store_with_teams(&["KC", "GB"]);
    import_rosters(&mut once, &doc, 2024, 10, false);
    let mut twice = store_with_teams(&["KC", "GB"]);
    import_rosters(&mut twice, &doc, 2024, 10, false);
    import_rosters(&mut twice, &doc, 2024, 10, false);
    assert_eq!(once, twice);
}

#[test]
fn duplicate_keys_take_the_last_write_and_stay_idempotent() {
    let doc = "season,team,position,full_name,gsis_id,weight\n2024,KC,QB,Same Player,00-0000009,200\n2024,KC,QB,Same Player,00-0000009,215\n";
    let mut once = store_with_teams(&["KC"]);
    let imported = import_rosters(&mut once, doc, 2024, 500, false);
    assert_eq!(imported, 2);
    assert_eq!(once.count_players(), 1);
    assert_eq!(once.players[0].weight_pounds, Some(215));
    let mut twice = store_with_teams(&["KC"]);
    import_rosters(&mut twice, doc, 2024, 500, false);
    import_rosters(&mut twice, doc, 2024, 500, false);
    assert_eq!(once, twice);
}

#[test]
fn dry_run_leaves_no_trace() {
    let doc = roster_doc(12);
    let mut store = store_with_teams(&["KC"]);
    let imported = import_rosters(&mut store, &doc, 2024, 5, true);
    assert_eq!(imported, 12);
    assert_eq!(store.count_players(), 0);
    assert_eq!(store.get_import_progress(2024, DataCategory::Rosters), None);
}

#[test]
fn roster_decode_handles_quoting_reordering_and_bad_rows() {
    let doc = "full_name,gsis_id,team,position,season,weight\n\
               \"Smith, John\",00-0000001,KC,QB,2024,210\n\
               Bad Weight,00-0000002,KC,RB,2024,heavy\n\
               No Season,00-0000003,KC,WR,,\n\
               Fine Fellow,00-0000004,GB,TE,2023,\n";
    let (records, skipped) = decode_roster_doc(doc);
    assert_eq!(records.len(), 2);
    assert_eq!(skipped, 2);
    assert_eq!(records[0].full_name, "Smith, John");
    assert_eq!(records[0].gsis_id, "00-0000001");
    assert_eq!(records[0].weight, Some(210));
    assert_eq!(records[1].full_name, "Fine Fellow");
    assert_eq!(records[1].season, 2023);
    assert_eq!(records[1].weight, None);
}

#[test]
fn missing_required_column_skips_every_row() {
    let doc = "full_name,team,position,season\nA B,KC,QB,2024\n";
    let (records, skipped) = decode_roster_doc(doc);
    assert!(records.is_empty());
    assert_eq!(skipped, 1);
}

#[test]
fn schedule_decode_keeps_only_regular_season() {
    let doc = "game_id,season,game_type,week,gameday,away_team,home_team,away_score,home_score\n\
               2024_00_KC_BAL,2024,PRE,1,2024-08-10,KC,BAL,10,13\n\
               2024_01_KC_BAL,2024,REG,1,2024-09-05,KC,BAL,27,20\n\
               2024_22_KC_PHI,2024,SB,22,2025-02-09,KC,PHI,,\n";
    let (games, skipped) = decode_schedule_doc(doc);
    assert_eq!(skipped, 0);
    assert_eq!(games.len(), 1);
    assert_eq!(games[0].game_id, "2024_01_KC_BAL");
    assert_eq!(games[0].away_score, Some(27));
}

#[test]
fn stats_decode_truncates_decimals_and_filters_reg() {
    let doc = "player_id,player_display_name,season,week,season_type,passing_yards,rushing_yards,receptions\n\
               00-0000001,Some Player,2024,1,REG,291.0,-3.7,4\n\
               00-0000001,Some Player,2024,20,POST,301.0,0.0,1\n";
    let (stats, skipped) = decode_stats_doc(doc);
    assert_eq!(skipped, 0);
    assert_eq!(stats.len(), 1);
    assert_eq!(stats[0].passing_yards, Some(291));
    assert_eq!(stats[0].rushing_yards, Some(-3));
    assert_eq!(stats[0].receptions, Some(4));
    assert_eq!(stats[0].season_type, "REG");
}

#[test]
fn schedule_import_skips_unresolvable_teams() {
    let doc = "game_id,season,game_type,week,gameday,away_team,home_team\n\
               2024_01_KC_BAL,2024,REG,1,2024-09-05,KC,BAL\n\
               2024_01_SD_XX,2024,REG,1,2024-09-06,SD,XX\n";
    let mut store = store_with_teams(&["KC", "BAL", "LAC"]);
    let imported = import_schedule(&mut store, doc, 2024, 500, false);
    assert_eq!(imported, 2);
    assert_eq!(store.count_games(2024), 1);
}

#[test]
fn stat_import_skips_unknown_players_and_counts_by_season() {
    let roster = roster_doc(3);
    let mut store = store_with_teams(&["KC"]);
    import_rosters(&mut store, &roster, 2024, 500, false);
    let doc = "player_id,season,week,season_type,passing_yards\n\
               00-0000001,2024,1,REG,250.0\n\
               99-9999999,2024,1,REG,100.0\n\
               00-0000002,2024,2,REG,180.0\n";
    let imported = import_player_stats(&mut store, doc, 2024, 500, false);
    assert_eq!(imported, 3);
    assert_eq!(store.count_game_stats(2024), 2);
    assert_eq!(store.count_game_stats(2023), 0);
}

#[test]
fn upserts_preserve_identity_and_overwrite_fields() {
    let doc_a = "season,team,position,full_name,gsis_id,weight\n2023,OAK,HB,A Player,00-1,200\n";
    let doc_b = "season,team,position,full_name,gsis_id,weight\n2024,KC,HB,A Player,00-1,212\n";
    let mut store = store_with_teams(&["LV", "KC"]);
    import_rosters(&mut store, doc_a, 2023, 500, false);
    assert_eq!(store.count_players(), 1);
    let first_id = store.players[0].id;
    assert_eq!(store.players[0].weight_pounds, Some(200));
    import_rosters(&mut store, doc_b, 2024, 500, false);
    assert_eq!(store.count_players(), 1);
    assert_eq!(store.players[0].id, first_id);
    assert_eq!(store.players[0].weight_pounds, Some(212));
    let lv = store.get_team_id_by_abbr("LV");
    assert!(lv.is_some());
    assert_eq!(store.get_import_progress(2023, DataCategory::Rosters).unwrap().records_imported, 1);
}

#[test]
fn progress_overwrites_per_key() {
    let mut store = Store::new();
    store.mark_progress(2024, DataCategory::Rosters, ImportStatus::Completed, 10);
    store.mark_progress(2024, DataCategory::Rosters, ImportStatus::Completed, 25);
    store.mark_progress(2024, DataCategory::Schedule, ImportStatus::Failed, 0);
    let p = store.get_import_progress(2024, DataCategory::Rosters).unwrap();
    assert_eq!(p.records_imported, 25);
    assert_eq!(
        store.get_import_progress(2024, DataCategory::Schedule).unwrap().status,
        ImportStatus::Failed
    );
    assert_eq!(store.get_import_progress(2023, DataCategory::Rosters), None);
}

#[test]
fn validation_counts_report_each_season() {
    let mut store = store_with_teams(&["KC", "BAL"]);
    let doc = "game_id,season,game_type,week,gameday,away_team,home_team\n\
               2023_01_KC_BAL,2023,REG,1,2023-09-07,KC,BAL\n";
    import_schedule(&mut store, doc, 2023, 500, false);
    let report = validation_counts(&store, 2023, 2024);
    assert_eq!(report, vec![(2023, 1, 0), (2024, 0, 0)]);
}

#[test]
fn season_phases_run_in_order_and_skip_ngs_before_2016() {
    let mut order: Vec<SeasonPhase> = Vec::new();
    let mut phase = SeasonPhase::Pending;
    while phase != SeasonPhase::Completed {
        phase = next_phase(phase, 2020);
        order.push(phase);
    }
    assert_eq!(
        order,
        vec![
            SeasonPhase::FetchingRosters,
            SeasonPhase::FetchingStats,
            SeasonPhase::FetchingNgs,
            SeasonPhase::Completed,
        ]
    );
    assert_eq!(next_phase(SeasonPhase::FetchingStats, 2015), SeasonPhase::Completed);
    assert_eq!(
        phase_category(SeasonPhase::FetchingRosters),
        Some(DataCategory::Rosters)
    );
    assert_eq!(phase_category(SeasonPhase::Completed), None);
}

#[test]
fn season_range_is_inclusive() {
    assert_eq!(seasons_in_range(2010, 2012), vec![2010, 2011, 2012]);
    assert_eq!(seasons_in_range(2024, 2024), vec![2024]);
    assert!(seasons_in_range(2025, 2024).is_empty());
}

#[test]
fn modes_parse_and_unknown_is_rejected() {
    assert_eq!(parse_mode("full"), Some(RunMode::Full));
    assert_eq!(parse_mode("year"), Some(RunMode::Year));
    assert_eq!(parse_mode("update"), Some(RunMode::Update));
    assert_eq!(parse_mode("validate"), Some(RunMode::Validate));
    assert_eq!(parse_mode("bogus"), None);
    assert_eq!(parse_mode(""), None);
}

#[test]
fn config_takes_arguments_and_defaults() {
    let args: Vec<String> = vec![
        "prog", "--mode", "year", "--year", "2019", "--dry-run",
    ]
    .into_iter()
    .map(|s| s.to_string())
    .collect();
    let cfg = Config::from_args(&args, "postgres://example".to_string());
    assert_eq!(cfg.mode, "year");
    assert_eq!(cfg.year, 2019);
    assert_eq!(cfg.start_year, 2010);
    assert_eq!(cfg.end_year, 2025);
    assert!(cfg.dry_run);
    assert_eq!(cfg.batch_size, 500);
    assert_eq!(cfg.max_retries, 3);
    assert_eq!(cfg.database_url, "postgres://example");

    let bare: Vec<String> = vec!["prog".to_string()];
    let cfg = Config::from_args(&bare, "db".to_string());
    assert_eq!(cfg.mode, "full");
    assert_eq!(cfg.year, 2024);
    assert!(!cfg.dry_run);

    let odd: Vec<String> = vec!["prog", "--year", "soon"]
        .into_iter()
        .map(|s| s.to_string())
        .collect();
    assert_eq!(Config::from_args(&odd, "db".to_string()).year, 2024);

    assert_eq!(Config::get_arg(&args, "--mode"), Some("year".to_string()));
    assert_eq!(Config::get_arg(&args, "--start-year"), None);
}

#[test]
fn current_year_is_plausible() {
    let y = current_utc_year();
    assert!(y >= 2024);
}
