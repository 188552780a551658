//! The import pipeline: decode a fetched document, accumulate records
//! into fixed-size batches, upsert them in source order, and record
//! per-(season, category) progress — everything but the HTTP fetch
//! and the real storage connection, which the caller supplies.
use vstd::prelude::*;

use crate::fetch::{DataCategory, NGS_MIN_SEASON};
use crate::parser;
use crate::records::{GameRecord, RosterRecord, StatRecord};
use crate::store::{
    game_views, roster_views, stat_views, upsert_games_fold, upsert_players_fold,
    upsert_progress_seq, upsert_stats_fold, ImportStatus, ProgressRow, Store,
};
use crate::text;
use crate::validate::{valid_games, valid_rosters, valid_stats, DataValidator};

verus! {

/// The flattening of a sequence of batches.
pub open spec fn batches_flat<T>(s: Seq<Vec<T>>) -> Seq<T> {
    s.map_values(|v: Vec<T>| v@).flatten()
}

proof fn lemma_flatten_push<T>(s: Seq<Seq<T>>, v: Seq<T>)
    ensures
        s.push(v).flatten() == s.flatten() + v,
    decreases s.len(),
{
    if s.len() == 0 {
        assert(s.push(v).drop_first() =~= s);
        assert(s.push(v).flatten() == v + s.flatten());
        assert(v + s.flatten() =~= s.flatten() + v);
    } else {
        assert(s.push(v)[0] == s[0]);
        assert(s.push(v).drop_first() =~= s.drop_first().push(v));
        lemma_flatten_push(s.drop_first(), v);
        assert(s.push(v).flatten() == s[0] + (s.drop_first().flatten() + v));
        assert(s[0] + (s.drop_first().flatten() + v) =~= (s[0] + s.drop_first().flatten()) + v);
    }
}

proof fn lemma_batches_flat_push<T>(s: Seq<Vec<T>>, v: Vec<T>)
    ensures
        batches_flat(s.push(v)) == batches_flat(s) + v@,
{
    assert(s.push(v).map_values(|b: Vec<T>| b@) =~= s.map_values(|b: Vec<T>| b@).push(v@));
    lemma_flatten_push(s.map_values(|b: Vec<T>| b@), v@);
}

/// Split records into flush-sized batches: every batch but the last
/// is exactly `batch_size` records, the last is what remains, the
/// concatenation is the input in order, and no batch is empty.
pub fn make_batches<T>(items: Vec<T>, batch_size: usize) -> (r: Vec<Vec<T>>)
    requires
        batch_size >= 1,
    ensures
        batches_flat(r@) == items@,
        forall|i: int| 0 <= i < r@.len() ==> 1 <= (#[trigger] r@[i])@.len() <= batch_size,
        forall|i: int| 0 <= i < r@.len() - 1 ==> (#[trigger] r@[i])@.len() == batch_size,
{
    let ghost all = items@;
    let mut items = items;
    let mut out: Vec<Vec<T>> = Vec::new();
    let mut cur: Vec<T> = Vec::new();
    proof {
        assert(batches_flat(out@) =~= Seq::<T>::empty());
        assert(batches_flat(out@) + cur@ + items@ =~= all);
    }
    while items.len() > 0
        invariant
            batch_size >= 1,
            batches_flat(out@) + cur@ + items@ == all,
            cur@.len() < batch_size,
            forall|i: int| 0 <= i < out@.len() ==> (#[trigger] out@[i])@.len() == batch_size,
        decreases items@.len(),
    {
        let x = items.remove(0);
        let ghost pre_cur = cur@;
        cur.push(x);
        proof {
            assert(batches_flat(out@) + pre_cur.push(x) + items@ =~= batches_flat(out@) + pre_cur
                + (seq![x] + items@));
        }
        if cur.len() == batch_size {
            let full = cur;
            cur = Vec::new();
            let ghost pre_out = out@;
            out.push(full);
            proof {
                lemma_batches_flat_push(pre_out, full);
                assert(batches_flat(out@) + cur@ + items@ =~= (batches_flat(pre_out) + full@)
                    + items@);
                assert((batches_flat(pre_out) + full@) + items@ =~= batches_flat(pre_out) + full@
                    + items@);
            }
        }
    }
    if cur.len() > 0 {
        let ghost pre_out = out@;
        let ghost last = cur@;
        out.push(cur);
        proof {
            lemma_batches_flat_push(pre_out, out@.last());
            assert(batches_flat(out@) =~= batches_flat(pre_out) + last);
            assert(batches_flat(pre_out) + last + Seq::<T>::empty() =~= batches_flat(pre_out)
                + last);
        }
        return out;
    }
    proof {
        assert(batches_flat(out@) + Seq::<T>::empty() + Seq::<T>::empty() =~= batches_flat(out@));
    }
    out
}

proof fn lemma_players_fold_concat(
    teams: Seq<crate::store::TeamModel>,
    players: Seq<crate::store::PlayerModel>,
    a: Seq<crate::records::RosterView>,
    b: Seq<crate::records::RosterView>,
)
    ensures
        upsert_players_fold(teams, players, a + b) == upsert_players_fold(
            teams,
            upsert_players_fold(teams, players, a),
            b,
        ),
    decreases a.len(),
{
    if a.len() == 0 {
        assert(a + b =~= b);
    } else {
        assert((a + b)[0] == a[0]);
        assert((a + b).drop_first() =~= a.drop_first() + b);
        lemma_players_fold_concat(
            teams,
            crate::store::upsert_player_seq(players, crate::store::incoming_player(teams, a[0])),
            a.drop_first(),
            b,
        );
    }
}

proof fn lemma_games_fold_concat(
    teams: Seq<crate::store::TeamModel>,
    games: Seq<crate::store::GameModel>,
    a: Seq<crate::records::GameView>,
    b: Seq<crate::records::GameView>,
)
    ensures
        upsert_games_fold(teams, games, a + b) == upsert_games_fold(
            teams,
            upsert_games_fold(teams, games, a),
            b,
        ),
    decreases a.len(),
{
    if a.len() == 0 {
        assert(a + b =~= b);
    } else {
        assert((a + b)[0] == a[0]);
        assert((a + b).drop_first() =~= a.drop_first() + b);
        lemma_games_fold_concat(
            teams,
            crate::store::upsert_game_seq(games, crate::store::incoming_game(teams, a[0])),
            a.drop_first(),
            b,
        );
    }
}

proof fn lemma_stats_fold_concat(
    players: Seq<crate::store::PlayerModel>,
    stats: Seq<crate::store::StatRow>,
    a: Seq<crate::records::StatView>,
    b: Seq<crate::records::StatView>,
)
    ensures
        upsert_stats_fold(players, stats, a + b) == upsert_stats_fold(
            players,
            upsert_stats_fold(players, stats, a),
            b,
        ),
    decreases a.len(),
{
    if a.len() == 0 {
        assert(a + b =~= b);
    } else {
        assert((a + b)[0] == a[0]);
        assert((a + b).drop_first() =~= a.drop_first() + b);
        lemma_stats_fold_concat(
            players,
            crate::store::upsert_stat_seq(stats, crate::store::incoming_stat(players, a[0])),
            a.drop_first(),
            b,
        );
    }
}

/// Keep only the roster records that draw no hard error; the
/// validator's gate between decoding and persistence.
fn keep_valid_players(recs: Vec<RosterRecord>) -> (r: Vec<RosterRecord>)
    ensures
        roster_views(r@) == valid_rosters(roster_views(recs@)),
{
    let ghost all = roster_views(recs@);
    let validator = DataValidator::new();
    let mut recs = recs;
    let mut out: Vec<RosterRecord> = Vec::new();
    proof {
        assert(roster_views(out@) + valid_rosters(all) =~= valid_rosters(all));
    }
    while recs.len() > 0
        invariant
            roster_views(out@) + valid_rosters(roster_views(recs@)) == valid_rosters(all),
        decreases recs@.len(),
    {
        let ghost pre = roster_views(recs@);
        let x = recs.remove(0);
        let ghost xv = x@;
        proof {
            assert(pre[0] == xv);
            assert(roster_views(recs@) =~= pre.drop_first());
        }
        let ghost a = roster_views(out@);
        if validator.validate_player(&x).is_ok() {
            out.push(x);
            proof {
                assert(valid_rosters(pre) == seq![xv] + valid_rosters(pre.drop_first()));
                assert(roster_views(out@) =~= a.push(xv));
                assert(a.push(xv) + valid_rosters(pre.drop_first()) =~= a + (seq![xv]
                    + valid_rosters(pre.drop_first())));
            }
        } else {
            proof {
                assert(valid_rosters(pre) == valid_rosters(pre.drop_first()));
            }
        }
    }
    proof {
        assert(roster_views(recs@) =~= Seq::<crate::records::RosterView>::empty());
        assert(roster_views(out@) + valid_rosters(Seq::<crate::records::RosterView>::empty())
            =~= roster_views(out@));
    }
    out
}

/// Keep only the game records that draw no hard error.
fn keep_valid_games(recs: Vec<GameRecord>) -> (r: Vec<GameRecord>)
    ensures
        game_views(r@) == valid_games(game_views(recs@)),
{
    let ghost all = game_views(recs@);
    let validator = DataValidator::new();
    let mut recs = recs;
    let mut out: Vec<GameRecord> = Vec::new();
    proof {
        assert(game_views(out@) + valid_games(all) =~= valid_games(all));
    }
    while recs.len() > 0
        invariant
            game_views(out@) + valid_games(game_views(recs@)) == valid_games(all),
        decreases recs@.len(),
    {
        let ghost pre = game_views(recs@);
        let x = recs.remove(0);
        let ghost xv = x@;
        proof {
            assert(pre[0] == xv);
            assert(game_views(recs@) =~= pre.drop_first());
        }
        let ghost a = game_views(out@);
        if validator.validate_game(&x).is_ok() {
            out.push(x);
            proof {
                assert(valid_games(pre) == seq![xv] + valid_games(pre.drop_first()));
                assert(game_views(out@) =~= a.push(xv));
                assert(a.push(xv) + valid_games(pre.drop_first()) =~= a + (seq![xv] + valid_games(
                    pre.drop_first(),
                )));
            }
        } else {
            proof {
                assert(valid_games(pre) == valid_games(pre.drop_first()));
            }
        }
    }
    proof {
        assert(game_views(recs@) =~= Seq::<crate::records::GameView>::empty());
        assert(game_views(out@) + valid_games(Seq::<crate::records::GameView>::empty())
            =~= game_views(out@));
    }
    out
}

/// Keep only the stat records that draw no hard error.
fn keep_valid_stats(recs: Vec<StatRecord>) -> (r: Vec<StatRecord>)
    ensures
        stat_views(r@) == valid_stats(stat_views(recs@)),
{
    let ghost all = stat_views(recs@);
    let validator = DataValidator::new();
    let mut recs = recs;
    let mut out: Vec<StatRecord> = Vec::new();
    proof {
        assert(stat_views(out@) + valid_stats(all) =~= valid_stats(all));
    }
    while recs.len() > 0
        invariant
            stat_views(out@) + valid_stats(stat_views(recs@)) == valid_stats(all),
        decreases recs@.len(),
    {
        let ghost pre = stat_views(recs@);
        let x = recs.remove(0);
        let ghost xv = x@;
        proof {
            assert(pre[0] == xv);
            assert(stat_views(recs@) =~= pre.drop_first());
        }
        let ghost a = stat_views(out@);
        if validator.validate_stat(&x).is_ok() {
            out.push(x);
            proof {
                assert(valid_stats(pre) == seq![xv] + valid_stats(pre.drop_first()));
                assert(stat_views(out@) =~= a.push(xv));
                assert(a.push(xv) + valid_stats(pre.drop_first()) =~= a + (seq![xv] + valid_stats(
                    pre.drop_first(),
                )));
            }
        } else {
            proof {
                assert(valid_stats(pre) == valid_stats(pre.drop_first()));
            }
        }
    }
    proof {
        assert(stat_views(recs@) =~= Seq::<crate::records::StatView>::empty());
        assert(stat_views(out@) + valid_stats(Seq::<crate::records::StatView>::empty())
            =~= stat_views(out@));
    }
    out
}

/// Import one season's roster document: decode it, drop the records
/// the validator rejects, upsert the rest in source order in
/// flush-sized batches, and — outside dry run — record completion
/// with the imported count. Returns how many records were imported.
pub fn import_rosters(
    store: &mut Store,
    doc: &str,
    season: i32,
    batch_size: usize,
    dry_run: bool,
) -> (r: usize)
    requires
        old(store).wf(),
        batch_size >= 1,
    ensures
        final(store).wf(),
        r as int == valid_rosters(parser::doc_rosters(doc@)).len(),
        dry_run ==> *final(store) == *old(store),
        !dry_run ==> final(store).players_model() == upsert_players_fold(
            old(store).teams_model(),
            old(store).players_model(),
            valid_rosters(parser::doc_rosters(doc@)),
        ) && final(store).progress@ == upsert_progress_seq(
            old(store).progress@,
            ProgressRow {
                season,
                data_type: DataCategory::Rosters,
                status: ImportStatus::Completed,
                records_imported: r as u64,
            },
        ) && final(store).teams == old(store).teams && final(store).games == old(store).games
            && final(store).stats == old(store).stats,
{
    let (decoded, _skipped) = parser::decode_roster_doc(doc);
    let records = keep_valid_players(decoded);
    let total = records.len();
    let batches = make_batches(records, batch_size);
    let ghost teams0 = store.teams_model();
    let ghost players0 = store.players_model();
    let n = batches.len();
    let mut i: usize = 0;
    proof {
        assert(roster_views(batches_flat(batches@.take(0))) =~= Seq::<
            crate::records::RosterView,
        >::empty());
        assert(batches_flat(batches@.take(0)) =~= Seq::<RosterRecord>::empty());
    }
    while i < n
        invariant
            n == batches@.len(),
            i <= n,
            store.wf(),
            teams0 == old(store).teams_model(),
            players0 == old(store).players_model(),
            store.teams == old(store).teams,
            store.games == old(store).games,
            store.stats == old(store).stats,
            store.progress == old(store).progress,
            dry_run ==> *store == *old(store),
            !dry_run ==> store.players_model() == upsert_players_fold(
                teams0,
                players0,
                roster_views(batches_flat(batches@.take(i as int))),
            ),
        decreases n - i,
    {
        let ghost pre_flat = batches_flat(batches@.take(i as int));
        store.upsert_players_batch(batches[i].as_slice(), dry_run);
        proof {
            assert(batches@.take(i + 1) =~= batches@.take(i as int).push(batches@[i as int]));
            lemma_batches_flat_push(batches@.take(i as int), batches@[i as int]);
            assert(roster_views(pre_flat + batches@[i as int]@) =~= roster_views(pre_flat)
                + roster_views(batches@[i as int]@));
            lemma_players_fold_concat(
                teams0,
                players0,
                roster_views(pre_flat),
                roster_views(batches@[i as int]@),
            );
        }
        i += 1;
    }
    proof {
        assert(batches@.take(n as int) =~= batches@);
        assert(roster_views(batches_flat(batches@)) =~= valid_rosters(parser::doc_rosters(doc@)));
    }
    if !dry_run {
        store.mark_progress(
            season,
            DataCategory::Rosters,
            ImportStatus::Completed,
            total as u64,
        );
    }
    total
}

/// Import one season's schedule document: only regular-season games
/// that pass validation are persisted; games whose teams do not
/// resolve are dropped by the upsert itself.
pub fn import_schedule(
    store: &mut Store,
    doc: &str,
    season: i32,
    batch_size: usize,
    dry_run: bool,
) -> (r: usize)
    requires
        old(store).wf(),
        batch_size >= 1,
    ensures
        final(store).wf(),
        r as int == valid_games(parser::doc_games_reg(doc@)).len(),
        dry_run ==> *final(store) == *old(store),
        !dry_run ==> final(store).games_model() == upsert_games_fold(
            old(store).teams_model(),
            old(store).games_model(),
            valid_games(parser::doc_games_reg(doc@)),
        ) && final(store).progress@ == upsert_progress_seq(
            old(store).progress@,
            ProgressRow {
                season,
                data_type: DataCategory::Schedule,
                status: ImportStatus::Completed,
                records_imported: r as u64,
            },
        ) && final(store).teams == old(store).teams && final(store).players == old(store).players
            && final(store).stats == old(store).stats,
{
    let (decoded, _skipped) = parser::decode_schedule_doc(doc);
    let records = keep_valid_games(decoded);
    let total = records.len();
    let batches = make_batches(records, batch_size);
    let ghost teams0 = store.teams_model();
    let ghost games0 = store.games_model();
    let n = batches.len();
    let mut i: usize = 0;
    proof {
        assert(game_views(batches_flat(batches@.take(0))) =~= Seq::<
            crate::records::GameView,
        >::empty());
        assert(batches_flat(batches@.take(0)) =~= Seq::<GameRecord>::empty());
    }
    while i < n
        invariant
            n == batches@.len(),
            i <= n,
            store.wf(),
            teams0 == old(store).teams_model(),
            games0 == old(store).games_model(),
            store.teams == old(store).teams,
            store.players == old(store).players,
            store.stats == old(store).stats,
            store.progress == old(store).progress,
            dry_run ==> *store == *old(store),
            !dry_run ==> store.games_model() == upsert_games_fold(
                teams0,
                games0,
                game_views(batches_flat(batches@.take(i as int))),
            ),
        decreases n - i,
    {
        let ghost pre_flat = batches_flat(batches@.take(i as int));
        store.upsert_games_batch(batches[i].as_slice(), dry_run);
        proof {
            assert(batches@.take(i + 1) =~= batches@.take(i as int).push(batches@[i as int]));
            lemma_batches_flat_push(batches@.take(i as int), batches@[i as int]);
            assert(game_views(pre_flat + batches@[i as int]@) =~= game_views(pre_flat)
                + game_views(batches@[i as int]@));
            lemma_games_fold_concat(
                teams0,
                games0,
                game_views(pre_flat),
                game_views(batches@[i as int]@),
            );
        }
        i += 1;
    }
    proof {
        assert(batches@.take(n as int) =~= batches@);
        assert(game_views(batches_flat(batches@)) =~= valid_games(parser::doc_games_reg(doc@)));
    }
    if !dry_run {
        store.mark_progress(
            season,
            DataCategory::Schedule,
            ImportStatus::Completed,
            total as u64,
        );
    }
    total
}

/// Import one season's player-stat document: only regular-season
/// lines that pass validation are persisted; lines whose player does
/// not resolve are dropped by the upsert itself.
pub fn import_player_stats(
    store: &mut Store,
    doc: &str,
    season: i32,
    batch_size: usize,
    dry_run: bool,
) -> (r: usize)
    requires
        old(store).wf(),
        batch_size >= 1,
    ensures
        final(store).wf(),
        r as int == valid_stats(parser::doc_stats_reg(doc@)).len(),
        dry_run ==> *final(store) == *old(store),
        !dry_run ==> final(store).stats@ == upsert_stats_fold(
            old(store).players_model(),
            old(store).stats@,
            valid_stats(parser::doc_stats_reg(doc@)),
        ) && final(store).progress@ == upsert_progress_seq(
            old(store).progress@,
            ProgressRow {
                season,
                data_type: DataCategory::PlayerStats,
                status: ImportStatus::Completed,
                records_imported: r as u64,
            },
        ) && final(store).teams == old(store).teams && final(store).players == old(store).players
            && final(store).games == old(store).games,
{
    let (decoded, _skipped) = parser::decode_stats_doc(doc);
    let records = keep_valid_stats(decoded);
    let total = records.len();
    let batches = make_batches(records, batch_size);
    let ghost players0 = store.players_model();
    let ghost stats0 = store.stats@;
    let n = batches.len();
    let mut i: usize = 0;
    proof {
        assert(stat_views(batches_flat(batches@.take(0))) =~= Seq::<
            crate::records::StatView,
        >::empty());
        assert(batches_flat(batches@.take(0)) =~= Seq::<StatRecord>::empty());
    }
    while i < n
        invariant
            n == batches@.len(),
            i <= n,
            store.wf(),
            players0 == old(store).players_model(),
            stats0 == old(store).stats@,
            store.teams == old(store).teams,
            store.players == old(store).players,
            store.games == old(store).games,
            store.progress == old(store).progress,
            dry_run ==> *store == *old(store),
            !dry_run ==> store.stats@ == upsert_stats_fold(
                players0,
                stats0,
                stat_views(batches_flat(batches@.take(i as int))),
            ),
        decreases n - i,
    {
        let ghost pre_flat = batches_flat(batches@.take(i as int));
        store.upsert_stats_batch(batches[i].as_slice(), dry_run);
        proof {
            assert(batches@.take(i + 1) =~= batches@.take(i as int).push(batches@[i as int]));
            lemma_batches_flat_push(batches@.take(i as int), batches@[i as int]);
            assert(stat_views(pre_flat + batches@[i as int]@) =~= stat_views(pre_flat)
                + stat_views(batches@[i as int]@));
            lemma_stats_fold_concat(
                players0,
                stats0,
                stat_views(pre_flat),
                stat_views(batches@[i as int]@),
            );
        }
        i += 1;
    }
    proof {
        assert(batches@.take(n as int) =~= batches@);
        assert(stat_views(batches_flat(batches@)) =~= valid_stats(parser::doc_stats_reg(doc@)));
    }
    if !dry_run {
        store.mark_progress(
            season,
            DataCategory::PlayerStats,
            ImportStatus::Completed,
            total as u64,
        );
    }
    total
}

/// Where a season's import stands. Categories are visited in a fixed
/// order; next-gen stats only exist from 2016 onwards.
#[derive(Clone, Copy, Debug, PartialEq, Eq, Structural)]
pub enum SeasonPhase {
    Pending,
    FetchingRosters,
    FetchingStats,
    FetchingNgs,
    Completed,
}

/// The transition table of a season's import: rosters, then stats,
/// then next-gen stats when the season has them, then done.
pub open spec fn next_phase_spec(p: SeasonPhase, season: i32) -> SeasonPhase {
    match p {
        SeasonPhase::Pending => SeasonPhase::FetchingRosters,
        SeasonPhase::FetchingRosters => SeasonPhase::FetchingStats,
        SeasonPhase::FetchingStats => if season >= NGS_MIN_SEASON {
            SeasonPhase::FetchingNgs
        } else {
            SeasonPhase::Completed
        },
        SeasonPhase::FetchingNgs => SeasonPhase::Completed,
        SeasonPhase::Completed => SeasonPhase::Completed,
    }
}

/// Advance a season's import one phase.
pub fn next_phase(p: SeasonPhase, season: i32) -> (r: SeasonPhase)
    ensures
        r == next_phase_spec(p, season),
{
    match p {
        SeasonPhase::Pending => SeasonPhase::FetchingRosters,
        SeasonPhase::FetchingRosters => SeasonPhase::FetchingStats,
        SeasonPhase::FetchingStats => {
            if season >= NGS_MIN_SEASON {
                SeasonPhase::FetchingNgs
            } else {
                SeasonPhase::Completed
            }
        },
        SeasonPhase::FetchingNgs => SeasonPhase::Completed,
        SeasonPhase::Completed => SeasonPhase::Completed,
    }
}

/// The category a phase fetches, if it fetches one.
pub fn phase_category(p: SeasonPhase) -> (r: Option<DataCategory>)
    ensures
        r == (match p {
            SeasonPhase::Pending => None::<DataCategory>,
            SeasonPhase::FetchingRosters => Some(DataCategory::Rosters),
            SeasonPhase::FetchingStats => Some(DataCategory::PlayerStats),
            SeasonPhase::FetchingNgs => Some(DataCategory::NgsPassing),
            SeasonPhase::Completed => None::<DataCategory>,
        }),
{
    match p {
        SeasonPhase::Pending => None,
        SeasonPhase::FetchingRosters => Some(DataCategory::Rosters),
        SeasonPhase::FetchingStats => Some(DataCategory::PlayerStats),
        SeasonPhase::FetchingNgs => Some(DataCategory::NgsPassing),
        SeasonPhase::Completed => None,
    }
}

/// The seasons a full import visits, first to last.
pub fn seasons_in_range(start_year: i32, end_year: i32) -> (r: Vec<i32>)
    ensures
        start_year > end_year ==> r@.len() == 0,
        start_year <= end_year ==> r@.len() == end_year - start_year + 1,
        forall|i: int| 0 <= i < r@.len() ==> r@[i] == start_year + i,
{
    let mut out: Vec<i32> = Vec::new();
    if start_year > end_year {
        return out;
    }
    let mut y = start_year;
    while y < end_year
        invariant
            start_year <= y <= end_year,
            out@.len() == y - start_year,
            forall|j: int| 0 <= j < out@.len() ==> out@[j] == start_year + j,
        decreases end_year - y,
    {
        out.push(y);
        y += 1;
    }
    out.push(y);
    out
}

/// The run modes the pipeline knows.
#[derive(Clone, Copy, Debug, PartialEq, Eq, Structural)]
pub enum RunMode {
    Full,
    Year,
    Update,
    Validate,
}

/// How a mode string reads: exactly one of the four known words, or
/// nothing.
pub open spec fn mode_of(s: Seq<char>) -> Option<RunMode> {
    if s == "full"@ {
        Some(RunMode::Full)
    } else if s == "year"@ {
        Some(RunMode::Year)
    } else if s == "update"@ {
        Some(RunMode::Update)
    } else if s == "validate"@ {
        Some(RunMode::Validate)
    } else {
        None
    }
}

/// Parse a mode word; an unknown word yields nothing, on which the
/// caller exits with an error.
pub fn parse_mode(s: &str) -> (r: Option<RunMode>)
    ensures
        r == mode_of(s@),
{
    if text::str_eq(s, "full") {
        Some(RunMode::Full)
    } else if text::str_eq(s, "year") {
        Some(RunMode::Year)
    } else if text::str_eq(s, "update") {
        Some(RunMode::Update)
    } else if text::str_eq(s, "validate") {
        Some(RunMode::Validate)
    } else {
        None
    }
}

/// Relies on chrono's Utc::now and Datelike::year for the current UTC
/// calendar year, which the update mode re-imports. The result
/// depends on the clock, so nothing is promised of it; the system
/// clock is assumed to read at or after the Unix epoch, as chrono's
/// now requires.
#[verifier::external_body]
pub fn current_utc_year() -> i32 {
    chrono::Datelike::year(&chrono::Utc::now())
}

/// The per-season report of the read-only validate mode: for each
/// season of the range, the stored game and stat counts.
pub fn validation_counts(store: &Store, start_year: i32, end_year: i32) -> (r: Vec<
    (i32, usize, usize),
>)
    ensures
        start_year > end_year ==> r@.len() == 0,
        start_year <= end_year ==> r@.len() == end_year - start_year + 1,
        forall|i: int|
            0 <= i < r@.len() ==> (#[trigger] r@[i]) == (
                (start_year + i) as i32,
                crate::store::count_season_games(
                    store.games_model(),
                    (start_year + i) as i32,
                ) as usize,
                crate::store::count_season_stats(store.stats@, (start_year + i) as i32) as usize,
            ),
{
    let seasons = seasons_in_range(start_year, end_year);
    let n = seasons.len();
    let mut out: Vec<(i32, usize, usize)> = Vec::new();
    let mut i: usize = 0;
    while i < n
        invariant
            n == seasons@.len(),
            i <= n,
            out@.len() == i,
            forall|j: int| 0 <= j < n ==> seasons@[j] == start_year + j,
            forall|j: int|
                0 <= j < i ==> (#[trigger] out@[j]) == (
                    (start_year + j) as i32,
                    crate::store::count_season_games(
                        store.games_model(),
                        (start_year + j) as i32,
                    ) as usize,
                    crate::store::count_season_stats(store.stats@, (start_year + j) as i32) as usize,
                ),
        decreases n - i,
    {
        let season = seasons[i];
        let games = store.count_games(season);
        let stats = store.count_game_stats(season);
        out.push((season, games, stats));
        i += 1;
    }
    out
}

} // verus!
