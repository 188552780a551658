//! An exact model of the relational store the pipeline writes to:
//! reference teams, players, games, weekly stats and per-category
//! import progress, each written through a natural-key upsert that
//! preserves row identity. The storage backend is expected to
//! implement exactly these semantics; everything the pipeline proves
//! about batching, idempotence and dependency resolution is stated
//! against this model.
use vstd::prelude::*;
use vstd::string::*;

use crate::fetch::DataCategory;
use crate::records::{GameRecord, GameView, RosterRecord, RosterView, StatRecord, StatView};
use crate::text::str_eq;
use crate::transform;

verus! {

/// A reference team row: surrogate id and its natural key, the
/// current abbreviation.
#[derive(Debug, PartialEq)]
pub struct TeamRow {
    pub id: u64,
    pub abbreviation: String,
}

/// The mathematical image of a team row.
#[verifier::ext_equal]
pub struct TeamModel {
    pub id: u64,
    pub abbreviation: Seq<char>,
}

impl View for TeamRow {
    type V = TeamModel;

    open spec fn view(&self) -> TeamModel {
        TeamModel { id: self.id, abbreviation: self.abbreviation@ }
    }
}

/// A player row; the natural key is `nfl_id`.
#[derive(Debug, PartialEq)]
pub struct PlayerRow {
    pub id: u64,
    pub nfl_id: String,
    pub name: String,
    pub position: String,
    pub team_id: Option<u64>,
    pub jersey_number: Option<i32>,
    pub height_inches: Option<i32>,
    pub weight_pounds: Option<i32>,
    pub college: Option<String>,
    pub status: String,
}

/// The mathematical image of a player row.
#[verifier::ext_equal]
pub struct PlayerModel {
    pub id: u64,
    pub nfl_id: Seq<char>,
    pub name: Seq<char>,
    pub position: Seq<char>,
    pub team_id: Option<u64>,
    pub jersey_number: Option<i32>,
    pub height_inches: Option<i32>,
    pub weight_pounds: Option<i32>,
    pub college: Option<Seq<char>>,
    pub status: Seq<char>,
}

impl View for PlayerRow {
    type V = PlayerModel;

    open spec fn view(&self) -> PlayerModel {
        PlayerModel {
            id: self.id,
            nfl_id: self.nfl_id@,
            name: self.name@,
            position: self.position@,
            team_id: self.team_id,
            jersey_number: self.jersey_number,
            height_inches: self.height_inches,
            weight_pounds: self.weight_pounds,
            college: crate::records::opt_str_view(self.college),
            status: self.status@,
        }
    }
}

/// A game row; the natural key is `nfl_game_id`.
#[derive(Debug, PartialEq)]
pub struct GameRow {
    pub id: u64,
    pub nfl_game_id: String,
    pub season: i32,
    pub week: i32,
    pub game_date: String,
    pub home_team_id: u64,
    pub away_team_id: u64,
    pub home_score: Option<i32>,
    pub away_score: Option<i32>,
    pub status: String,
}

/// The mathematical image of a game row.
#[verifier::ext_equal]
pub struct GameModel {
    pub id: u64,
    pub nfl_game_id: Seq<char>,
    pub season: i32,
    pub week: i32,
    pub game_date: Seq<char>,
    pub home_team_id: u64,
    pub away_team_id: u64,
    pub home_score: Option<i32>,
    pub away_score: Option<i32>,
    pub status: Seq<char>,
}

impl View for GameRow {
    type V = GameModel;

    open spec fn view(&self) -> GameModel {
        GameModel {
            id: self.id,
            nfl_game_id: self.nfl_game_id@,
            season: self.season,
            week: self.week,
            game_date: self.game_date@,
            home_team_id: self.home_team_id,
            away_team_id: self.away_team_id,
            home_score: self.home_score,
            away_score: self.away_score,
            status: self.status@,
        }
    }
}

/// A weekly stat row; the natural key is (player, season, week). All
/// fields are plain values, so the row is its own model.
#[derive(Clone, Copy, Debug, PartialEq, Eq, Structural)]
pub struct StatRow {
    pub id: u64,
    pub player_id: u64,
    pub season: i32,
    pub week: i32,
    pub passing_yards: Option<i32>,
    pub rushing_yards: Option<i32>,
    pub receiving_yards: Option<i32>,
    pub passing_tds: Option<i32>,
    pub rushing_tds: Option<i32>,
    pub receiving_tds: Option<i32>,
    pub receptions: Option<i32>,
    pub targets: Option<i32>,
    pub attempts: Option<i32>,
    pub completions: Option<i32>,
    pub interceptions: Option<i32>,
}

/// The status a finished category import records.
#[derive(Clone, Copy, Debug, PartialEq, Eq, Structural)]
pub enum ImportStatus {
    Completed,
    Failed,
}

/// One import-progress row, keyed by (season, category). All fields
/// are plain values, so the row is its own model.
#[derive(Clone, Copy, Debug, PartialEq, Eq, Structural)]
pub struct ProgressRow {
    pub season: i32,
    pub data_type: DataCategory,
    pub status: ImportStatus,
    pub records_imported: u64,
}

/// The in-memory store.
#[derive(Debug, PartialEq)]
pub struct Store {
    pub teams: Vec<TeamRow>,
    pub players: Vec<PlayerRow>,
    pub games: Vec<GameRow>,
    pub stats: Vec<StatRow>,
    pub progress: Vec<ProgressRow>,
}

/// Surrogate ids are the row's position, so they are unique and
/// stable: an update never moves a row, only a fresh insert appends.
pub open spec fn team_ids_ok(s: Seq<TeamModel>) -> bool {
    forall|i: int| 0 <= i < s.len() ==> (#[trigger] s[i]).id == i as u64
}

pub open spec fn team_keys_unique(s: Seq<TeamModel>) -> bool {
    forall|i: int, j: int|
        0 <= i < j < s.len() ==> (#[trigger] s[i]).abbreviation != (#[trigger] s[j]).abbreviation
}

pub open spec fn player_ids_ok(s: Seq<PlayerModel>) -> bool {
    forall|i: int| 0 <= i < s.len() ==> (#[trigger] s[i]).id == i as u64
}

pub open spec fn player_keys_unique(s: Seq<PlayerModel>) -> bool {
    forall|i: int, j: int|
        0 <= i < j < s.len() ==> (#[trigger] s[i]).nfl_id != (#[trigger] s[j]).nfl_id
}

pub open spec fn game_ids_ok(s: Seq<GameModel>) -> bool {
    forall|i: int| 0 <= i < s.len() ==> (#[trigger] s[i]).id == i as u64
}

pub open spec fn game_keys_unique(s: Seq<GameModel>) -> bool {
    forall|i: int, j: int|
        0 <= i < j < s.len() ==> (#[trigger] s[i]).nfl_game_id != (#[trigger] s[j]).nfl_game_id
}

/// The (player, season, week) key of a stat row.
pub open spec fn stat_key(r: StatRow) -> (u64, i32, i32) {
    (r.player_id, r.season, r.week)
}

pub open spec fn stat_ids_ok(s: Seq<StatRow>) -> bool {
    forall|i: int| 0 <= i < s.len() ==> (#[trigger] s[i]).id == i as u64
}

pub open spec fn stat_keys_unique(s: Seq<StatRow>) -> bool {
    forall|i: int, j: int|
        0 <= i < j < s.len() ==> stat_key(#[trigger] s[i]) != stat_key(#[trigger] s[j])
}

/// The (season, category) key of a progress row.
pub open spec fn progress_key(r: ProgressRow) -> (i32, DataCategory) {
    (r.season, r.data_type)
}

pub open spec fn progress_keys_unique(s: Seq<ProgressRow>) -> bool {
    forall|i: int, j: int|
        0 <= i < j < s.len() ==> progress_key(#[trigger] s[i]) != progress_key(#[trigger] s[j])
}

/// Resolve a team id by abbreviation: the id of the row carrying that
/// natural key, if one does.
pub open spec fn team_lookup(teams: Seq<TeamModel>, abbr: Seq<char>) -> Option<u64> {
    if exists|i: int| 0 <= i < teams.len() && (#[trigger] teams[i]).abbreviation == abbr {
        let i = choose|i: int| 0 <= i < teams.len() && (#[trigger] teams[i]).abbreviation == abbr;
        Some(teams[i].id)
    } else {
        None
    }
}

/// Resolve a player id by external id.
pub open spec fn player_lookup(players: Seq<PlayerModel>, nfl_id: Seq<char>) -> Option<u64> {
    if exists|i: int| 0 <= i < players.len() && (#[trigger] players[i]).nfl_id == nfl_id {
        let i = choose|i: int|
            0 <= i < players.len() && (#[trigger] players[i]).nfl_id == nfl_id;
        Some(players[i].id)
    } else {
        None
    }
}

/// The player fields an incoming roster record writes: the team code
/// normalized then resolved against the reference teams, the height
/// converted to inches, a missing status defaulted to "active". The
/// id is settled by the upsert itself.
pub open spec fn incoming_player(teams: Seq<TeamModel>, r: RosterView) -> PlayerModel {
    PlayerModel {
        id: 0,
        nfl_id: r.gsis_id,
        name: r.full_name,
        position: r.position,
        team_id: team_lookup(teams, transform::normalize_team_spec(r.team)),
        jersey_number: r.jersey_number,
        height_inches: height_opt(r.height),
        weight_pounds: r.weight,
        college: r.college,
        status: status_or_active(r.status),
    }
}

/// Height converted to inches, unknown when absent or malformed.
pub open spec fn height_opt(h: Option<Seq<char>>) -> Option<i32> {
    match h {
        Some(s) => match transform::height_spec(s) {
            Some(v) => Some(v as i32),
            None => None,
        },
        None => None,
    }
}

/// A missing status defaults to "active".
pub open spec fn status_or_active(o: Option<Seq<char>>) -> Seq<char> {
    match o {
        Some(s) => s,
        None => "active"@,
    }
}

/// The upsert: when a row already carries the incoming natural key,
/// every field but the identity is overwritten in place; otherwise a
/// fresh row is appended with the next id.
pub open spec fn upsert_player_seq(players: Seq<PlayerModel>, inc: PlayerModel) -> Seq<
    PlayerModel,
> {
    if exists|i: int| 0 <= i < players.len() && (#[trigger] players[i]).nfl_id == inc.nfl_id {
        let i = choose|i: int|
            0 <= i < players.len() && (#[trigger] players[i]).nfl_id == inc.nfl_id;
        players.update(i, PlayerModel { id: players[i].id, ..inc })
    } else {
        players.push(PlayerModel { id: players.len() as u64, ..inc })
    }
}

impl Store {
    /// The store's teams, as mathematical values.
    pub open spec fn teams_model(self) -> Seq<TeamModel> {
        self.teams@.map_values(|r: TeamRow| r@)
    }

    /// The store's players, as mathematical values.
    pub open spec fn players_model(self) -> Seq<PlayerModel> {
        self.players@.map_values(|r: PlayerRow| r@)
    }

    /// The store's games, as mathematical values.
    pub open spec fn games_model(self) -> Seq<GameModel> {
        self.games@.map_values(|r: GameRow| r@)
    }

    /// Natural keys are unique in every table and surrogate ids are
    /// stable row positions.
    pub open spec fn wf(self) -> bool {
        &&& team_ids_ok(self.teams_model())
        &&& team_keys_unique(self.teams_model())
        &&& player_ids_ok(self.players_model())
        &&& player_keys_unique(self.players_model())
        &&& game_ids_ok(self.games_model())
        &&& game_keys_unique(self.games_model())
        &&& stat_ids_ok(self.stats@)
        &&& stat_keys_unique(self.stats@)
        &&& progress_keys_unique(self.progress@)
    }

    /// A fresh, empty store.
    pub fn new() -> (r: Store)
        ensures
            r.wf(),
            r.teams_model() == Seq::<TeamModel>::empty(),
            r.players_model() == Seq::<PlayerModel>::empty(),
            r.games_model() == Seq::<GameModel>::empty(),
            r.stats@ == Seq::<StatRow>::empty(),
            r.progress@ == Seq::<ProgressRow>::empty(),
    {
        let r = Store {
            teams: Vec::new(),
            players: Vec::new(),
            games: Vec::new(),
            stats: Vec::new(),
            progress: Vec::new(),
        };
        proof {
            assert(r.teams_model() =~= Seq::<TeamModel>::empty());
            assert(r.players_model() =~= Seq::<PlayerModel>::empty());
            assert(r.games_model() =~= Seq::<GameModel>::empty());
        }
        r
    }

    /// Seed one reference team; an abbreviation already present is
    /// left alone.
    pub fn add_team(&mut self, abbreviation: String)
        requires
            old(self).wf(),
        ensures
            final(self).wf(),
            final(self).teams_model() == (if team_lookup(
                old(self).teams_model(),
                abbreviation@,
            ) is Some {
                old(self).teams_model()
            } else {
                old(self).teams_model().push(
                    TeamModel {
                        id: old(self).teams_model().len() as u64,
                        abbreviation: abbreviation@,
                    },
                )
            }),
            final(self).players == old(self).players,
            final(self).games == old(self).games,
            final(self).stats == old(self).stats,
            final(self).progress == old(self).progress,
    {
        if let Some(i) = self.find_team(abbreviation.as_str()) {
            proof {
                assert(self.teams_model()[i as int].abbreviation == abbreviation@);
            }
            return ;
        }
        let id = self.teams.len() as u64;
        let ghost pre = self.teams_model();
        self.teams.push(TeamRow { id, abbreviation });
        proof {
            assert(self.teams_model() =~= pre.push(
                TeamModel { id: pre.len() as u64, abbreviation: self.teams@.last().abbreviation@ },
            ));
        }
    }

    /// The index of the team carrying an abbreviation, if any.
    fn find_team(&self, abbr: &str) -> (r: Option<usize>)
        ensures
            match r {
                Some(i) => i < self.teams@.len() && self.teams@[i as int]@.abbreviation == abbr@,
                None => forall|i: int|
                    0 <= i < self.teams@.len() ==> (#[trigger] self.teams@[i])@.abbreviation
                        != abbr@,
            },
    {
        let n = self.teams.len();
        let mut i: usize = 0;
        while i < n
            invariant
                n == self.teams@.len(),
                i <= n,
                forall|j: int|
                    0 <= j < i ==> (#[trigger] self.teams@[j])@.abbreviation != abbr@,
            decreases n - i,
        {
            if str_eq(self.teams[i].abbreviation.as_str(), abbr) {
                return Some(i);
            }
            i += 1;
        }
        None
    }

    /// Resolve a team id by abbreviation.
    pub fn get_team_id_by_abbr(&self, abbr: &str) -> (r: Option<u64>)
        requires
            self.wf(),
        ensures
            r == team_lookup(self.teams_model(), abbr@),
    {
        match self.find_team(abbr) {
            Some(i) => {
                proof {
                    let m = self.teams_model();
                    assert(m[i as int].abbreviation == abbr@);
                    let c = choose|k: int|
                        0 <= k < m.len() && (#[trigger] m[k]).abbreviation == abbr@;
                    assert(c == i as int);
                }
                Some(self.teams[i].id)
            },
            None => {
                proof {
                    let m = self.teams_model();
                    assert(forall|k: int|
                        0 <= k < m.len() ==> (#[trigger] m[k]).abbreviation != abbr@);
                }
                None
            },
        }
    }

    /// The index of the player carrying an external id, if any.
    fn find_player(&self, nfl_id: &str) -> (r: Option<usize>)
        ensures
            match r {
                Some(i) => i < self.players@.len() && self.players@[i as int]@.nfl_id == nfl_id@,
                None => forall|i: int|
                    0 <= i < self.players@.len() ==> (#[trigger] self.players@[i])@.nfl_id
                        != nfl_id@,
            },
    {
        let n = self.players.len();
        let mut i: usize = 0;
        while i < n
            invariant
                n == self.players@.len(),
                i <= n,
                forall|j: int| 0 <= j < i ==> (#[trigger] self.players@[j])@.nfl_id != nfl_id@,
            decreases n - i,
        {
            if str_eq(self.players[i].nfl_id.as_str(), nfl_id) {
                return Some(i);
            }
            i += 1;
        }
        None
    }

    /// Resolve a player id by external id.
    pub fn get_player_id_by_nfl_id(&self, nfl_id: &str) -> (r: Option<u64>)
        requires
            self.wf(),
        ensures
            r == player_lookup(self.players_model(), nfl_id@),
    {
        match self.find_player(nfl_id) {
            Some(i) => {
                proof {
                    let m = self.players_model();
                    assert(m[i as int].nfl_id == nfl_id@);
                    let c = choose|k: int| 0 <= k < m.len() && (#[trigger] m[k]).nfl_id == nfl_id@;
                    assert(c == i as int);
                }
                Some(self.players[i].id)
            },
            None => {
                proof {
                    let m = self.players_model();
                    assert(forall|k: int| 0 <= k < m.len() ==> (#[trigger] m[k]).nfl_id != nfl_id@);
                }
                None
            },
        }
    }

    /// Insert or update one player by natural key: the team code is
    /// normalized and resolved, the height converted, and every
    /// non-identity field overwritten; the surrogate id of an existing
    /// row survives.
    pub fn upsert_player(&mut self, rec: &RosterRecord)
        requires
            old(self).wf(),
        ensures
            final(self).wf(),
            final(self).players_model() == upsert_player_seq(
                old(self).players_model(),
                incoming_player(old(self).teams_model(), (*rec)@),
            ),
            final(self).teams == old(self).teams,
            final(self).games == old(self).games,
            final(self).stats == old(self).stats,
            final(self).progress == old(self).progress,
    {
        let team_abbr = transform::normalize_team_abbr(rec.team.as_str());
        let team_id = self.get_team_id_by_abbr(team_abbr.as_str());
        let height_inches = match &rec.height {
            Some(h) => transform::height_to_inches(h.as_str()),
            None => None,
        };
        let status = match &rec.status {
            Some(s) => s.clone(),
            None => String::from_str("active"),
        };
        let college = match &rec.college {
            Some(c) => Some(c.clone()),
            None => None,
        };
        let ghost pre = self.players_model();
        let ghost inc = incoming_player(old(self).teams_model(), (*rec)@);
        match self.find_player(rec.gsis_id.as_str()) {
            Some(i) => {
                let keep_id = self.players[i].id;
                let row = PlayerRow {
                    id: keep_id,
                    nfl_id: rec.gsis_id.clone(),
                    name: rec.full_name.clone(),
                    position: rec.position.clone(),
                    team_id,
                    jersey_number: rec.jersey_number,
                    height_inches,
                    weight_pounds: rec.weight,
                    college,
                    status,
                };
                proof {
                    assert(row@ =~= PlayerModel { id: pre[i as int].id, ..inc });
                }
                self.players[i] = row;
                proof {
                    assert(self.players_model() =~= pre.update(
                        i as int,
                        PlayerModel { id: pre[i as int].id, ..inc },
                    ));
                    let c = choose|k: int|
                        0 <= k < pre.len() && (#[trigger] pre[k]).nfl_id == inc.nfl_id;
                    assert(pre[i as int].nfl_id == inc.nfl_id);
                    assert(c == i as int);
                    assert(self.players_model() =~= upsert_player_seq(pre, inc));
                }
            },
            None => {
                let id = self.players.len() as u64;
                let row = PlayerRow {
                    id,
                    nfl_id: rec.gsis_id.clone(),
                    name: rec.full_name.clone(),
                    position: rec.position.clone(),
                    team_id,
                    jersey_number: rec.jersey_number,
                    height_inches,
                    weight_pounds: rec.weight,
                    college,
                    status,
                };
                proof {
                    assert(row@ =~= PlayerModel { id: pre.len() as u64, ..inc });
                    assert(!(exists|k: int|
                        0 <= k < pre.len() && (#[trigger] pre[k]).nfl_id == inc.nfl_id));
                }
                self.players.push(row);
                proof {
                    assert(self.players_model() =~= pre.push(
                        PlayerModel { id: pre.len() as u64, ..inc },
                    ));
                }
            },
        }
    }
}

/// The game fields an incoming schedule record writes, provided both
/// team codes resolve; when either does not, the record is dropped.
/// A persisted game's status is always "final".
pub open spec fn incoming_game(teams: Seq<TeamModel>, g: GameView) -> Option<GameModel> {
    let home = team_lookup(teams, transform::normalize_team_spec(g.home_team));
    let away = team_lookup(teams, transform::normalize_team_spec(g.away_team));
    match (home, away) {
        (Some(h), Some(a)) => Some(
            GameModel {
                id: 0,
                nfl_game_id: g.game_id,
                season: g.season,
                week: g.week,
                game_date: g.gameday,
                home_team_id: h,
                away_team_id: a,
                home_score: g.home_score,
                away_score: g.away_score,
                status: "final"@,
            },
        ),
        _ => None,
    }
}

/// The game upsert; an unresolvable record leaves the table as it
/// was.
pub open spec fn upsert_game_seq(games: Seq<GameModel>, inc: Option<GameModel>) -> Seq<
    GameModel,
> {
    match inc {
        None => games,
        Some(g) => {
            if exists|i: int|
                0 <= i < games.len() && (#[trigger] games[i]).nfl_game_id == g.nfl_game_id {
                let i = choose|i: int|
                    0 <= i < games.len() && (#[trigger] games[i]).nfl_game_id == g.nfl_game_id;
                games.update(i, GameModel { id: games[i].id, ..g })
            } else {
                games.push(GameModel { id: games.len() as u64, ..g })
            }
        },
    }
}

/// The stat fields an incoming stat record writes, provided the
/// player's external id resolves; when it does not, the record is
/// dropped.
pub open spec fn incoming_stat(players: Seq<PlayerModel>, s: StatView) -> Option<StatRow> {
    match player_lookup(players, s.player_id) {
        Some(pid) => Some(
            StatRow {
                id: 0,
                player_id: pid,
                season: s.season,
                week: s.week,
                passing_yards: s.passing_yards,
                rushing_yards: s.rushing_yards,
                receiving_yards: s.receiving_yards,
                passing_tds: s.passing_tds,
                rushing_tds: s.rushing_tds,
                receiving_tds: s.receiving_tds,
                receptions: s.receptions,
                targets: s.targets,
                attempts: s.attempts,
                completions: s.completions,
                interceptions: s.interceptions,
            },
        ),
        None => None,
    }
}

/// The stat upsert, keyed by (player, season, week).
pub open spec fn upsert_stat_seq(stats: Seq<StatRow>, inc: Option<StatRow>) -> Seq<StatRow> {
    match inc {
        None => stats,
        Some(s) => {
            if exists|i: int| 0 <= i < stats.len() && stat_key(#[trigger] stats[i]) == stat_key(s) {
                let i = choose|i: int|
                    0 <= i < stats.len() && stat_key(#[trigger] stats[i]) == stat_key(s);
                stats.update(i, StatRow { id: stats[i].id, ..s })
            } else {
                stats.push(StatRow { id: stats.len() as u64, ..s })
            }
        },
    }
}

/// The progress upsert: a repeated completion for the same
/// (season, category) overwrites status and count, keeping no
/// history.
pub open spec fn upsert_progress_seq(rows: Seq<ProgressRow>, e: ProgressRow) -> Seq<
    ProgressRow,
> {
    if exists|i: int| 0 <= i < rows.len() && progress_key(#[trigger] rows[i]) == progress_key(e) {
        let i = choose|i: int|
            0 <= i < rows.len() && progress_key(#[trigger] rows[i]) == progress_key(e);
        rows.update(i, e)
    } else {
        rows.push(e)
    }
}

/// What the progress table records for a (season, category) pair.
pub open spec fn progress_lookup(rows: Seq<ProgressRow>, season: i32, c: DataCategory) -> Option<
    ProgressRow,
> {
    if exists|i: int|
        0 <= i < rows.len() && progress_key(#[trigger] rows[i]) == (season, c) {
        let i = choose|i: int|
            0 <= i < rows.len() && progress_key(#[trigger] rows[i]) == (season, c);
        Some(rows[i])
    } else {
        None
    }
}

/// How many game rows belong to a season.
pub open spec fn count_season_games(s: Seq<GameModel>, season: i32) -> int
    decreases s.len(),
{
    if s.len() == 0 {
        0
    } else {
        count_season_games(s.drop_last(), season) + if s.last().season == season {
            1int
        } else {
            0int
        }
    }
}

/// How many stat rows belong to a season.
pub open spec fn count_season_stats(s: Seq<StatRow>, season: i32) -> int
    decreases s.len(),
{
    if s.len() == 0 {
        0
    } else {
        count_season_stats(s.drop_last(), season) + if s.last().season == season {
            1int
        } else {
            0int
        }
    }
}

impl Store {
    /// The index of the game carrying an external game id, if any.
    fn find_game(&self, game_id: &str) -> (r: Option<usize>)
        ensures
            match r {
                Some(i) => i < self.games@.len() && self.games@[i as int]@.nfl_game_id == game_id@,
                None => forall|i: int|
                    0 <= i < self.games@.len() ==> (#[trigger] self.games@[i])@.nfl_game_id
                        != game_id@,
            },
    {
        let n = self.games.len();
        let mut i: usize = 0;
        while i < n
            invariant
                n == self.games@.len(),
                i <= n,
                forall|j: int| 0 <= j < i ==> (#[trigger] self.games@[j])@.nfl_game_id != game_id@,
            decreases n - i,
        {
            if str_eq(self.games[i].nfl_game_id.as_str(), game_id) {
                return Some(i);
            }
            i += 1;
        }
        None
    }

    /// Insert or update one game by natural key. Both team codes must
    /// resolve; otherwise the record is skipped and the store is
    /// untouched.
    pub fn upsert_game(&mut self, rec: &GameRecord)
        requires
            old(self).wf(),
        ensures
            final(self).wf(),
            final(self).games_model() == upsert_game_seq(
                old(self).games_model(),
                incoming_game(old(self).teams_model(), (*rec)@),
            ),
            final(self).teams == old(self).teams,
            final(self).players == old(self).players,
            final(self).stats == old(self).stats,
            final(self).progress == old(self).progress,
    {
        let home_abbr = transform::normalize_team_abbr(rec.home_team.as_str());
        let away_abbr = transform::normalize_team_abbr(rec.away_team.as_str());
        let home_id = self.get_team_id_by_abbr(home_abbr.as_str());
        let away_id = self.get_team_id_by_abbr(away_abbr.as_str());
        let (home_team_id, away_team_id) = match (home_id, away_id) {
            (Some(h), Some(a)) => (h, a),
            _ => {
                return ;
            },
        };
        let ghost pre = self.games_model();
        let ghost inc = incoming_game(old(self).teams_model(), (*rec)@)->0;
        match self.find_game(rec.game_id.as_str()) {
            Some(i) => {
                let keep_id = self.games[i].id;
                let row = GameRow {
                    id: keep_id,
                    nfl_game_id: rec.game_id.clone(),
                    season: rec.season,
                    week: rec.week,
                    game_date: rec.gameday.clone(),
                    home_team_id,
                    away_team_id,
                    home_score: rec.home_score,
                    away_score: rec.away_score,
                    status: String::from_str("final"),
                };
                proof {
                    assert(row@ =~= GameModel { id: pre[i as int].id, ..inc });
                }
                self.games[i] = row;
                proof {
                    assert(self.games_model() =~= pre.update(
                        i as int,
                        GameModel { id: pre[i as int].id, ..inc },
                    ));
                    let c = choose|k: int|
                        0 <= k < pre.len() && (#[trigger] pre[k]).nfl_game_id == inc.nfl_game_id;
                    assert(pre[i as int].nfl_game_id == inc.nfl_game_id);
                    assert(c == i as int);
                    assert(self.games_model() =~= upsert_game_seq(pre, Some(inc)));
                }
            },
            None => {
                let id = self.games.len() as u64;
                let row = GameRow {
                    id,
                    nfl_game_id: rec.game_id.clone(),
                    season: rec.season,
                    week: rec.week,
                    game_date: rec.gameday.clone(),
                    home_team_id,
                    away_team_id,
                    home_score: rec.home_score,
                    away_score: rec.away_score,
                    status: String::from_str("final"),
                };
                proof {
                    assert(row@ =~= GameModel { id: pre.len() as u64, ..inc });
                    assert(!(exists|k: int|
                        0 <= k < pre.len() && (#[trigger] pre[k]).nfl_game_id == inc.nfl_game_id));
                }
                self.games.push(row);
                proof {
                    assert(self.games_model() =~= pre.push(
                        GameModel { id: pre.len() as u64, ..inc },
                    ));
                }
            },
        }
    }

    /// The index of the stat row carrying a (player, season, week)
    /// key, if any.
    fn find_stat(&self, player_id: u64, season: i32, week: i32) -> (r: Option<usize>)
        ensures
            match r {
                Some(i) => i < self.stats@.len() && stat_key(self.stats@[i as int]) == (
                    player_id,
                    season,
                    week,
                ),
                None => forall|i: int|
                    0 <= i < self.stats@.len() ==> stat_key(#[trigger] self.stats@[i]) != (
                        player_id,
                        season,
                        week,
                    ),
            },
    {
        let n = self.stats.len();
        let mut i: usize = 0;
        while i < n
            invariant
                n == self.stats@.len(),
                i <= n,
                forall|j: int|
                    0 <= j < i ==> stat_key(#[trigger] self.stats@[j]) != (player_id, season, week),
            decreases n - i,
        {
            let row = &self.stats[i];
            if row.player_id == player_id && row.season == season && row.week == week {
                return Some(i);
            }
            i += 1;
        }
        None
    }

    /// Insert or update one weekly stat line by natural key. The
    /// player's external id must resolve; otherwise the record is
    /// skipped and the store is untouched.
    pub fn upsert_stat(&mut self, rec: &StatRecord)
        requires
            old(self).wf(),
        ensures
            final(self).wf(),
            final(self).stats@ == upsert_stat_seq(
                old(self).stats@,
                incoming_stat(old(self).players_model(), (*rec)@),
            ),
            final(self).teams == old(self).teams,
            final(self).players == old(self).players,
            final(self).games == old(self).games,
            final(self).progress == old(self).progress,
    {
        let player_id = match self.get_player_id_by_nfl_id(rec.player_id.as_str()) {
            Some(p) => p,
            None => {
                return ;
            },
        };
        let ghost pre = self.stats@;
        let ghost inc = incoming_stat(old(self).players_model(), (*rec)@)->0;
        let row_fields = StatRow {
            id: 0,
            player_id,
            season: rec.season,
            week: rec.week,
            passing_yards: rec.passing_yards,
            rushing_yards: rec.rushing_yards,
            receiving_yards: rec.receiving_yards,
            passing_tds: rec.passing_tds,
            rushing_tds: rec.rushing_tds,
            receiving_tds: rec.receiving_tds,
            receptions: rec.receptions,
            targets: rec.targets,
            attempts: rec.attempts,
            completions: rec.completions,
            interceptions: rec.interceptions,
        };
        match self.find_stat(player_id, rec.season, rec.week) {
            Some(i) => {
                let keep_id = self.stats[i].id;
                let row = StatRow { id: keep_id, ..row_fields };
                self.stats[i] = row;
                proof {
                    let c = choose|k: int|
                        0 <= k < pre.len() && stat_key(#[trigger] pre[k]) == stat_key(inc);
                    assert(stat_key(pre[i as int]) == stat_key(inc));
                    assert(c == i as int);
                    assert(self.stats@ =~= upsert_stat_seq(pre, Some(inc)));
                }
            },
            None => {
                let id = self.stats.len() as u64;
                let row = StatRow { id, ..row_fields };
                proof {
                    assert(!(exists|k: int|
                        0 <= k < pre.len() && stat_key(#[trigger] pre[k]) == stat_key(inc)));
                }
                self.stats.push(row);
                proof {
                    assert(self.stats@ =~= pre.push(StatRow { id: pre.len() as u64, ..inc }));
                }
            },
        }
    }

    /// Record that a category finished importing for a season,
    /// overwriting any earlier entry for the same key. The storage
    /// schema's completion timestamp is a clock value outside this
    /// model; it is present exactly when the status here is
    /// `Completed`, so its boolean structure is a function of
    /// `status`.
    pub fn mark_progress(
        &mut self,
        season: i32,
        data_type: DataCategory,
        status: ImportStatus,
        records_imported: u64,
    )
        requires
            old(self).wf(),
        ensures
            final(self).wf(),
            final(self).progress@ == upsert_progress_seq(
                old(self).progress@,
                ProgressRow { season, data_type, status, records_imported },
            ),
            final(self).teams == old(self).teams,
            final(self).players == old(self).players,
            final(self).games == old(self).games,
            final(self).stats == old(self).stats,
    {
        let e = ProgressRow { season, data_type, status, records_imported };
        let ghost pre = self.progress@;
        match self.find_progress(season, data_type) {
            Some(i) => {
                self.progress[i] = e;
                proof {
                    assert(progress_key(pre[i as int]) == progress_key(e));
                    let c = choose|k: int|
                        0 <= k < pre.len() && progress_key(#[trigger] pre[k]) == progress_key(e);
                    assert(progress_key(pre[c]) == progress_key(e));
                    assert(c == i as int);
                }
            },
            None => {
                proof {
                    assert(!(exists|k: int|
                        0 <= k < pre.len() && progress_key(#[trigger] pre[k]) == progress_key(
                            e,
                        )));
                }
                self.progress.push(e);
            },
        }
    }

    /// The index of the progress row carrying a (season, category)
    /// key, if any.
    fn find_progress(&self, season: i32, data_type: DataCategory) -> (r: Option<usize>)
        ensures
            match r {
                Some(i) => i < self.progress@.len() && progress_key(self.progress@[i as int]) == (
                    season,
                    data_type,
                ),
                None => forall|i: int|
                    0 <= i < self.progress@.len() ==> progress_key(#[trigger] self.progress@[i])
                        != (season, data_type),
            },
    {
        let n = self.progress.len();
        let mut i: usize = 0;
        while i < n
            invariant
                n == self.progress@.len(),
                i <= n,
                forall|j: int|
                    0 <= j < i ==> progress_key(#[trigger] self.progress@[j]) != (
                        season,
                        data_type,
                    ),
            decreases n - i,
        {
            let row = &self.progress[i];
            if row.season == season && row.data_type == data_type {
                return Some(i);
            }
            i += 1;
        }
        None
    }

    /// What the progress table holds for a (season, category) pair.
    pub fn get_import_progress(&self, season: i32, data_type: DataCategory) -> (r: Option<
        ProgressRow,
    >)
        requires
            self.wf(),
        ensures
            r == progress_lookup(self.progress@, season, data_type),
    {
        match self.find_progress(season, data_type) {
            Some(i) => {
                proof {
                    let m = self.progress@;
                    assert(progress_key(m[i as int]) == (season, data_type));
                    let c = choose|k: int|
                        0 <= k < m.len() && progress_key(#[trigger] m[k]) == (season, data_type);
                    assert(progress_key(m[c]) == (season, data_type));
                    assert(c == i as int);
                }
                Some(self.progress[i])
            },
            None => None,
        }
    }

    /// How many games the store holds for a season.
    pub fn count_games(&self, season: i32) -> (r: usize)
        ensures
            r == count_season_games(self.games_model(), season),
    {
        let n = self.games.len();
        let mut count: usize = 0;
        let mut i: usize = 0;
        while i < n
            invariant
                n == self.games@.len(),
                i <= n,
                count <= i,
                count == count_season_games(self.games_model().take(i as int), season),
            decreases n - i,
        {
            proof {
                assert(self.games_model().take(i + 1).drop_last() =~= self.games_model().take(
                    i as int,
                ));
            }
            if self.games[i].season == season {
                count += 1;
            }
            i += 1;
        }
        proof {
            assert(self.games_model().take(n as int) =~= self.games_model());
        }
        count
    }

    /// How many players the store holds in all.
    pub fn count_players(&self) -> (r: usize)
        ensures
            r == self.players_model().len(),
    {
        self.players.len()
    }

    /// How many stat rows the store holds for a season.
    pub fn count_game_stats(&self, season: i32) -> (r: usize)
        ensures
            r == count_season_stats(self.stats@, season),
    {
        let n = self.stats.len();
        let mut count: usize = 0;
        let mut i: usize = 0;
        while i < n
            invariant
                n == self.stats@.len(),
                i <= n,
                count <= i,
                count == count_season_stats(self.stats@.take(i as int), season),
            decreases n - i,
        {
            proof {
                assert(self.stats@.take(i + 1).drop_last() =~= self.stats@.take(i as int));
            }
            if self.stats[i].season == season {
                count += 1;
            }
            i += 1;
        }
        proof {
            assert(self.stats@.take(n as int) =~= self.stats@);
        }
        count
    }
}

/// The views of a batch of roster records.
pub open spec fn roster_views(s: Seq<RosterRecord>) -> Seq<RosterView> {
    s.map_values(|r: RosterRecord| r@)
}

/// The views of a batch of game records.
pub open spec fn game_views(s: Seq<GameRecord>) -> Seq<GameView> {
    s.map_values(|r: GameRecord| r@)
}

/// The views of a batch of stat records.
pub open spec fn stat_views(s: Seq<StatRecord>) -> Seq<StatView> {
    s.map_values(|r: StatRecord| r@)
}

/// The players table after a whole batch of roster records is
/// upserted in source order against fixed reference teams.
pub open spec fn upsert_players_fold(
    teams: Seq<TeamModel>,
    players: Seq<PlayerModel>,
    recs: Seq<RosterView>,
) -> Seq<PlayerModel>
    decreases recs.len(),
{
    if recs.len() == 0 {
        players
    } else {
        upsert_players_fold(
            teams,
            upsert_player_seq(players, incoming_player(teams, recs[0])),
            recs.drop_first(),
        )
    }
}

/// The games table after a whole batch of game records.
pub open spec fn upsert_games_fold(
    teams: Seq<TeamModel>,
    games: Seq<GameModel>,
    recs: Seq<GameView>,
) -> Seq<GameModel>
    decreases recs.len(),
{
    if recs.len() == 0 {
        games
    } else {
        upsert_games_fold(
            teams,
            upsert_game_seq(games, incoming_game(teams, recs[0])),
            recs.drop_first(),
        )
    }
}

/// The stats table after a whole batch of stat records.
pub open spec fn upsert_stats_fold(
    players: Seq<PlayerModel>,
    stats: Seq<StatRow>,
    recs: Seq<StatView>,
) -> Seq<StatRow>
    decreases recs.len(),
{
    if recs.len() == 0 {
        stats
    } else {
        upsert_stats_fold(
            players,
            upsert_stat_seq(stats, incoming_stat(players, recs[0])),
            recs.drop_first(),
        )
    }
}

proof fn lemma_players_fold_snoc(
    teams: Seq<TeamModel>,
    players: Seq<PlayerModel>,
    recs: Seq<RosterView>,
    r: RosterView,
)
    ensures
        upsert_players_fold(teams, players, recs.push(r)) == upsert_player_seq(
            upsert_players_fold(teams, players, recs),
            incoming_player(teams, r),
        ),
    decreases recs.len(),
{
    if recs.len() == 0 {
        assert(recs.push(r)[0] == r);
        assert(recs.push(r).drop_first() =~= recs);
        let p1 = upsert_player_seq(players, incoming_player(teams, r));
        assert(upsert_players_fold(teams, players, recs) == players);
        assert(upsert_players_fold(teams, p1, recs) == p1);
        assert(upsert_players_fold(teams, players, recs.push(r)) == upsert_players_fold(
            teams,
            p1,
            recs,
        ));
    } else {
        assert(recs.push(r)[0] == recs[0]);
        assert(recs.push(r).drop_first() =~= recs.drop_first().push(r));
        let p1 = upsert_player_seq(players, incoming_player(teams, recs[0]));
        assert(upsert_players_fold(teams, players, recs.push(r)) == upsert_players_fold(
            teams,
            p1,
            recs.drop_first().push(r),
        ));
        assert(upsert_players_fold(teams, players, recs) == upsert_players_fold(
            teams,
            p1,
            recs.drop_first(),
        ));
        lemma_players_fold_snoc(
            teams,
            upsert_player_seq(players, incoming_player(teams, recs[0])),
            recs.drop_first(),
            r,
        );
    }
}

proof fn lemma_games_fold_snoc(
    teams: Seq<TeamModel>,
    games: Seq<GameModel>,
    recs: Seq<GameView>,
    r: GameView,
)
    ensures
        upsert_games_fold(teams, games, recs.push(r)) == upsert_game_seq(
            upsert_games_fold(teams, games, recs),
            incoming_game(teams, r),
        ),
    decreases recs.len(),
{
    if recs.len() == 0 {
        assert(recs.push(r)[0] == r);
        assert(recs.push(r).drop_first() =~= recs);
        let g1 = upsert_game_seq(games, incoming_game(teams, r));
        assert(upsert_games_fold(teams, games, recs) == games);
        assert(upsert_games_fold(teams, g1, recs) == g1);
        assert(upsert_games_fold(teams, games, recs.push(r)) == upsert_games_fold(
            teams,
            g1,
            recs,
        ));
    } else {
        assert(recs.push(r)[0] == recs[0]);
        assert(recs.push(r).drop_first() =~= recs.drop_first().push(r));
        let g1 = upsert_game_seq(games, incoming_game(teams, recs[0]));
        assert(upsert_games_fold(teams, games, recs.push(r)) == upsert_games_fold(
            teams,
            g1,
            recs.drop_first().push(r),
        ));
        assert(upsert_games_fold(teams, games, recs) == upsert_games_fold(
            teams,
            g1,
            recs.drop_first(),
        ));
        lemma_games_fold_snoc(
            teams,
            upsert_game_seq(games, incoming_game(teams, recs[0])),
            recs.drop_first(),
            r,
        );
    }
}

proof fn lemma_stats_fold_snoc(
    players: Seq<PlayerModel>,
    stats: Seq<StatRow>,
    recs: Seq<StatView>,
    r: StatView,
)
    ensures
        upsert_stats_fold(players, stats, recs.push(r)) == upsert_stat_seq(
            upsert_stats_fold(players, stats, recs),
            incoming_stat(players, r),
        ),
    decreases recs.len(),
{
    if recs.len() == 0 {
        assert(recs.push(r)[0] == r);
        assert(recs.push(r).drop_first() =~= recs);
        let s1 = upsert_stat_seq(stats, incoming_stat(players, r));
        assert(upsert_stats_fold(players, stats, recs) == stats);
        assert(upsert_stats_fold(players, s1, recs) == s1);
        assert(upsert_stats_fold(players, stats, recs.push(r)) == upsert_stats_fold(
            players,
            s1,
            recs,
        ));
    } else {
        assert(recs.push(r)[0] == recs[0]);
        assert(recs.push(r).drop_first() =~= recs.drop_first().push(r));
        let s1 = upsert_stat_seq(stats, incoming_stat(players, recs[0]));
        assert(upsert_stats_fold(players, stats, recs.push(r)) == upsert_stats_fold(
            players,
            s1,
            recs.drop_first().push(r),
        ));
        assert(upsert_stats_fold(players, stats, recs) == upsert_stats_fold(
            players,
            s1,
            recs.drop_first(),
        ));
        lemma_stats_fold_snoc(
            players,
            upsert_stat_seq(stats, incoming_stat(players, recs[0])),
            recs.drop_first(),
            r,
        );
    }
}

impl Store {
    /// Upsert a batch of roster records in source order. Under dry
    /// run nothing reaches the store.
    pub fn upsert_players_batch(&mut self, recs: &[RosterRecord], dry_run: bool)
        requires
            old(self).wf(),
        ensures
            final(self).wf(),
            dry_run ==> *final(self) == *old(self),
            !dry_run ==> final(self).players_model() == upsert_players_fold(
                old(self).teams_model(),
                old(self).players_model(),
                roster_views(recs@),
            ),
            final(self).teams == old(self).teams,
            final(self).games == old(self).games,
            final(self).stats == old(self).stats,
            final(self).progress == old(self).progress,
    {
        if dry_run {
            return ;
        }
        let n = recs.len();
        let mut i: usize = 0;
        while i < n
            invariant
                n == recs@.len(),
                i <= n,
                self.wf(),
                self.teams == old(self).teams,
                self.games == old(self).games,
                self.stats == old(self).stats,
                self.progress == old(self).progress,
                self.players_model() == upsert_players_fold(
                    old(self).teams_model(),
                    old(self).players_model(),
                    roster_views(recs@.take(i as int)),
                ),
            decreases n - i,
        {
            self.upsert_player(&recs[i]);
            proof {
                assert(recs@.take(i + 1) =~= recs@.take(i as int).push(recs@[i as int]));
                assert(roster_views(recs@.take(i + 1)) =~= roster_views(recs@.take(i as int)).push(
                    recs@[i as int]@,
                ));
                lemma_players_fold_snoc(
                    old(self).teams_model(),
                    old(self).players_model(),
                    roster_views(recs@.take(i as int)),
                    recs@[i as int]@,
                );
            }
            i += 1;
        }
        proof {
            assert(recs@.take(n as int) =~= recs@);
        }
    }

    /// Upsert a batch of game records in source order. Under dry run
    /// nothing reaches the store.
    pub fn upsert_games_batch(&mut self, recs: &[GameRecord], dry_run: bool)
        requires
            old(self).wf(),
        ensures
            final(self).wf(),
            dry_run ==> *final(self) == *old(self),
            !dry_run ==> final(self).games_model() == upsert_games_fold(
                old(self).teams_model(),
                old(self).games_model(),
                game_views(recs@),
            ),
            final(self).teams == old(self).teams,
            final(self).players == old(self).players,
            final(self).stats == old(self).stats,
            final(self).progress == old(self).progress,
    {
        if dry_run {
            return ;
        }
        let n = recs.len();
        let mut i: usize = 0;
        while i < n
            invariant
                n == recs@.len(),
                i <= n,
                self.wf(),
                self.teams == old(self).teams,
                self.players == old(self).players,
                self.stats == old(self).stats,
                self.progress == old(self).progress,
                self.games_model() == upsert_games_fold(
                    old(self).teams_model(),
                    old(self).games_model(),
                    game_views(recs@.take(i as int)),
                ),
            decreases n - i,
        {
            self.upsert_game(&recs[i]);
            proof {
                assert(recs@.take(i + 1) =~= recs@.take(i as int).push(recs@[i as int]));
                assert(game_views(recs@.take(i + 1)) =~= game_views(recs@.take(i as int)).push(
                    recs@[i as int]@,
                ));
                lemma_games_fold_snoc(
                    old(self).teams_model(),
                    old(self).games_model(),
                    game_views(recs@.take(i as int)),
                    recs@[i as int]@,
                );
            }
            i += 1;
        }
        proof {
            assert(recs@.take(n as int) =~= recs@);
        }
    }

    /// Upsert a batch of stat records in source order. Under dry run
    /// nothing reaches the store.
    pub fn upsert_stats_batch(&mut self, recs: &[StatRecord], dry_run: bool)
        requires
            old(self).wf(),
        ensures
            final(self).wf(),
            dry_run ==> *final(self) == *old(self),
            !dry_run ==> final(self).stats@ == upsert_stats_fold(
                old(self).players_model(),
                old(self).stats@,
                stat_views(recs@),
            ),
            final(self).teams == old(self).teams,
            final(self).players == old(self).players,
            final(self).games == old(self).games,
            final(self).progress == old(self).progress,
    {
        if dry_run {
            return ;
        }
        let n = recs.len();
        let mut i: usize = 0;
        while i < n
            invariant
                n == recs@.len(),
                i <= n,
                self.wf(),
                self.teams == old(self).teams,
                self.players == old(self).players,
                self.games == old(self).games,
                self.progress == old(self).progress,
                self.stats@ == upsert_stats_fold(
                    old(self).players_model(),
                    old(self).stats@,
                    stat_views(recs@.take(i as int)),
                ),
            decreases n - i,
        {
            self.upsert_stat(&recs[i]);
            proof {
                assert(recs@.take(i + 1) =~= recs@.take(i as int).push(recs@[i as int]));
                assert(stat_views(recs@.take(i + 1)) =~= stat_views(recs@.take(i as int)).push(
                    recs@[i as int]@,
                ));
                lemma_stats_fold_snoc(
                    old(self).players_model(),
                    old(self).stats@,
                    stat_views(recs@.take(i as int)),
                    recs@[i as int]@,
                );
            }
            i += 1;
        }
        proof {
            assert(recs@.take(n as int) =~= recs@);
        }
    }
}

/// Whether some row already holds exactly the incoming fields, its
/// own identity aside.
pub open spec fn holds_player(players: Seq<PlayerModel>, inc: PlayerModel) -> bool {
    exists|i: int|
        0 <= i < players.len() && (#[trigger] players[i]) == PlayerModel {
            id: players[i].id,
            ..inc
        }
}

proof fn lemma_upsert_player_wf(players: Seq<PlayerModel>, inc: PlayerModel)
    requires
        player_ids_ok(players),
        player_keys_unique(players),
    ensures
        player_ids_ok(upsert_player_seq(players, inc)),
        player_keys_unique(upsert_player_seq(players, inc)),
        upsert_player_seq(players, inc).len() >= players.len(),
        holds_player(upsert_player_seq(players, inc), inc),
{
    let out = upsert_player_seq(players, inc);
    if exists|i: int| 0 <= i < players.len() && (#[trigger] players[i]).nfl_id == inc.nfl_id {
        let c = choose|i: int|
            0 <= i < players.len() && (#[trigger] players[i]).nfl_id == inc.nfl_id;
        assert(out == players.update(c, PlayerModel { id: players[c].id, ..inc }));
        assert(out[c] == PlayerModel { id: out[c].id, ..inc });
        assert forall|i: int, j: int| 0 <= i < j < out.len() implies (#[trigger] out[i]).nfl_id
            != (#[trigger] out[j]).nfl_id by {
            assert(players[i].nfl_id != players[j].nfl_id);
        }
    } else {
        assert(out == players.push(PlayerModel { id: players.len() as u64, ..inc }));
        let n = players.len() as int;
        assert(out[n] == PlayerModel { id: out[n].id, ..inc });
        assert forall|i: int, j: int| 0 <= i < j < out.len() implies (#[trigger] out[i]).nfl_id
            != (#[trigger] out[j]).nfl_id by {
            if j < n {
                assert(players[i].nfl_id != players[j].nfl_id);
            } else {
                assert(out[j].nfl_id == inc.nfl_id);
                assert(players[i].nfl_id != inc.nfl_id);
            }
        }
    }
}

proof fn lemma_players_fold_wf(
    teams: Seq<TeamModel>,
    players: Seq<PlayerModel>,
    recs: Seq<RosterView>,
)
    requires
        player_ids_ok(players),
        player_keys_unique(players),
    ensures
        player_ids_ok(upsert_players_fold(teams, players, recs)),
        player_keys_unique(upsert_players_fold(teams, players, recs)),
        upsert_players_fold(teams, players, recs).len() >= players.len(),
    decreases recs.len(),
{
    if recs.len() > 0 {
        lemma_upsert_player_wf(players, incoming_player(teams, recs[0]));
        lemma_players_fold_wf(
            teams,
            upsert_player_seq(players, incoming_player(teams, recs[0])),
            recs.drop_first(),
        );
    }
}

/// A fold whose records all carry other keys leaves a row untouched,
/// at its place.
proof fn lemma_fold_preserves_row(
    teams: Seq<TeamModel>,
    players: Seq<PlayerModel>,
    recs: Seq<RosterView>,
    at: int,
)
    requires
        player_ids_ok(players),
        player_keys_unique(players),
        0 <= at < players.len(),
        forall|j: int|
            0 <= j < recs.len() ==> (#[trigger] recs[j]).gsis_id != players[at].nfl_id,
    ensures
        upsert_players_fold(teams, players, recs)[at] == players[at],
    decreases recs.len(),
{
    lemma_players_fold_wf(teams, players, recs);
    if recs.len() > 0 {
        let inc = incoming_player(teams, recs[0]);
        let p1 = upsert_player_seq(players, inc);
        lemma_upsert_player_wf(players, inc);
        assert(inc.nfl_id == recs[0].gsis_id);
        if exists|i: int| 0 <= i < players.len() && (#[trigger] players[i]).nfl_id == inc.nfl_id {
            let c = choose|i: int|
                0 <= i < players.len() && (#[trigger] players[i]).nfl_id == inc.nfl_id;
            assert(c != at);
            assert(p1[at] == players[at]);
        } else {
            assert(p1[at] == players[at]);
        }
        assert forall|j: int|
            0 <= j < recs.drop_first().len() implies (#[trigger] recs.drop_first()[j]).gsis_id
            != p1[at].nfl_id by {
            assert(recs.drop_first()[j] == recs[j + 1]);
        }
        lemma_fold_preserves_row(teams, p1, recs.drop_first(), at);
    }
}

/// Idempotence of progress marking: recording the same completion
/// twice leaves exactly the table one recording leaves.
pub proof fn lemma_mark_progress_idempotent(rows: Seq<ProgressRow>, e: ProgressRow)
    requires
        progress_keys_unique(rows),
    ensures
        upsert_progress_seq(upsert_progress_seq(rows, e), e) == upsert_progress_seq(rows, e),
{
    let r1 = upsert_progress_seq(rows, e);
    if exists|i: int| 0 <= i < rows.len() && progress_key(#[trigger] rows[i]) == progress_key(e) {
        let c = choose|i: int|
            0 <= i < rows.len() && progress_key(#[trigger] rows[i]) == progress_key(e);
        assert(r1 == rows.update(c, e));
        assert(progress_key(r1[c]) == progress_key(e));
        let c2 = choose|i: int|
            0 <= i < r1.len() && progress_key(#[trigger] r1[i]) == progress_key(e);
        assert(progress_key(r1[c2]) == progress_key(e));
        assert forall|i: int| 0 <= i < r1.len() && progress_key(#[trigger] r1[i]) == progress_key(
            e,
        ) implies i == c by {
            if i != c {
                assert(r1[i] == rows[i]);
                assert(progress_key(rows[i]) != progress_key(rows[c]));
            }
        }
        assert(c2 == c);
        assert(upsert_progress_seq(r1, e) == r1.update(c, e));
        assert(r1.update(c, e) =~= r1);
    } else {
        let n = rows.len() as int;
        assert(r1 == rows.push(e));
        assert(progress_key(r1[n]) == progress_key(e));
        let c2 = choose|i: int|
            0 <= i < r1.len() && progress_key(#[trigger] r1[i]) == progress_key(e);
        assert(progress_key(r1[c2]) == progress_key(e));
        assert forall|i: int| 0 <= i < r1.len() && progress_key(#[trigger] r1[i]) == progress_key(
            e,
        ) implies i == n by {
            if i < n {
                assert(r1[i] == rows[i]);
            }
        }
        assert(c2 == n);
        assert(upsert_progress_seq(r1, e) == r1.update(n, e));
        assert(r1.update(n, e) =~= r1);
    }
}


/// Idempotence of the game upsert: writing the same resolved game
/// twice leaves exactly the table one write leaves, its surrogate id
/// included.
pub proof fn lemma_upsert_game_idempotent(games: Seq<GameModel>, inc: Option<GameModel>)
    requires
        game_ids_ok(games),
        game_keys_unique(games),
    ensures
        upsert_game_seq(upsert_game_seq(games, inc), inc) == upsert_game_seq(games, inc),
{
    match inc {
        None => {},
        Some(g) => {
            let r1 = upsert_game_seq(games, Some(g));
            if exists|i: int|
                0 <= i < games.len() && (#[trigger] games[i]).nfl_game_id == g.nfl_game_id {
                let c = choose|i: int|
                    0 <= i < games.len() && (#[trigger] games[i]).nfl_game_id == g.nfl_game_id;
                assert(r1 == games.update(c, GameModel { id: games[c].id, ..g }));
                assert(r1[c].nfl_game_id == g.nfl_game_id);
                let c2 = choose|i: int|
                    0 <= i < r1.len() && (#[trigger] r1[i]).nfl_game_id == g.nfl_game_id;
                assert(r1[c2].nfl_game_id == g.nfl_game_id);
                assert forall|i: int|
                    0 <= i < r1.len() && (#[trigger] r1[i]).nfl_game_id == g.nfl_game_id
                    implies i == c by {
                    if i != c {
                        assert(r1[i] == games[i]);
                        assert(games[i].nfl_game_id != games[c].nfl_game_id);
                    }
                }
                assert(c2 == c);
                assert(upsert_game_seq(r1, Some(g)) == r1.update(
                    c,
                    GameModel { id: r1[c].id, ..g },
                ));
                assert(r1.update(c, GameModel { id: r1[c].id, ..g }) =~= r1);
            } else {
                let n = games.len() as int;
                assert(r1 == games.push(GameModel { id: games.len() as u64, ..g }));
                assert(r1[n].nfl_game_id == g.nfl_game_id);
                let c2 = choose|i: int|
                    0 <= i < r1.len() && (#[trigger] r1[i]).nfl_game_id == g.nfl_game_id;
                assert(r1[c2].nfl_game_id == g.nfl_game_id);
                assert forall|i: int|
                    0 <= i < r1.len() && (#[trigger] r1[i]).nfl_game_id == g.nfl_game_id
                    implies i == n by {
                    if i < n {
                        assert(r1[i] == games[i]);
                    }
                }
                assert(c2 == n);
                assert(upsert_game_seq(r1, Some(g)) == r1.update(
                    n,
                    GameModel { id: r1[n].id, ..g },
                ));
                assert(r1.update(n, GameModel { id: r1[n].id, ..g }) =~= r1);
            }
        },
    }
}

/// Idempotence of the stat upsert: writing the same resolved stat
/// line twice leaves exactly the table one write leaves.
pub proof fn lemma_upsert_stat_idempotent(stats: Seq<StatRow>, inc: Option<StatRow>)
    requires
        stat_ids_ok(stats),
        stat_keys_unique(stats),
    ensures
        upsert_stat_seq(upsert_stat_seq(stats, inc), inc) == upsert_stat_seq(stats, inc),
{
    match inc {
        None => {},
        Some(g) => {
            let r1 = upsert_stat_seq(stats, Some(g));
            if exists|i: int| 0 <= i < stats.len() && stat_key(#[trigger] stats[i]) == stat_key(g) {
                let c = choose|i: int|
                    0 <= i < stats.len() && stat_key(#[trigger] stats[i]) == stat_key(g);
                assert(r1 == stats.update(c, StatRow { id: stats[c].id, ..g }));
                assert(stat_key(r1[c]) == stat_key(g));
                let c2 = choose|i: int|
                    0 <= i < r1.len() && stat_key(#[trigger] r1[i]) == stat_key(g);
                assert(stat_key(r1[c2]) == stat_key(g));
                assert forall|i: int|
                    0 <= i < r1.len() && stat_key(#[trigger] r1[i]) == stat_key(g) implies i
                    == c by {
                    if i != c {
                        assert(r1[i] == stats[i]);
                        assert(stat_key(stats[i]) != stat_key(stats[c]));
                    }
                }
                assert(c2 == c);
                assert(upsert_stat_seq(r1, Some(g)) == r1.update(c, StatRow { id: r1[c].id, ..g }));
                assert(r1.update(c, StatRow { id: r1[c].id, ..g }) =~= r1);
            } else {
                let n = stats.len() as int;
                assert(r1 == stats.push(StatRow { id: stats.len() as u64, ..g }));
                assert(stat_key(r1[n]) == stat_key(g));
                let c2 = choose|i: int|
                    0 <= i < r1.len() && stat_key(#[trigger] r1[i]) == stat_key(g);
                assert(stat_key(r1[c2]) == stat_key(g));
                assert forall|i: int|
                    0 <= i < r1.len() && stat_key(#[trigger] r1[i]) == stat_key(g) implies i
                    == n by {
                    if i < n {
                        assert(r1[i] == stats[i]);
                    }
                }
                assert(c2 == n);
                assert(upsert_stat_seq(r1, Some(g)) == r1.update(n, StatRow { id: r1[n].id, ..g }));
                assert(r1.update(n, StatRow { id: r1[n].id, ..g }) =~= r1);
            }
        },
    }
}

/// After a completion is recorded, looking the key up finds exactly
/// that entry: the store state a re-run resumes from.
pub proof fn lemma_progress_lookup_after_mark(rows: Seq<ProgressRow>, e: ProgressRow)
    requires
        progress_keys_unique(rows),
    ensures
        progress_lookup(upsert_progress_seq(rows, e), e.season, e.data_type) == Some(e),
{
    let r1 = upsert_progress_seq(rows, e);
    if exists|i: int| 0 <= i < rows.len() && progress_key(#[trigger] rows[i]) == progress_key(e) {
        let c = choose|i: int|
            0 <= i < rows.len() && progress_key(#[trigger] rows[i]) == progress_key(e);
        assert(r1 == rows.update(c, e));
        assert(progress_key(r1[c]) == (e.season, e.data_type));
        let c2 = choose|i: int|
            0 <= i < r1.len() && progress_key(#[trigger] r1[i]) == (e.season, e.data_type);
        assert(progress_key(r1[c2]) == (e.season, e.data_type));
        assert forall|i: int|
            0 <= i < r1.len() && progress_key(#[trigger] r1[i]) == (e.season, e.data_type)
            implies i == c by {
            if i != c {
                assert(r1[i] == rows[i]);
                assert(progress_key(rows[i]) != progress_key(rows[c]));
            }
        }
        assert(c2 == c);
        assert(r1[c] == e);
    } else {
        let n = rows.len() as int;
        assert(r1 == rows.push(e));
        assert(progress_key(r1[n]) == (e.season, e.data_type));
        let c2 = choose|i: int|
            0 <= i < r1.len() && progress_key(#[trigger] r1[i]) == (e.season, e.data_type);
        assert(progress_key(r1[c2]) == (e.season, e.data_type));
        assert forall|i: int|
            0 <= i < r1.len() && progress_key(#[trigger] r1[i]) == (e.season, e.data_type)
            implies i == n by {
            if i < n {
                assert(r1[i] == rows[i]);
            }
        }
        assert(c2 == n);
        assert(r1[n] == e);
    }
}


/// Whether some game row already holds exactly the incoming fields,
/// its own identity aside.
pub open spec fn holds_game(games: Seq<GameModel>, inc: GameModel) -> bool {
    exists|i: int|
        0 <= i < games.len() && (#[trigger] games[i]) == GameModel { id: games[i].id, ..inc }
}

proof fn lemma_upsert_game_wf(games: Seq<GameModel>, inc: Option<GameModel>)
    requires
        game_ids_ok(games),
        game_keys_unique(games),
    ensures
        game_ids_ok(upsert_game_seq(games, inc)),
        game_keys_unique(upsert_game_seq(games, inc)),
        upsert_game_seq(games, inc).len() >= games.len(),
        inc matches Some(g) ==> holds_game(upsert_game_seq(games, inc), g),
{
    match inc {
        None => {},
        Some(g) => {
            let out = upsert_game_seq(games, Some(g));
            if exists|i: int|
                0 <= i < games.len() && (#[trigger] games[i]).nfl_game_id == g.nfl_game_id {
                let c = choose|i: int|
                    0 <= i < games.len() && (#[trigger] games[i]).nfl_game_id == g.nfl_game_id;
                assert(out == games.update(c, GameModel { id: games[c].id, ..g }));
                assert(out[c] == GameModel { id: out[c].id, ..g });
                assert forall|i: int, j: int| 0 <= i < j < out.len() implies (#[trigger] out[i]).nfl_game_id
                    != (#[trigger] out[j]).nfl_game_id by {
                    assert(games[i].nfl_game_id != games[j].nfl_game_id);
                }
            } else {
                assert(out == games.push(GameModel { id: games.len() as u64, ..g }));
                let n = games.len() as int;
                assert(out[n] == GameModel { id: out[n].id, ..g });
                assert forall|i: int, j: int| 0 <= i < j < out.len() implies (#[trigger] out[i]).nfl_game_id
                    != (#[trigger] out[j]).nfl_game_id by {
                    if j < n {
                        assert(games[i].nfl_game_id != games[j].nfl_game_id);
                    } else {
                        assert(out[j].nfl_game_id == g.nfl_game_id);
                        assert(games[i].nfl_game_id != g.nfl_game_id);
                    }
                }
            }
        },
    }
}

proof fn lemma_games_fold_wf(teams: Seq<TeamModel>, games: Seq<GameModel>, recs: Seq<GameView>)
    requires
        game_ids_ok(games),
        game_keys_unique(games),
    ensures
        game_ids_ok(upsert_games_fold(teams, games, recs)),
        game_keys_unique(upsert_games_fold(teams, games, recs)),
        upsert_games_fold(teams, games, recs).len() >= games.len(),
    decreases recs.len(),
{
    if recs.len() > 0 {
        lemma_upsert_game_wf(games, incoming_game(teams, recs[0]));
        lemma_games_fold_wf(
            teams,
            upsert_game_seq(games, incoming_game(teams, recs[0])),
            recs.drop_first(),
        );
    }
}

/// Whether some stat row already holds exactly the incoming fields,
/// its own identity aside.
pub open spec fn holds_stat(stats: Seq<StatRow>, inc: StatRow) -> bool {
    exists|i: int|
        0 <= i < stats.len() && (#[trigger] stats[i]) == StatRow { id: stats[i].id, ..inc }
}

proof fn lemma_upsert_stat_wf(stats: Seq<StatRow>, inc: Option<StatRow>)
    requires
        stat_ids_ok(stats),
        stat_keys_unique(stats),
    ensures
        stat_ids_ok(upsert_stat_seq(stats, inc)),
        stat_keys_unique(upsert_stat_seq(stats, inc)),
        upsert_stat_seq(stats, inc).len() >= stats.len(),
        inc matches Some(g) ==> holds_stat(upsert_stat_seq(stats, inc), g),
{
    match inc {
        None => {},
        Some(g) => {
            let out = upsert_stat_seq(stats, Some(g));
            if exists|i: int| 0 <= i < stats.len() && stat_key(#[trigger] stats[i]) == stat_key(g) {
                let c = choose|i: int|
                    0 <= i < stats.len() && stat_key(#[trigger] stats[i]) == stat_key(g);
                assert(out == stats.update(c, StatRow { id: stats[c].id, ..g }));
                assert(out[c] == StatRow { id: out[c].id, ..g });
                assert forall|i: int, j: int| 0 <= i < j < out.len() implies stat_key(
                    #[trigger] out[i],
                ) != stat_key(#[trigger] out[j]) by {
                    assert(stat_key(stats[i]) != stat_key(stats[j]));
                }
            } else {
                assert(out == stats.push(StatRow { id: stats.len() as u64, ..g }));
                let n = stats.len() as int;
                assert(out[n] == StatRow { id: out[n].id, ..g });
                assert forall|i: int, j: int| 0 <= i < j < out.len() implies stat_key(
                    #[trigger] out[i],
                ) != stat_key(#[trigger] out[j]) by {
                    if j < n {
                        assert(stat_key(stats[i]) != stat_key(stats[j]));
                    } else {
                        assert(stat_key(out[j]) == stat_key(g));
                        assert(stat_key(stats[i]) != stat_key(g));
                    }
                }
            }
        },
    }
}

proof fn lemma_stats_fold_wf(
    players: Seq<PlayerModel>,
    stats: Seq<StatRow>,
    recs: Seq<StatView>,
)
    requires
        stat_ids_ok(stats),
        stat_keys_unique(stats),
    ensures
        stat_ids_ok(upsert_stats_fold(players, stats, recs)),
        stat_keys_unique(upsert_stats_fold(players, stats, recs)),
        upsert_stats_fold(players, stats, recs).len() >= stats.len(),
    decreases recs.len(),
{
    if recs.len() > 0 {
        lemma_upsert_stat_wf(stats, incoming_stat(players, recs[0]));
        lemma_stats_fold_wf(
            players,
            upsert_stat_seq(stats, incoming_stat(players, recs[0])),
            recs.drop_first(),
        );
    }
}

/// The key a resolvable stat record writes under.
pub open spec fn stat_rec_key(players: Seq<PlayerModel>, r: StatView) -> (u64, i32, i32) {
    (player_lookup(players, r.player_id)->0, r.season, r.week)
}

/// A stat fold whose records all write other keys leaves a row
/// untouched, at its place.
proof fn lemma_stat_fold_preserves_row(
    players: Seq<PlayerModel>,
    stats: Seq<StatRow>,
    recs: Seq<StatView>,
    at: int,
)
    requires
        stat_ids_ok(stats),
        stat_keys_unique(stats),
        0 <= at < stats.len(),
        forall|j: int|
            0 <= j < recs.len() && incoming_stat(players, #[trigger] recs[j]) is Some
                ==> stat_rec_key(players, recs[j]) != stat_key(stats[at]),
    ensures
        upsert_stats_fold(players, stats, recs)[at] == stats[at],
    decreases recs.len(),
{
    lemma_stats_fold_wf(players, stats, recs);
    if recs.len() > 0 {
        let inc = incoming_stat(players, recs[0]);
        let s1 = upsert_stat_seq(stats, inc);
        lemma_upsert_stat_wf(stats, inc);
        match inc {
            None => {
                assert(s1[at] == stats[at]);
            },
            Some(g) => {
                assert(stat_key(g) == stat_rec_key(players, recs[0]));
                if exists|i: int|
                    0 <= i < stats.len() && stat_key(#[trigger] stats[i]) == stat_key(g) {
                    let c = choose|i: int|
                        0 <= i < stats.len() && stat_key(#[trigger] stats[i]) == stat_key(g);
                    assert(c != at);
                    assert(s1[at] == stats[at]);
                } else {
                    assert(s1[at] == stats[at]);
                }
            },
        }
        assert forall|j: int|
            0 <= j < recs.drop_first().len() && incoming_stat(
                players,
                #[trigger] recs.drop_first()[j],
            ) is Some implies stat_rec_key(players, recs.drop_first()[j]) != stat_key(s1[at]) by {
            assert(recs.drop_first()[j] == recs[j + 1]);
        }
        lemma_stat_fold_preserves_row(players, s1, recs.drop_first(), at);
    }
}

/// Whether any record of the batch carries this natural key.
pub open spec fn has_roster_key(recs: Seq<RosterView>, k: Seq<char>) -> bool {
    exists|j: int| 0 <= j < recs.len() && (#[trigger] recs[j]).gsis_id == k
}

/// The last record of the batch carrying this natural key: the write
/// that wins.
pub open spec fn last_with_key(recs: Seq<RosterView>, k: Seq<char>) -> RosterView
    decreases recs.len(),
{
    if recs.len() == 0 {
        recs[0]
    } else if recs.last().gsis_id == k {
        recs.last()
    } else {
        last_with_key(recs.drop_last(), k)
    }
}

proof fn lemma_last_key_drop_first(recs: Seq<RosterView>, k: Seq<char>)
    requires
        recs.len() >= 1,
        has_roster_key(recs.drop_first(), k),
    ensures
        last_with_key(recs, k) == last_with_key(recs.drop_first(), k),
    decreases recs.len(),
{
    let d = recs.drop_first();
    let j = choose|j: int| 0 <= j < d.len() && (#[trigger] d[j]).gsis_id == k;
    assert(recs.len() >= 2);
    if recs.last().gsis_id == k {
        assert(d.last() == recs.last());
    } else {
        assert(d.last() == recs.last());
        assert(j < d.len() - 1);
        assert(recs.drop_last().drop_first() =~= d.drop_last());
        assert(d.drop_last()[j] == d[j]);
        assert(has_roster_key(recs.drop_last().drop_first(), k));
        lemma_last_key_drop_first(recs.drop_last(), k);
    }
}

proof fn lemma_last_key_head(recs: Seq<RosterView>, k: Seq<char>)
    requires
        recs.len() >= 1,
        recs[0].gsis_id == k,
        !has_roster_key(recs.drop_first(), k),
    ensures
        last_with_key(recs, k) == recs[0],
    decreases recs.len(),
{
    if recs.len() == 1 {
        assert(recs.last() == recs[0]);
    } else {
        assert(recs.drop_first()[recs.len() - 2] == recs.last());
        assert(recs.last().gsis_id != k);
        assert(recs.drop_last()[0] == recs[0]);
        assert(recs.drop_last().drop_first() =~= recs.drop_first().drop_last());
        assert forall|j: int|
            0 <= j < recs.drop_last().drop_first().len() implies (
            #[trigger] recs.drop_last().drop_first()[j]).gsis_id != k by {
            assert(recs.drop_first().drop_last()[j] == recs.drop_first()[j]);
        }
        lemma_last_key_head(recs.drop_last(), k);
    }
}

/// After a fold, the rows that were already there keep their places
/// and keys, and every appended row carries a key from the batch.
proof fn lemma_fold_key_layout(
    teams: Seq<TeamModel>,
    players: Seq<PlayerModel>,
    recs: Seq<RosterView>,
)
    requires
        player_ids_ok(players),
        player_keys_unique(players),
    ensures
        upsert_players_fold(teams, players, recs).len() >= players.len(),
        forall|i: int|
            0 <= i < players.len() ==> (#[trigger] upsert_players_fold(teams, players, recs)[i]).nfl_id
                == players[i].nfl_id && upsert_players_fold(teams, players, recs)[i].id
                == players[i].id,
        forall|i: int|
            players.len() <= i < upsert_players_fold(teams, players, recs).len()
                ==> has_roster_key(
                recs,
                (#[trigger] upsert_players_fold(teams, players, recs)[i]).nfl_id,
            ),
    decreases recs.len(),
{
    if recs.len() > 0 {
        let inc0 = incoming_player(teams, recs[0]);
        let p1 = upsert_player_seq(players, inc0);
        lemma_upsert_player_wf(players, inc0);
        lemma_fold_key_layout(teams, p1, recs.drop_first());
        let f = upsert_players_fold(teams, players, recs);
        assert(f == upsert_players_fold(teams, p1, recs.drop_first()));
        if exists|i: int|
            0 <= i < players.len() && (#[trigger] players[i]).nfl_id == inc0.nfl_id {
            let c = choose|i: int|
                0 <= i < players.len() && (#[trigger] players[i]).nfl_id == inc0.nfl_id;
            assert(p1 == players.update(c, PlayerModel { id: players[c].id, ..inc0 }));
            assert forall|i: int| 0 <= i < players.len() implies (#[trigger] p1[i]).nfl_id
                == players[i].nfl_id && p1[i].id == players[i].id by {}
        } else {
            assert(p1 == players.push(PlayerModel { id: players.len() as u64, ..inc0 }));
            assert(p1[players.len() as int].nfl_id == recs[0].gsis_id);
        }
        assert forall|i: int|
            players.len() <= i < f.len() implies has_roster_key(
            recs,
            (#[trigger] f[i]).nfl_id,
        ) by {
            if i < p1.len() {
                assert(f[i].nfl_id == p1[i].nfl_id);
                assert(p1[i].nfl_id == inc0.nfl_id);
                assert(recs[0].gsis_id == inc0.nfl_id);
            } else {
                assert(has_roster_key(recs.drop_first(), f[i].nfl_id));
                let j = choose|j: int|
                    0 <= j < recs.drop_first().len() && (#[trigger] recs.drop_first()[j]).gsis_id
                        == f[i].nfl_id;
                assert(recs[j + 1].gsis_id == f[i].nfl_id);
            }
        }
    }
}

/// After a fold, every key of the batch is present in the table.
proof fn lemma_fold_has_all_keys(
    teams: Seq<TeamModel>,
    players: Seq<PlayerModel>,
    recs: Seq<RosterView>,
)
    requires
        player_ids_ok(players),
        player_keys_unique(players),
    ensures
        forall|j: int|
            0 <= j < recs.len() ==> exists|i: int|
                0 <= i < upsert_players_fold(teams, players, recs).len() && (
                #[trigger] upsert_players_fold(teams, players, recs)[i]).nfl_id == (
                #[trigger] recs[j]).gsis_id,
    decreases recs.len(),
{
    if recs.len() > 0 {
        let inc0 = incoming_player(teams, recs[0]);
        let p1 = upsert_player_seq(players, inc0);
        lemma_upsert_player_wf(players, inc0);
        lemma_fold_has_all_keys(teams, p1, recs.drop_first());
        lemma_fold_key_layout(teams, p1, recs.drop_first());
        let f = upsert_players_fold(teams, players, recs);
        assert(f == upsert_players_fold(teams, p1, recs.drop_first()));
        assert(holds_player(p1, inc0));
        let h = choose|i: int|
            0 <= i < p1.len() && (#[trigger] p1[i]) == PlayerModel { id: p1[i].id, ..inc0 };
        assert(p1[h].nfl_id == inc0.nfl_id);
        assert forall|j: int| 0 <= j < recs.len() implies exists|i: int|
            0 <= i < f.len() && (#[trigger] f[i]).nfl_id == (#[trigger] recs[j]).gsis_id by {
            if j == 0 {
                assert(f[h].nfl_id == p1[h].nfl_id);
            } else {
                assert(recs.drop_first()[j - 1] == recs[j]);
                let d = recs.drop_first();
                assert(exists|i: int|
                    0 <= i < f.len() && (#[trigger] f[i]).nfl_id == d[j - 1].gsis_id);
            }
        }
    }
}

/// The table a fold leaves, described row by row: a row whose key the
/// batch writes holds the last such record's fields under its own
/// identity; every other row is untouched.
pub open spec fn roster_overridden(
    teams: Seq<TeamModel>,
    q: Seq<PlayerModel>,
    recs: Seq<RosterView>,
) -> Seq<PlayerModel> {
    Seq::new(
        q.len(),
        |i: int|
            if has_roster_key(recs, q[i].nfl_id) {
                PlayerModel {
                    id: q[i].id,
                    ..incoming_player(teams, last_with_key(recs, q[i].nfl_id))
                }
            } else {
                q[i]
            },
    )
}

/// When every key of the batch is already present, a fold is exactly
/// the row-by-row override: nothing is appended.
proof fn lemma_fold_override(teams: Seq<TeamModel>, q: Seq<PlayerModel>, recs: Seq<RosterView>)
    requires
        player_ids_ok(q),
        player_keys_unique(q),
        forall|j: int|
            0 <= j < recs.len() ==> exists|i: int|
                0 <= i < q.len() && (#[trigger] q[i]).nfl_id == (#[trigger] recs[j]).gsis_id,
    ensures
        upsert_players_fold(teams, q, recs) == roster_overridden(teams, q, recs),
    decreases recs.len(),
{
    if recs.len() == 0 {
        assert(roster_overridden(teams, q, recs) =~= q);
    } else {
        let inc0 = incoming_player(teams, recs[0]);
        let k0 = recs[0].gsis_id;
        assert(exists|i: int| 0 <= i < q.len() && (#[trigger] q[i]).nfl_id == inc0.nfl_id);
        let c = choose|i: int| 0 <= i < q.len() && (#[trigger] q[i]).nfl_id == inc0.nfl_id;
        let q1 = upsert_player_seq(q, inc0);
        assert(q1 == q.update(c, PlayerModel { id: q[c].id, ..inc0 }));
        lemma_upsert_player_wf(q, inc0);
        assert forall|j: int| 0 <= j < recs.drop_first().len() implies exists|i: int|
            0 <= i < q1.len() && (#[trigger] q1[i]).nfl_id == (
            #[trigger] recs.drop_first()[j]).gsis_id by {
            assert(recs.drop_first()[j] == recs[j + 1]);
            let w = choose|i: int|
                0 <= i < q.len() && (#[trigger] q[i]).nfl_id == recs[j + 1].gsis_id;
            assert(q1[w].nfl_id == q[w].nfl_id);
        }
        lemma_fold_override(teams, q1, recs.drop_first());
        assert(upsert_players_fold(teams, q, recs) == roster_overridden(
            teams,
            q1,
            recs.drop_first(),
        ));
        assert forall|i: int| 0 <= i < q.len() implies roster_overridden(
            teams,
            q1,
            recs.drop_first(),
        )[i] == roster_overridden(teams, q, recs)[i] by {
            let k = q[i].nfl_id;
            assert(q1[i].nfl_id == k);
            assert(q1[i].id == q[i].id);
            if has_roster_key(recs.drop_first(), k) {
                assert(has_roster_key(recs, k)) by {
                    let j = choose|j: int|
                        0 <= j < recs.drop_first().len() && (
                        #[trigger] recs.drop_first()[j]).gsis_id == k;
                    assert(recs[j + 1].gsis_id == k);
                }
                lemma_last_key_drop_first(recs, k);
            } else if k == k0 {
                assert(i == c);
                assert(q1[c] == PlayerModel { id: q[c].id, ..inc0 });
                assert(has_roster_key(recs, k0));
                lemma_last_key_head(recs, k0);
            } else {
                assert(q1[i] == q[i]);
                assert(!has_roster_key(recs, k)) by {
                    if has_roster_key(recs, k) {
                        let j = choose|j: int|
                            0 <= j < recs.len() && (#[trigger] recs[j]).gsis_id == k;
                        if j == 0 {
                            assert(k == k0);
                        } else {
                            assert(recs.drop_first()[j - 1] == recs[j]);
                            assert(has_roster_key(recs.drop_first(), k));
                        }
                    }
                }
            }
        }
        assert(roster_overridden(teams, q1, recs.drop_first()) =~= roster_overridden(
            teams,
            q,
            recs,
        ));
    }
}

/// After a fold, every row whose key the batch writes holds the last
/// such record's fields.
proof fn lemma_fold_last_values(
    teams: Seq<TeamModel>,
    players: Seq<PlayerModel>,
    recs: Seq<RosterView>,
)
    requires
        player_ids_ok(players),
        player_keys_unique(players),
    ensures
        forall|i: int|
            0 <= i < upsert_players_fold(teams, players, recs).len() && has_roster_key(
                recs,
                (#[trigger] upsert_players_fold(teams, players, recs)[i]).nfl_id,
            ) ==> upsert_players_fold(teams, players, recs)[i] == (PlayerModel {
                id: upsert_players_fold(teams, players, recs)[i].id,
                ..incoming_player(
                    teams,
                    last_with_key(
                        recs,
                        upsert_players_fold(teams, players, recs)[i].nfl_id,
                    ),
                )
            }),
    decreases recs.len(),
{
    if recs.len() > 0 {
        let inc0 = incoming_player(teams, recs[0]);
        let k0 = recs[0].gsis_id;
        let p1 = upsert_player_seq(players, inc0);
        lemma_upsert_player_wf(players, inc0);
        lemma_fold_last_values(teams, p1, recs.drop_first());
        lemma_fold_key_layout(teams, p1, recs.drop_first());
        let f = upsert_players_fold(teams, players, recs);
        assert(f == upsert_players_fold(teams, p1, recs.drop_first()));
        assert forall|i: int|
            0 <= i < f.len() && has_roster_key(recs, (#[trigger] f[i]).nfl_id) implies f[i]
            == PlayerModel {
            id: f[i].id,
            ..incoming_player(teams, last_with_key(recs, f[i].nfl_id))
        } by {
            let k = f[i].nfl_id;
            if has_roster_key(recs.drop_first(), k) {
                lemma_last_key_drop_first(recs, k);
            } else {
                assert(k == k0) by {
                    let j = choose|j: int|
                        0 <= j < recs.len() && (#[trigger] recs[j]).gsis_id == k;
                    if j > 0 {
                        assert(recs.drop_first()[j - 1] == recs[j]);
                        assert(has_roster_key(recs.drop_first(), k));
                    }
                }
                assert(i < p1.len());
                assert forall|j: int|
                    0 <= j < recs.drop_first().len() implies (
                    #[trigger] recs.drop_first()[j]).gsis_id != p1[i].nfl_id by {}
                lemma_fold_preserves_row(teams, p1, recs.drop_first(), i);
                assert(f[i] == p1[i]);
                if exists|w: int|
                    0 <= w < players.len() && (#[trigger] players[w]).nfl_id == inc0.nfl_id {
                    let c = choose|w: int|
                        0 <= w < players.len() && (#[trigger] players[w]).nfl_id == inc0.nfl_id;
                    assert(p1 == players.update(c, PlayerModel { id: players[c].id, ..inc0 }));
                    assert(i == c) by {
                        if i != c {
                            assert(p1[i] == players[i]);
                            assert(players[i].nfl_id != players[c].nfl_id);
                        }
                    }
                    assert(p1[i] == PlayerModel { id: p1[i].id, ..inc0 });
                } else {
                    assert(p1 == players.push(
                        PlayerModel { id: players.len() as u64, ..inc0 },
                    ));
                    assert(i == players.len() as int) by {
                        if i < players.len() {
                            assert(players[i].nfl_id != inc0.nfl_id);
                        }
                    }
                    assert(p1[i] == PlayerModel { id: p1[i].id, ..inc0 });
                }
                lemma_last_key_head(recs, k0);
            }
        }
    }
}

/// Idempotence of the roster import: upserting the same batch of
/// roster records twice, in the same order, leaves exactly the table
/// one pass leaves — for every key, the last write wins both times,
/// under the identity the first pass settled. Row counts, field
/// values and surrogate identities all coincide.
pub proof fn lemma_roster_import_idempotent(
    teams: Seq<TeamModel>,
    players: Seq<PlayerModel>,
    recs: Seq<RosterView>,
)
    requires
        player_ids_ok(players),
        player_keys_unique(players),
    ensures
        upsert_players_fold(teams, upsert_players_fold(teams, players, recs), recs)
            == upsert_players_fold(teams, players, recs),
{
    let f = upsert_players_fold(teams, players, recs);
    lemma_players_fold_wf(teams, players, recs);
    lemma_fold_has_all_keys(teams, players, recs);
    lemma_fold_last_values(teams, players, recs);
    lemma_fold_override(teams, f, recs);
    assert forall|i: int| 0 <= i < f.len() implies roster_overridden(teams, f, recs)[i]
        == f[i] by {
        if has_roster_key(recs, f[i].nfl_id) {
            assert(f[i] == PlayerModel {
                id: f[i].id,
                ..incoming_player(teams, last_with_key(recs, f[i].nfl_id))
            });
        }
    }
    assert(roster_overridden(teams, f, recs) =~= f);
}


/// Whether any record of the batch actually writes under this game
/// key: it carries the key and both its teams resolve.
pub open spec fn has_game_write(teams: Seq<TeamModel>, recs: Seq<GameView>, k: Seq<char>) -> bool {
    exists|j: int|
        0 <= j < recs.len() && (#[trigger] recs[j]).game_id == k && incoming_game(teams, recs[j])
            is Some
}

/// The last record of the batch that writes under this game key.
pub open spec fn last_game_write(
    teams: Seq<TeamModel>,
    recs: Seq<GameView>,
    k: Seq<char>,
) -> GameView
    decreases recs.len(),
{
    if recs.len() == 0 {
        recs[0]
    } else if recs.last().game_id == k && incoming_game(teams, recs.last()) is Some {
        recs.last()
    } else {
        last_game_write(teams, recs.drop_last(), k)
    }
}

proof fn lemma_last_game_write_drop_first(teams: Seq<TeamModel>, recs: Seq<GameView>, k: Seq<char>)
    requires
        recs.len() >= 1,
        has_game_write(teams, recs.drop_first(), k),
    ensures
        last_game_write(teams, recs, k) == last_game_write(teams, recs.drop_first(), k),
    decreases recs.len(),
{
    let d = recs.drop_first();
    let j = choose|j: int|
        0 <= j < d.len() && (#[trigger] d[j]).game_id == k && incoming_game(teams, d[j]) is Some;
    assert(recs.len() >= 2);
    assert(d.last() == recs.last());
    if recs.last().game_id == k && incoming_game(teams, recs.last()) is Some {
    } else {
        assert(j < d.len() - 1);
        assert(recs.drop_last().drop_first() =~= d.drop_last());
        assert(d.drop_last()[j] == d[j]);
        assert(has_game_write(teams, recs.drop_last().drop_first(), k));
        lemma_last_game_write_drop_first(teams, recs.drop_last(), k);
    }
}

proof fn lemma_last_game_write_head(teams: Seq<TeamModel>, recs: Seq<GameView>, k: Seq<char>)
    requires
        recs.len() >= 1,
        recs[0].game_id == k,
        incoming_game(teams, recs[0]) is Some,
        !has_game_write(teams, recs.drop_first(), k),
    ensures
        last_game_write(teams, recs, k) == recs[0],
    decreases recs.len(),
{
    if recs.len() == 1 {
        assert(recs.last() == recs[0]);
    } else {
        assert(recs.drop_first()[recs.len() - 2] == recs.last());
        assert(!(recs.last().game_id == k && incoming_game(teams, recs.last()) is Some));
        assert(recs.drop_last()[0] == recs[0]);
        assert(recs.drop_last().drop_first() =~= recs.drop_first().drop_last());
        assert forall|j: int|
            0 <= j < recs.drop_last().drop_first().len() implies !((
            #[trigger] recs.drop_last().drop_first()[j]).game_id == k && incoming_game(
                teams,
                recs.drop_last().drop_first()[j],
            ) is Some) by {
            assert(recs.drop_first().drop_last()[j] == recs.drop_first()[j]);
        }
        lemma_last_game_write_head(teams, recs.drop_last(), k);
    }
}

/// A game fold never disturbs a row none of whose writers target it.
proof fn lemma_game_fold_preserves_nonwritten_row(
    teams: Seq<TeamModel>,
    games: Seq<GameModel>,
    recs: Seq<GameView>,
    at: int,
)
    requires
        game_ids_ok(games),
        game_keys_unique(games),
        0 <= at < games.len(),
        forall|j: int|
            0 <= j < recs.len() && incoming_game(teams, #[trigger] recs[j]) is Some ==> recs[j].game_id != games[at].nfl_game_id,
    ensures
        upsert_games_fold(teams, games, recs)[at] == games[at],
    decreases recs.len(),
{
    lemma_games_fold_wf(teams, games, recs);
    if recs.len() > 0 {
        let inc = incoming_game(teams, recs[0]);
        let g1 = upsert_game_seq(games, inc);
        lemma_upsert_game_wf(games, inc);
        match inc {
            None => {
                assert(g1[at] == games[at]);
            },
            Some(g) => {
                assert(g.nfl_game_id == recs[0].game_id);
                if exists|i: int|
                    0 <= i < games.len() && (#[trigger] games[i]).nfl_game_id == g.nfl_game_id {
                    let c = choose|i: int|
                        0 <= i < games.len() && (#[trigger] games[i]).nfl_game_id == g.nfl_game_id;
                    assert(c != at);
                    assert(g1[at] == games[at]);
                } else {
                    assert(g1[at] == games[at]);
                }
            },
        }
        assert forall|j: int|
            0 <= j < recs.drop_first().len() && incoming_game(
                teams,
                #[trigger] recs.drop_first()[j],
            ) is Some implies recs.drop_first()[j].game_id != g1[at].nfl_game_id by {
            assert(recs.drop_first()[j] == recs[j + 1]);
        }
        lemma_game_fold_preserves_nonwritten_row(teams, g1, recs.drop_first(), at);
    }
}

/// After a game fold, the rows that were already there keep their
/// places, keys and identities, and every appended row was written by
/// the batch.
proof fn lemma_game_fold_key_layout(
    teams: Seq<TeamModel>,
    games: Seq<GameModel>,
    recs: Seq<GameView>,
)
    requires
        game_ids_ok(games),
        game_keys_unique(games),
    ensures
        upsert_games_fold(teams, games, recs).len() >= games.len(),
        forall|i: int|
            0 <= i < games.len() ==> (#[trigger] upsert_games_fold(teams, games, recs)[i]).nfl_game_id
                == games[i].nfl_game_id && upsert_games_fold(teams, games, recs)[i].id
                == games[i].id,
        forall|i: int|
            games.len() <= i < upsert_games_fold(teams, games, recs).len() ==> has_game_write(
                teams,
                recs,
                (#[trigger] upsert_games_fold(teams, games, recs)[i]).nfl_game_id,
            ),
    decreases recs.len(),
{
    if recs.len() > 0 {
        let inc0 = incoming_game(teams, recs[0]);
        let g1 = upsert_game_seq(games, inc0);
        lemma_upsert_game_wf(games, inc0);
        lemma_game_fold_key_layout(teams, g1, recs.drop_first());
        let f = upsert_games_fold(teams, games, recs);
        assert(f == upsert_games_fold(teams, g1, recs.drop_first()));
        match inc0 {
            None => {
                assert(g1 == games);
            },
            Some(g) => {
                if exists|i: int|
                    0 <= i < games.len() && (#[trigger] games[i]).nfl_game_id == g.nfl_game_id {
                    let c = choose|i: int|
                        0 <= i < games.len() && (#[trigger] games[i]).nfl_game_id == g.nfl_game_id;
                    assert(g1 == games.update(c, GameModel { id: games[c].id, ..g }));
                } else {
                    assert(g1 == games.push(GameModel { id: games.len() as u64, ..g }));
                    assert(g1[games.len() as int].nfl_game_id == recs[0].game_id);
                }
            },
        }
        assert forall|i: int|
            games.len() <= i < f.len() implies has_game_write(
            teams,
            recs,
            (#[trigger] f[i]).nfl_game_id,
        ) by {
            if i < g1.len() {
                assert(f[i].nfl_game_id == g1[i].nfl_game_id);
                assert(inc0 is Some);
                assert(g1[i].nfl_game_id == recs[0].game_id);
            } else {
                assert(has_game_write(teams, recs.drop_first(), f[i].nfl_game_id));
                let d = recs.drop_first();
                let j = choose|j: int|
                    0 <= j < d.len() && (#[trigger] d[j]).game_id == f[i].nfl_game_id
                        && incoming_game(teams, d[j]) is Some;
                assert(recs[j + 1] == d[j]);
            }
        }
    }
}

/// After a game fold, every record that writes has its key present.
proof fn lemma_game_fold_has_all_writes(
    teams: Seq<TeamModel>,
    games: Seq<GameModel>,
    recs: Seq<GameView>,
)
    requires
        game_ids_ok(games),
        game_keys_unique(games),
    ensures
        forall|j: int|
            0 <= j < recs.len() && incoming_game(teams, #[trigger] recs[j]) is Some
                ==> exists|i: int|
                0 <= i < upsert_games_fold(teams, games, recs).len() && (
                #[trigger] upsert_games_fold(teams, games, recs)[i]).nfl_game_id == recs[j].game_id,
    decreases recs.len(),
{
    if recs.len() > 0 {
        let inc0 = incoming_game(teams, recs[0]);
        let g1 = upsert_game_seq(games, inc0);
        lemma_upsert_game_wf(games, inc0);
        lemma_game_fold_has_all_writes(teams, g1, recs.drop_first());
        lemma_game_fold_key_layout(teams, g1, recs.drop_first());
        let f = upsert_games_fold(teams, games, recs);
        assert(f == upsert_games_fold(teams, g1, recs.drop_first()));
        assert forall|j: int|
            0 <= j < recs.len() && incoming_game(teams, #[trigger] recs[j]) is Some
            implies exists|i: int|
            0 <= i < f.len() && (#[trigger] f[i]).nfl_game_id == recs[j].game_id by {
            if j == 0 {
                let g = inc0->0;
                assert(holds_game(g1, g));
                let h = choose|i: int|
                    0 <= i < g1.len() && (#[trigger] g1[i]) == GameModel { id: g1[i].id, ..g };
                assert(g1[h].nfl_game_id == g.nfl_game_id);
                assert(f[h].nfl_game_id == g1[h].nfl_game_id);
            } else {
                let d = recs.drop_first();
                assert(d[j - 1] == recs[j]);
                assert(exists|i: int|
                    0 <= i < f.len() && (#[trigger] f[i]).nfl_game_id == d[j - 1].game_id);
            }
        }
    }
}

/// The table a game fold leaves, row by row: a row the batch writes
/// holds the last writer's fields under its own identity; every other
/// row is untouched.
pub open spec fn game_overridden(
    teams: Seq<TeamModel>,
    q: Seq<GameModel>,
    recs: Seq<GameView>,
) -> Seq<GameModel> {
    Seq::new(
        q.len(),
        |i: int|
            if has_game_write(teams, recs, q[i].nfl_game_id) {
                GameModel {
                    id: q[i].id,
                    ..incoming_game(teams, last_game_write(teams, recs, q[i].nfl_game_id))->0
                }
            } else {
                q[i]
            },
    )
}

/// When every writing key is already present, a game fold is exactly
/// the row-by-row override: nothing is appended.
proof fn lemma_game_fold_override(teams: Seq<TeamModel>, q: Seq<GameModel>, recs: Seq<GameView>)
    requires
        game_ids_ok(q),
        game_keys_unique(q),
        forall|j: int|
            0 <= j < recs.len() && incoming_game(teams, #[trigger] recs[j]) is Some
                ==> exists|i: int| 0 <= i < q.len() && (#[trigger] q[i]).nfl_game_id == recs[j].game_id,
    ensures
        upsert_games_fold(teams, q, recs) == game_overridden(teams, q, recs),
    decreases recs.len(),
{
    if recs.len() == 0 {
        assert(game_overridden(teams, q, recs) =~= q);
    } else {
        let inc0 = incoming_game(teams, recs[0]);
        let k0 = recs[0].game_id;
        let q1 = upsert_game_seq(q, inc0);
        lemma_upsert_game_wf(q, inc0);
        assert forall|j: int|
            0 <= j < recs.drop_first().len() && incoming_game(
                teams,
                #[trigger] recs.drop_first()[j],
            ) is Some implies exists|i: int|
            0 <= i < q1.len() && (#[trigger] q1[i]).nfl_game_id == recs.drop_first()[j].game_id by {
            assert(recs.drop_first()[j] == recs[j + 1]);
            let w = choose|i: int|
                0 <= i < q.len() && (#[trigger] q[i]).nfl_game_id == recs[j + 1].game_id;
            assert(q1.len() == q.len() && q1[w].nfl_game_id == q[w].nfl_game_id) by {
                lemma_game_layout_of_upsert(teams, q, recs[0]);
            }
        }
        lemma_game_fold_override(teams, q1, recs.drop_first());
        assert(upsert_games_fold(teams, q, recs) == game_overridden(
            teams,
            q1,
            recs.drop_first(),
        ));
        assert forall|i: int| 0 <= i < q.len() implies game_overridden(
            teams,
            q1,
            recs.drop_first(),
        )[i] == game_overridden(teams, q, recs)[i] by {
            lemma_game_layout_of_upsert(teams, q, recs[0]);
            let k = q[i].nfl_game_id;
            assert(q1[i].nfl_game_id == k);
            assert(q1[i].id == q[i].id);
            if has_game_write(teams, recs.drop_first(), k) {
                assert(has_game_write(teams, recs, k)) by {
                    let d = recs.drop_first();
                    let j = choose|j: int|
                        0 <= j < d.len() && (#[trigger] d[j]).game_id == k && incoming_game(
                            teams,
                            d[j],
                        ) is Some;
                    assert(recs[j + 1] == d[j]);
                }
                lemma_last_game_write_drop_first(teams, recs, k);
            } else if k == k0 && inc0 is Some {
                let g = inc0->0;
                let c = choose|w: int|
                    0 <= w < q.len() && (#[trigger] q[w]).nfl_game_id == g.nfl_game_id;
                assert(q1 == q.update(c, GameModel { id: q[c].id, ..g }));
                assert(i == c);
                assert(q1[c] == GameModel { id: q[c].id, ..g });
                assert(has_game_write(teams, recs, k0));
                lemma_last_game_write_head(teams, recs, k0);
            } else {
                assert(q1[i] == q[i]);
                assert(!has_game_write(teams, recs, k)) by {
                    if has_game_write(teams, recs, k) {
                        let j = choose|j: int|
                            0 <= j < recs.len() && (#[trigger] recs[j]).game_id == k
                                && incoming_game(teams, recs[j]) is Some;
                        if j == 0 {
                            assert(k == k0 && inc0 is Some);
                        } else {
                            assert(recs.drop_first()[j - 1] == recs[j]);
                            assert(has_game_write(teams, recs.drop_first(), k));
                        }
                    }
                }
            }
        }
        assert(game_overridden(teams, q1, recs.drop_first()) =~= game_overridden(
            teams,
            q,
            recs,
        ));
    }
}

/// One game upsert keeps every row's place, key and identity.
proof fn lemma_game_layout_of_upsert(teams: Seq<TeamModel>, q: Seq<GameModel>, r: GameView)
    requires
        game_ids_ok(q),
        game_keys_unique(q),
        incoming_game(teams, r) is Some ==> exists|i: int|
            0 <= i < q.len() && (#[trigger] q[i]).nfl_game_id == r.game_id,
    ensures
        upsert_game_seq(q, incoming_game(teams, r)).len() == q.len(),
        forall|i: int|
            0 <= i < q.len() ==> (#[trigger] upsert_game_seq(q, incoming_game(teams, r))[i]).nfl_game_id == q[i].nfl_game_id && upsert_game_seq(q, incoming_game(teams, r))[i].id == q[i].id,
{
    match incoming_game(teams, r) {
        None => {},
        Some(g) => {
            assert(g.nfl_game_id == r.game_id);
            let w = choose|i: int| 0 <= i < q.len() && (#[trigger] q[i]).nfl_game_id == r.game_id;
            assert(exists|i: int| 0 <= i < q.len() && (#[trigger] q[i]).nfl_game_id == g.nfl_game_id);
            let c = choose|i: int|
                0 <= i < q.len() && (#[trigger] q[i]).nfl_game_id == g.nfl_game_id;
            assert(upsert_game_seq(q, Some(g)) == q.update(c, GameModel { id: q[c].id, ..g }));
        },
    }
}

/// After a game fold, every row the batch writes holds the last
/// writer's fields.
proof fn lemma_game_fold_last_values(
    teams: Seq<TeamModel>,
    games: Seq<GameModel>,
    recs: Seq<GameView>,
)
    requires
        game_ids_ok(games),
        game_keys_unique(games),
    ensures
        forall|i: int|
            0 <= i < upsert_games_fold(teams, games, recs).len() && has_game_write(
                teams,
                recs,
                (#[trigger] upsert_games_fold(teams, games, recs)[i]).nfl_game_id,
            ) ==> upsert_games_fold(teams, games, recs)[i] == (GameModel {
                id: upsert_games_fold(teams, games, recs)[i].id,
                ..incoming_game(
                    teams,
                    last_game_write(
                        teams,
                        recs,
                        upsert_games_fold(teams, games, recs)[i].nfl_game_id,
                    ),
                )->0
            }),
    decreases recs.len(),
{
    if recs.len() > 0 {
        let inc0 = incoming_game(teams, recs[0]);
        let k0 = recs[0].game_id;
        let g1 = upsert_game_seq(games, inc0);
        lemma_upsert_game_wf(games, inc0);
        lemma_game_fold_last_values(teams, g1, recs.drop_first());
        lemma_game_fold_key_layout(teams, g1, recs.drop_first());
        let f = upsert_games_fold(teams, games, recs);
        assert(f == upsert_games_fold(teams, g1, recs.drop_first()));
        assert forall|i: int|
            0 <= i < f.len() && has_game_write(teams, recs, (#[trigger] f[i]).nfl_game_id)
            implies f[i] == (GameModel {
            id: f[i].id,
            ..incoming_game(teams, last_game_write(teams, recs, f[i].nfl_game_id))->0
        }) by {
            let k = f[i].nfl_game_id;
            if has_game_write(teams, recs.drop_first(), k) {
                lemma_last_game_write_drop_first(teams, recs, k);
            } else {
                assert(k == k0 && inc0 is Some) by {
                    let j = choose|j: int|
                        0 <= j < recs.len() && (#[trigger] recs[j]).game_id == k && incoming_game(
                            teams,
                            recs[j],
                        ) is Some;
                    if j > 0 {
                        assert(recs.drop_first()[j - 1] == recs[j]);
                        assert(has_game_write(teams, recs.drop_first(), k));
                    }
                }
                let g = inc0->0;
                assert(i < g1.len());
                assert forall|j: int|
                    0 <= j < recs.drop_first().len() && incoming_game(
                        teams,
                        #[trigger] recs.drop_first()[j],
                    ) is Some implies recs.drop_first()[j].game_id != g1[i].nfl_game_id by {
                    assert(recs.drop_first()[j] == recs[j + 1]);
                }
                lemma_game_fold_preserves_nonwritten_row(teams, g1, recs.drop_first(), i);
                assert(f[i] == g1[i]);
                if exists|w: int|
                    0 <= w < games.len() && (#[trigger] games[w]).nfl_game_id == g.nfl_game_id {
                    let c = choose|w: int|
                        0 <= w < games.len() && (#[trigger] games[w]).nfl_game_id == g.nfl_game_id;
                    assert(g1 == games.update(c, GameModel { id: games[c].id, ..g }));
                    assert(i == c) by {
                        if i != c {
                            assert(g1[i] == games[i]);
                            assert(games[i].nfl_game_id != games[c].nfl_game_id);
                        }
                    }
                    assert(g1[i] == GameModel { id: g1[i].id, ..g });
                } else {
                    assert(g1 == games.push(GameModel { id: games.len() as u64, ..g }));
                    assert(i == games.len() as int) by {
                        if i < games.len() {
                            assert(games[i].nfl_game_id != g.nfl_game_id);
                        }
                    }
                    assert(g1[i] == GameModel { id: g1[i].id, ..g });
                }
                lemma_last_game_write_head(teams, recs, k0);
            }
        }
    }
}

/// Idempotence of the schedule import: upserting the same batch of
/// game records twice, in the same order, leaves exactly the table
/// one pass leaves — for every key, the last resolvable write wins
/// both times, and unresolvable records are dropped both times.
pub proof fn lemma_schedule_import_idempotent(
    teams: Seq<TeamModel>,
    games: Seq<GameModel>,
    recs: Seq<GameView>,
)
    requires
        game_ids_ok(games),
        game_keys_unique(games),
    ensures
        upsert_games_fold(teams, upsert_games_fold(teams, games, recs), recs)
            == upsert_games_fold(teams, games, recs),
{
    let f = upsert_games_fold(teams, games, recs);
    lemma_games_fold_wf(teams, games, recs);
    lemma_game_fold_has_all_writes(teams, games, recs);
    lemma_game_fold_last_values(teams, games, recs);
    lemma_game_fold_override(teams, f, recs);
    assert forall|i: int| 0 <= i < f.len() implies game_overridden(teams, f, recs)[i]
        == f[i] by {
        if has_game_write(teams, recs, f[i].nfl_game_id) {
            assert(f[i] == (GameModel {
                id: f[i].id,
                ..incoming_game(teams, last_game_write(teams, recs, f[i].nfl_game_id))->0
            }));
        }
    }
    assert(game_overridden(teams, f, recs) =~= f);
}


/// Whether any record of the batch actually writes under this stat
/// key: its player resolves and the resolved key matches.
pub open spec fn has_stat_write(
    players: Seq<PlayerModel>,
    recs: Seq<StatView>,
    k: (u64, i32, i32),
) -> bool {
    exists|j: int|
        0 <= j < recs.len() && incoming_stat(players, #[trigger] recs[j]) is Some && stat_rec_key(
            players,
            recs[j],
        ) == k
}

/// The last record of the batch that writes under this stat key.
pub open spec fn last_stat_write(
    players: Seq<PlayerModel>,
    recs: Seq<StatView>,
    k: (u64, i32, i32),
) -> StatView
    decreases recs.len(),
{
    if recs.len() == 0 {
        recs[0]
    } else if incoming_stat(players, recs.last()) is Some && stat_rec_key(players, recs.last())
        == k {
        recs.last()
    } else {
        last_stat_write(players, recs.drop_last(), k)
    }
}

proof fn lemma_last_stat_write_drop_first(
    players: Seq<PlayerModel>,
    recs: Seq<StatView>,
    k: (u64, i32, i32),
)
    requires
        recs.len() >= 1,
        has_stat_write(players, recs.drop_first(), k),
    ensures
        last_stat_write(players, recs, k) == last_stat_write(players, recs.drop_first(), k),
    decreases recs.len(),
{
    let d = recs.drop_first();
    let j = choose|j: int|
        0 <= j < d.len() && incoming_stat(players, #[trigger] d[j]) is Some && stat_rec_key(
            players,
            d[j],
        ) == k;
    assert(recs.len() >= 2);
    assert(d.last() == recs.last());
    if incoming_stat(players, recs.last()) is Some && stat_rec_key(players, recs.last()) == k {
    } else {
        assert(j < d.len() - 1);
        assert(recs.drop_last().drop_first() =~= d.drop_last());
        assert(d.drop_last()[j] == d[j]);
        assert(has_stat_write(players, recs.drop_last().drop_first(), k));
        lemma_last_stat_write_drop_first(players, recs.drop_last(), k);
    }
}

proof fn lemma_last_stat_write_head(
    players: Seq<PlayerModel>,
    recs: Seq<StatView>,
    k: (u64, i32, i32),
)
    requires
        recs.len() >= 1,
        incoming_stat(players, recs[0]) is Some,
        stat_rec_key(players, recs[0]) == k,
        !has_stat_write(players, recs.drop_first(), k),
    ensures
        last_stat_write(players, recs, k) == recs[0],
    decreases recs.len(),
{
    if recs.len() == 1 {
        assert(recs.last() == recs[0]);
    } else {
        assert(recs.drop_first()[recs.len() - 2] == recs.last());
        assert(!(incoming_stat(players, recs.last()) is Some && stat_rec_key(players, recs.last())
            == k));
        assert(recs.drop_last()[0] == recs[0]);
        assert(recs.drop_last().drop_first() =~= recs.drop_first().drop_last());
        assert forall|j: int|
            0 <= j < recs.drop_last().drop_first().len() implies !(incoming_stat(
            players,
            #[trigger] recs.drop_last().drop_first()[j],
        ) is Some && stat_rec_key(players, recs.drop_last().drop_first()[j]) == k) by {
            assert(recs.drop_first().drop_last()[j] == recs.drop_first()[j]);
        }
        lemma_last_stat_write_head(players, recs.drop_last(), k);
    }
}

/// After a stat fold, the rows that were already there keep their
/// places, keys and identities, and every appended row was written by
/// the batch.
proof fn lemma_stat_fold_key_layout(
    players: Seq<PlayerModel>,
    stats: Seq<StatRow>,
    recs: Seq<StatView>,
)
    requires
        stat_ids_ok(stats),
        stat_keys_unique(stats),
    ensures
        upsert_stats_fold(players, stats, recs).len() >= stats.len(),
        forall|i: int|
            0 <= i < stats.len() ==> stat_key(
                #[trigger] upsert_stats_fold(players, stats, recs)[i],
            ) == stat_key(stats[i]) && upsert_stats_fold(players, stats, recs)[i].id == stats[i].id,
        forall|i: int|
            stats.len() <= i < upsert_stats_fold(players, stats, recs).len() ==> has_stat_write(
                players,
                recs,
                stat_key(#[trigger] upsert_stats_fold(players, stats, recs)[i]),
            ),
    decreases recs.len(),
{
    if recs.len() > 0 {
        let inc0 = incoming_stat(players, recs[0]);
        let s1 = upsert_stat_seq(stats, inc0);
        lemma_upsert_stat_wf(stats, inc0);
        lemma_stat_fold_key_layout(players, s1, recs.drop_first());
        let f = upsert_stats_fold(players, stats, recs);
        assert(f == upsert_stats_fold(players, s1, recs.drop_first()));
        match inc0 {
            None => {
                assert(s1 == stats);
            },
            Some(g) => {
                if exists|i: int|
                    0 <= i < stats.len() && stat_key(#[trigger] stats[i]) == stat_key(g) {
                    let c = choose|i: int|
                        0 <= i < stats.len() && stat_key(#[trigger] stats[i]) == stat_key(g);
                    assert(s1 == stats.update(c, StatRow { id: stats[c].id, ..g }));
                } else {
                    assert(s1 == stats.push(StatRow { id: stats.len() as u64, ..g }));
                    assert(stat_key(s1[stats.len() as int]) == stat_rec_key(players, recs[0]));
                }
            },
        }
        assert forall|i: int|
            stats.len() <= i < f.len() implies has_stat_write(
            players,
            recs,
            stat_key(#[trigger] f[i]),
        ) by {
            if i < s1.len() {
                assert(stat_key(f[i]) == stat_key(s1[i]));
                assert(inc0 is Some);
                assert(stat_key(s1[i]) == stat_rec_key(players, recs[0]));
            } else {
                assert(has_stat_write(players, recs.drop_first(), stat_key(f[i])));
                let d = recs.drop_first();
                let j = choose|j: int|
                    0 <= j < d.len() && incoming_stat(players, #[trigger] d[j]) is Some
                        && stat_rec_key(players, d[j]) == stat_key(f[i]);
                assert(recs[j + 1] == d[j]);
            }
        }
    }
}

/// After a stat fold, every record that writes has its key present.
proof fn lemma_stat_fold_has_all_writes(
    players: Seq<PlayerModel>,
    stats: Seq<StatRow>,
    recs: Seq<StatView>,
)
    requires
        stat_ids_ok(stats),
        stat_keys_unique(stats),
    ensures
        forall|j: int|
            0 <= j < recs.len() && incoming_stat(players, #[trigger] recs[j]) is Some
                ==> exists|i: int|
                0 <= i < upsert_stats_fold(players, stats, recs).len() && stat_key(
                    #[trigger] upsert_stats_fold(players, stats, recs)[i],
                ) == stat_rec_key(players, recs[j]),
    decreases recs.len(),
{
    if recs.len() > 0 {
        let inc0 = incoming_stat(players, recs[0]);
        let s1 = upsert_stat_seq(stats, inc0);
        lemma_upsert_stat_wf(stats, inc0);
        lemma_stat_fold_has_all_writes(players, s1, recs.drop_first());
        lemma_stat_fold_key_layout(players, s1, recs.drop_first());
        let f = upsert_stats_fold(players, stats, recs);
        assert(f == upsert_stats_fold(players, s1, recs.drop_first()));
        assert forall|j: int|
            0 <= j < recs.len() && incoming_stat(players, #[trigger] recs[j]) is Some
            implies exists|i: int|
            0 <= i < f.len() && stat_key(#[trigger] f[i]) == stat_rec_key(players, recs[j]) by {
            if j == 0 {
                let g = inc0->0;
                assert(holds_stat(s1, g));
                let h = choose|i: int|
                    0 <= i < s1.len() && (#[trigger] s1[i]) == StatRow { id: s1[i].id, ..g };
                assert(stat_key(s1[h]) == stat_key(g));
                assert(stat_key(f[h]) == stat_key(s1[h]));
            } else {
                let d = recs.drop_first();
                assert(d[j - 1] == recs[j]);
                assert(exists|i: int|
                    0 <= i < f.len() && stat_key(#[trigger] f[i]) == stat_rec_key(
                        players,
                        d[j - 1],
                    ));
            }
        }
    }
}

/// The table a stat fold leaves, row by row.
pub open spec fn stat_overridden(
    players: Seq<PlayerModel>,
    q: Seq<StatRow>,
    recs: Seq<StatView>,
) -> Seq<StatRow> {
    Seq::new(
        q.len(),
        |i: int|
            if has_stat_write(players, recs, stat_key(q[i])) {
                StatRow {
                    id: q[i].id,
                    ..incoming_stat(players, last_stat_write(players, recs, stat_key(q[i])))->0
                }
            } else {
                q[i]
            },
    )
}

/// One stat upsert keeps every row's place, key and identity when the
/// incoming key is already present.
proof fn lemma_stat_layout_of_upsert(players: Seq<PlayerModel>, q: Seq<StatRow>, r: StatView)
    requires
        stat_ids_ok(q),
        stat_keys_unique(q),
        incoming_stat(players, r) is Some ==> exists|i: int|
            0 <= i < q.len() && stat_key(#[trigger] q[i]) == stat_rec_key(players, r),
    ensures
        upsert_stat_seq(q, incoming_stat(players, r)).len() == q.len(),
        forall|i: int|
            0 <= i < q.len() ==> stat_key(
                #[trigger] upsert_stat_seq(q, incoming_stat(players, r))[i],
            ) == stat_key(q[i]) && upsert_stat_seq(q, incoming_stat(players, r))[i].id == q[i].id,
{
    match incoming_stat(players, r) {
        None => {},
        Some(g) => {
            assert(stat_key(g) == stat_rec_key(players, r));
            let w = choose|i: int|
                0 <= i < q.len() && stat_key(#[trigger] q[i]) == stat_rec_key(players, r);
            assert(exists|i: int| 0 <= i < q.len() && stat_key(#[trigger] q[i]) == stat_key(g));
            let c = choose|i: int| 0 <= i < q.len() && stat_key(#[trigger] q[i]) == stat_key(g);
            assert(upsert_stat_seq(q, Some(g)) == q.update(c, StatRow { id: q[c].id, ..g }));
        },
    }
}

/// When every writing key is already present, a stat fold is exactly
/// the row-by-row override: nothing is appended.
proof fn lemma_stat_fold_override(
    players: Seq<PlayerModel>,
    q: Seq<StatRow>,
    recs: Seq<StatView>,
)
    requires
        stat_ids_ok(q),
        stat_keys_unique(q),
        forall|j: int|
            0 <= j < recs.len() && incoming_stat(players, #[trigger] recs[j]) is Some
                ==> exists|i: int|
                0 <= i < q.len() && stat_key(#[trigger] q[i]) == stat_rec_key(players, recs[j]),
    ensures
        upsert_stats_fold(players, q, recs) == stat_overridden(players, q, recs),
    decreases recs.len(),
{
    if recs.len() == 0 {
        assert(stat_overridden(players, q, recs) =~= q);
    } else {
        let inc0 = incoming_stat(players, recs[0]);
        let ghost k0 = stat_rec_key(players, recs[0]);
        let q1 = upsert_stat_seq(q, inc0);
        lemma_upsert_stat_wf(q, inc0);
        lemma_stat_layout_of_upsert(players, q, recs[0]);
        assert forall|j: int|
            0 <= j < recs.drop_first().len() && incoming_stat(
                players,
                #[trigger] recs.drop_first()[j],
            ) is Some implies exists|i: int|
            0 <= i < q1.len() && stat_key(#[trigger] q1[i]) == stat_rec_key(
                players,
                recs.drop_first()[j],
            ) by {
            assert(recs.drop_first()[j] == recs[j + 1]);
            let w = choose|i: int|
                0 <= i < q.len() && stat_key(#[trigger] q[i]) == stat_rec_key(
                    players,
                    recs[j + 1],
                );
            assert(stat_key(q1[w]) == stat_key(q[w]));
        }
        lemma_stat_fold_override(players, q1, recs.drop_first());
        assert(upsert_stats_fold(players, q, recs) == stat_overridden(
            players,
            q1,
            recs.drop_first(),
        ));
        assert forall|i: int| 0 <= i < q.len() implies stat_overridden(
            players,
            q1,
            recs.drop_first(),
        )[i] == stat_overridden(players, q, recs)[i] by {
            let k = stat_key(q[i]);
            assert(stat_key(q1[i]) == k);
            assert(q1[i].id == q[i].id);
            if has_stat_write(players, recs.drop_first(), k) {
                assert(has_stat_write(players, recs, k)) by {
                    let d = recs.drop_first();
                    let j = choose|j: int|
                        0 <= j < d.len() && incoming_stat(players, #[trigger] d[j]) is Some
                            && stat_rec_key(players, d[j]) == k;
                    assert(recs[j + 1] == d[j]);
                }
                lemma_last_stat_write_drop_first(players, recs, k);
            } else if inc0 is Some && k == k0 {
                let g = inc0->0;
                let c = choose|w: int| 0 <= w < q.len() && stat_key(#[trigger] q[w]) == stat_key(g);
                assert(q1 == q.update(c, StatRow { id: q[c].id, ..g }));
                assert(i == c);
                assert(q1[c] == StatRow { id: q[c].id, ..g });
                assert(has_stat_write(players, recs, k0));
                lemma_last_stat_write_head(players, recs, k0);
            } else {
                assert(q1[i] == q[i]);
                assert(!has_stat_write(players, recs, k)) by {
                    if has_stat_write(players, recs, k) {
                        let j = choose|j: int|
                            0 <= j < recs.len() && incoming_stat(players, #[trigger] recs[j])
                                is Some && stat_rec_key(players, recs[j]) == k;
                        if j == 0 {
                            assert(inc0 is Some && k == k0);
                        } else {
                            assert(recs.drop_first()[j - 1] == recs[j]);
                            assert(has_stat_write(players, recs.drop_first(), k));
                        }
                    }
                }
            }
        }
        assert(stat_overridden(players, q1, recs.drop_first()) =~= stat_overridden(
            players,
            q,
            recs,
        ));
    }
}

/// After a stat fold, every row the batch writes holds the last
/// writer's fields.
proof fn lemma_stat_fold_last_values(
    players: Seq<PlayerModel>,
    stats: Seq<StatRow>,
    recs: Seq<StatView>,
)
    requires
        stat_ids_ok(stats),
        stat_keys_unique(stats),
    ensures
        forall|i: int|
            0 <= i < upsert_stats_fold(players, stats, recs).len() && has_stat_write(
                players,
                recs,
                stat_key(#[trigger] upsert_stats_fold(players, stats, recs)[i]),
            ) ==> upsert_stats_fold(players, stats, recs)[i] == (StatRow {
                id: upsert_stats_fold(players, stats, recs)[i].id,
                ..incoming_stat(
                    players,
                    last_stat_write(
                        players,
                        recs,
                        stat_key(upsert_stats_fold(players, stats, recs)[i]),
                    ),
                )->0
            }),
    decreases recs.len(),
{
    if recs.len() > 0 {
        let inc0 = incoming_stat(players, recs[0]);
        let ghost k0 = stat_rec_key(players, recs[0]);
        let s1 = upsert_stat_seq(stats, inc0);
        lemma_upsert_stat_wf(stats, inc0);
        lemma_stat_fold_last_values(players, s1, recs.drop_first());
        lemma_stat_fold_key_layout(players, s1, recs.drop_first());
        let f = upsert_stats_fold(players, stats, recs);
        assert(f == upsert_stats_fold(players, s1, recs.drop_first()));
        assert forall|i: int|
            0 <= i < f.len() && has_stat_write(players, recs, stat_key(#[trigger] f[i]))
            implies f[i] == (StatRow {
            id: f[i].id,
            ..incoming_stat(players, last_stat_write(players, recs, stat_key(f[i])))->0
        }) by {
            let k = stat_key(f[i]);
            if has_stat_write(players, recs.drop_first(), k) {
                lemma_last_stat_write_drop_first(players, recs, k);
            } else {
                assert(inc0 is Some && k == k0) by {
                    let j = choose|j: int|
                        0 <= j < recs.len() && incoming_stat(players, #[trigger] recs[j]) is Some
                            && stat_rec_key(players, recs[j]) == k;
                    if j > 0 {
                        assert(recs.drop_first()[j - 1] == recs[j]);
                        assert(has_stat_write(players, recs.drop_first(), k));
                    }
                }
                let g = inc0->0;
                assert(i < s1.len());
                assert forall|j: int|
                    0 <= j < recs.drop_first().len() && incoming_stat(
                        players,
                        #[trigger] recs.drop_first()[j],
                    ) is Some implies stat_rec_key(players, recs.drop_first()[j]) != stat_key(
                    s1[i],
                ) by {
                    assert(recs.drop_first()[j] == recs[j + 1]);
                }
                lemma_stat_fold_preserves_row(players, s1, recs.drop_first(), i);
                assert(f[i] == s1[i]);
                if exists|w: int|
                    0 <= w < stats.len() && stat_key(#[trigger] stats[w]) == stat_key(g) {
                    let c = choose|w: int|
                        0 <= w < stats.len() && stat_key(#[trigger] stats[w]) == stat_key(g);
                    assert(s1 == stats.update(c, StatRow { id: stats[c].id, ..g }));
                    assert(i == c) by {
                        if i != c {
                            assert(s1[i] == stats[i]);
                            assert(stat_key(stats[i]) != stat_key(stats[c]));
                        }
                    }
                    assert(s1[i] == StatRow { id: s1[i].id, ..g });
                } else {
                    assert(s1 == stats.push(StatRow { id: stats.len() as u64, ..g }));
                    assert(i == stats.len() as int) by {
                        if i < stats.len() {
                            assert(stat_key(stats[i]) != stat_key(g));
                        }
                    }
                    assert(s1[i] == StatRow { id: s1[i].id, ..g });
                }
                lemma_last_stat_write_head(players, recs, k0);
            }
        }
    }
}

/// Idempotence of the stat import: upserting the same batch of stat
/// records twice, against the same players table and in the same
/// order, leaves exactly the table one pass leaves — for every key,
/// the last resolvable write wins both times, and records whose
/// player does not resolve are dropped both times.
pub proof fn lemma_stat_import_idempotent(
    players: Seq<PlayerModel>,
    stats: Seq<StatRow>,
    recs: Seq<StatView>,
)
    requires
        stat_ids_ok(stats),
        stat_keys_unique(stats),
    ensures
        upsert_stats_fold(players, upsert_stats_fold(players, stats, recs), recs)
            == upsert_stats_fold(players, stats, recs),
{
    let f = upsert_stats_fold(players, stats, recs);
    lemma_stats_fold_wf(players, stats, recs);
    lemma_stat_fold_has_all_writes(players, stats, recs);
    lemma_stat_fold_last_values(players, stats, recs);
    lemma_stat_fold_override(players, f, recs);
    assert forall|i: int| 0 <= i < f.len() implies stat_overridden(players, f, recs)[i]
        == f[i] by {
        if has_stat_write(players, recs, stat_key(f[i])) {
            assert(f[i] == (StatRow {
                id: f[i].id,
                ..incoming_stat(players, last_stat_write(players, recs, stat_key(f[i])))->0
            }));
        }
    }
    assert(stat_overridden(players, f, recs) =~= f);
}

} // verus!
