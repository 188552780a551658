//! The typed in-memory records one CSV row decodes into, one struct
//! per data category.
use vstd::prelude::*;

verus! {

/// One roster row: a player's identity, team and physical attributes
/// for a season. The natural key is the external player identifier
/// `gsis_id`.
pub struct RosterRecord {
    pub season: i32,
    pub team: String,
    pub position: String,
    pub depth_chart_position: Option<String>,
    pub jersey_number: Option<i32>,
    pub status: Option<String>,
    pub full_name: String,
    pub first_name: Option<String>,
    pub last_name: Option<String>,
    pub birth_date: Option<String>,
    pub height: Option<String>,
    pub weight: Option<i32>,
    pub college: Option<String>,
    pub gsis_id: String,
    pub espn_id: Option<String>,
    pub sportradar_id: Option<String>,
    pub yahoo_id: Option<String>,
    pub rotowire_id: Option<String>,
    pub pff_id: Option<String>,
    pub pfr_id: Option<String>,
    pub fantasy_data_id: Option<String>,
    pub sleeper_id: Option<String>,
    pub years_exp: Option<i32>,
    pub headshot_url: Option<String>,
    pub entry_year: Option<i32>,
    pub rookie_year: Option<i32>,
    pub draft_club: Option<String>,
    pub draft_number: Option<i32>,
}

/// One schedule row: a game between two teams in a season week. The
/// natural key is the external game identifier `game_id`.
pub struct GameRecord {
    pub game_id: String,
    pub season: i32,
    pub game_type: String,
    pub week: i32,
    pub gameday: String,
    pub weekday: Option<String>,
    pub gametime: Option<String>,
    pub away_team: String,
    pub away_score: Option<i32>,
    pub home_team: String,
    pub home_score: Option<i32>,
    pub location: Option<String>,
    pub result: Option<i32>,
    pub total: Option<i32>,
    pub overtime: Option<i32>,
    pub old_game_id: Option<String>,
    pub gsis: Option<String>,
    pub nfl_detail_id: Option<String>,
    pub pfr: Option<String>,
    pub pff: Option<String>,
    pub espn: Option<String>,
    pub ftn: Option<String>,
    pub away_rest: Option<i32>,
    pub home_rest: Option<i32>,
    pub away_moneyline: Option<i32>,
    pub home_moneyline: Option<i32>,
    pub spread_line: Option<i32>,
    pub away_spread_odds: Option<i32>,
    pub home_spread_odds: Option<i32>,
    pub total_line: Option<i32>,
    pub under_odds: Option<i32>,
    pub over_odds: Option<i32>,
    pub div_game: Option<i32>,
    pub roof: Option<String>,
    pub surface: Option<String>,
    pub temp: Option<i32>,
    pub wind: Option<i32>,
    pub away_qb_id: Option<String>,
    pub home_qb_id: Option<String>,
    pub away_qb_name: Option<String>,
    pub home_qb_name: Option<String>,
    pub away_coach: Option<String>,
    pub home_coach: Option<String>,
    pub referee: Option<String>,
    pub stadium_id: Option<String>,
    pub stadium: Option<String>,
}

/// One player-stat row: a player's weekly totals. Yardage counts are
/// whole yards. The natural key is (player, season, week).
pub struct StatRecord {
    pub player_id: String,
    pub player_display_name: Option<String>,
    pub season: i32,
    pub week: i32,
    pub season_type: String,
    pub passing_yards: Option<i32>,
    pub rushing_yards: Option<i32>,
    pub receiving_yards: Option<i32>,
    pub passing_tds: Option<i32>,
    pub rushing_tds: Option<i32>,
    pub receiving_tds: Option<i32>,
    pub receptions: Option<i32>,
    pub targets: Option<i32>,
    pub attempts: Option<i32>,
    pub completions: Option<i32>,
    pub interceptions: Option<i32>,
}

/// The view of an optional string.
pub open spec fn opt_str_view(o: Option<String>) -> Option<Seq<char>> {
    match o {
        Some(s) => Some(s@),
        None => None,
    }
}

/// The attributes of a roster record the pipeline reads, as
/// mathematical values.
#[verifier::ext_equal]
pub struct RosterView {
    pub season: i32,
    pub team: Seq<char>,
    pub position: Seq<char>,
    pub jersey_number: Option<i32>,
    pub status: Option<Seq<char>>,
    pub full_name: Seq<char>,
    pub height: Option<Seq<char>>,
    pub weight: Option<i32>,
    pub college: Option<Seq<char>>,
    pub gsis_id: Seq<char>,
}

impl View for RosterRecord {
    type V = RosterView;

    open spec fn view(&self) -> RosterView {
        RosterView {
            season: self.season,
            team: self.team@,
            position: self.position@,
            jersey_number: self.jersey_number,
            status: opt_str_view(self.status),
            full_name: self.full_name@,
            height: opt_str_view(self.height),
            weight: self.weight,
            college: opt_str_view(self.college),
            gsis_id: self.gsis_id@,
        }
    }
}

/// The attributes of a game record the pipeline reads.
#[verifier::ext_equal]
pub struct GameView {
    pub game_id: Seq<char>,
    pub season: i32,
    pub game_type: Seq<char>,
    pub week: i32,
    pub gameday: Seq<char>,
    pub away_team: Seq<char>,
    pub away_score: Option<i32>,
    pub home_team: Seq<char>,
    pub home_score: Option<i32>,
}

impl View for GameRecord {
    type V = GameView;

    open spec fn view(&self) -> GameView {
        GameView {
            game_id: self.game_id@,
            season: self.season,
            game_type: self.game_type@,
            week: self.week,
            gameday: self.gameday@,
            away_team: self.away_team@,
            away_score: self.away_score,
            home_team: self.home_team@,
            home_score: self.home_score,
        }
    }
}

/// The attributes of a stat record the pipeline reads.
#[verifier::ext_equal]
pub struct StatView {
    pub player_id: Seq<char>,
    pub player_display_name: Option<Seq<char>>,
    pub season: i32,
    pub week: i32,
    pub season_type: Seq<char>,
    pub passing_yards: Option<i32>,
    pub rushing_yards: Option<i32>,
    pub receiving_yards: Option<i32>,
    pub passing_tds: Option<i32>,
    pub rushing_tds: Option<i32>,
    pub receiving_tds: Option<i32>,
    pub receptions: Option<i32>,
    pub targets: Option<i32>,
    pub attempts: Option<i32>,
    pub completions: Option<i32>,
    pub interceptions: Option<i32>,
}

impl View for StatRecord {
    type V = StatView;

    open spec fn view(&self) -> StatView {
        StatView {
            player_id: self.player_id@,
            player_display_name: opt_str_view(self.player_display_name),
            season: self.season,
            week: self.week,
            season_type: self.season_type@,
            passing_yards: self.passing_yards,
            rushing_yards: self.rushing_yards,
            receiving_yards: self.receiving_yards,
            passing_tds: self.passing_tds,
            rushing_tds: self.rushing_tds,
            receiving_tds: self.receiving_tds,
            receptions: self.receptions,
            targets: self.targets,
            attempts: self.attempts,
            completions: self.completions,
            interceptions: self.interceptions,
        }
    }
}

} // verus!
