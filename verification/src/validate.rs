//! Record validation: hard errors that reject a record, soft warnings
//! that flag it but keep it, and per-batch tallies.
use vstd::prelude::*;

use crate::records::{GameRecord, GameView, RosterRecord, RosterView, StatRecord, StatView};
use crate::text::str_eq;
use crate::{season_in_range, MAX_SEASON, MIN_SEASON};

verus! {

/// A hard validation error: the record is unusable and is not
/// persisted.
#[derive(Clone, Copy, Debug, PartialEq, Eq, Structural)]
pub enum ValidationError {
    MissingGsisId,
    MissingFullName,
    MissingTeam,
    MissingPosition,
    MissingGameId,
    MissingHomeTeam,
    MissingAwayTeam,
    MissingGameday,
    MissingPlayerId,
    InvalidSeason,
    InvalidWeek,
}

/// A soft warning: the value looks wrong, but the record is still
/// persisted.
#[derive(Clone, Copy, Debug, PartialEq, Eq, Structural)]
pub enum SoftWarning {
    UnknownPosition,
    BadHeightFormat,
    UnusualWeight,
    UnknownGameType,
    UnusualHomeScore,
    UnusualAwayScore,
    UnknownSeasonType,
    UnusualPassingYards,
    UnusualRushingYards,
    UnusualReceivingYards,
}

/// Weeks run from 1 to 22 for games and stats.
pub open spec fn week_in_range(week: i32) -> bool {
    1 <= week && week <= 22
}

/// The first hard error a roster record exhibits, if any: a missing
/// required identifying field, or a season outside the accepted range.
pub open spec fn player_error(p: RosterView) -> Option<ValidationError> {
    if p.gsis_id.len() == 0 {
        Some(ValidationError::MissingGsisId)
    } else if p.full_name.len() == 0 {
        Some(ValidationError::MissingFullName)
    } else if p.team.len() == 0 {
        Some(ValidationError::MissingTeam)
    } else if p.position.len() == 0 {
        Some(ValidationError::MissingPosition)
    } else if !season_in_range(p.season) {
        Some(ValidationError::InvalidSeason)
    } else {
        None
    }
}

/// The first hard error a game record exhibits, if any.
pub open spec fn game_error(g: GameView) -> Option<ValidationError> {
    if g.game_id.len() == 0 {
        Some(ValidationError::MissingGameId)
    } else if g.home_team.len() == 0 {
        Some(ValidationError::MissingHomeTeam)
    } else if g.away_team.len() == 0 {
        Some(ValidationError::MissingAwayTeam)
    } else if g.gameday.len() == 0 {
        Some(ValidationError::MissingGameday)
    } else if !season_in_range(g.season) {
        Some(ValidationError::InvalidSeason)
    } else if !week_in_range(g.week) {
        Some(ValidationError::InvalidWeek)
    } else {
        None
    }
}

/// The first hard error a stat record exhibits, if any.
pub open spec fn stat_error(s: StatView) -> Option<ValidationError> {
    if s.player_id.len() == 0 {
        Some(ValidationError::MissingPlayerId)
    } else if !season_in_range(s.season) {
        Some(ValidationError::InvalidSeason)
    } else if !week_in_range(s.week) {
        Some(ValidationError::InvalidWeek)
    } else {
        None
    }
}

/// The position codes the validator recognizes.
pub open spec fn known_position(u: Seq<char>) -> bool {
    ||| u == "QB"@
    ||| u == "RB"@
    ||| u == "WR"@
    ||| u == "TE"@
    ||| u == "FB"@
    ||| u == "HB"@
    ||| u == "OL"@
    ||| u == "OT"@
    ||| u == "OG"@
    ||| u == "C"@
    ||| u == "G"@
    ||| u == "T"@
    ||| u == "DL"@
    ||| u == "DE"@
    ||| u == "DT"@
    ||| u == "NT"@
    ||| u == "LB"@
    ||| u == "ILB"@
    ||| u == "OLB"@
    ||| u == "MLB"@
    ||| u == "DB"@
    ||| u == "CB"@
    ||| u == "S"@
    ||| u == "FS"@
    ||| u == "SS"@
    ||| u == "K"@
    ||| u == "P"@
    ||| u == "LS"@
}

/// The game types the validator recognizes.
pub open spec fn known_game_type(u: Seq<char>) -> bool {
    ||| u == "REG"@
    ||| u == "PRE"@
    ||| u == "POST"@
    ||| u == "WC"@
    ||| u == "DIV"@
    ||| u == "CON"@
    ||| u == "SB"@
}

/// The season types the validator recognizes.
pub open spec fn known_season_type(u: Seq<char>) -> bool {
    ||| u == "REG"@
    ||| u == "PRE"@
    ||| u == "POST"@
}

/// The warnings a roster record draws: an unrecognized position code,
/// a height without the feet-inches dash, a weight outside [150, 400].
pub open spec fn player_warnings(p: RosterView) -> Seq<SoftWarning> {
    let w1: Seq<SoftWarning> = if !known_position(p.position) {
        seq![SoftWarning::UnknownPosition]
    } else {
        Seq::empty()
    };
    let w2: Seq<SoftWarning> = match p.height {
        Some(h) => if !h.contains('-') {
            seq![SoftWarning::BadHeightFormat]
        } else {
            Seq::empty()
        },
        None => Seq::empty(),
    };
    let w3: Seq<SoftWarning> = match p.weight {
        Some(w) => if w < 150 || w > 400 {
            seq![SoftWarning::UnusualWeight]
        } else {
            Seq::empty()
        },
        None => Seq::empty(),
    };
    w1 + w2 + w3
}

/// The warnings a game record draws: an unrecognized game type, or a
/// score outside [0, 100].
pub open spec fn game_warnings(g: GameView) -> Seq<SoftWarning> {
    let w1: Seq<SoftWarning> = if !known_game_type(g.game_type) {
        seq![SoftWarning::UnknownGameType]
    } else {
        Seq::empty()
    };
    let w2: Seq<SoftWarning> = match g.home_score {
        Some(s) => if s < 0 || s > 100 {
            seq![SoftWarning::UnusualHomeScore]
        } else {
            Seq::empty()
        },
        None => Seq::empty(),
    };
    let w3: Seq<SoftWarning> = match g.away_score {
        Some(s) => if s < 0 || s > 100 {
            seq![SoftWarning::UnusualAwayScore]
        } else {
            Seq::empty()
        },
        None => Seq::empty(),
    };
    w1 + w2 + w3
}

/// The warnings a stat record draws: an unrecognized season type, or
/// yardage outside the per-category plausible range (passing [0, 600],
/// rushing [-20, 300], receiving [0, 300]).
pub open spec fn stat_warnings(s: StatView) -> Seq<SoftWarning> {
    let w1: Seq<SoftWarning> = if !known_season_type(s.season_type) {
        seq![SoftWarning::UnknownSeasonType]
    } else {
        Seq::empty()
    };
    let w2: Seq<SoftWarning> = match s.passing_yards {
        Some(y) => if y < 0 || y > 600 {
            seq![SoftWarning::UnusualPassingYards]
        } else {
            Seq::empty()
        },
        None => Seq::empty(),
    };
    let w3: Seq<SoftWarning> = match s.rushing_yards {
        Some(y) => if y < -20 || y > 300 {
            seq![SoftWarning::UnusualRushingYards]
        } else {
            Seq::empty()
        },
        None => Seq::empty(),
    };
    let w4: Seq<SoftWarning> = match s.receiving_yards {
        Some(y) => if y < 0 || y > 300 {
            seq![SoftWarning::UnusualReceivingYards]
        } else {
            Seq::empty()
        },
        None => Seq::empty(),
    };
    w1 + w2 + w3 + w4
}

/// Executable membership test for the recognized position codes.
pub fn known_position_exec(s: &str) -> (r: bool)
    ensures
        r == known_position(s@),
{
    str_eq(s, "QB") || str_eq(s, "RB") || str_eq(s, "WR") || str_eq(s, "TE") || str_eq(s, "FB")
        || str_eq(s, "HB") || str_eq(s, "OL") || str_eq(s, "OT") || str_eq(s, "OG") || str_eq(
        s,
        "C",
    ) || str_eq(s, "G") || str_eq(s, "T") || str_eq(s, "DL") || str_eq(s, "DE") || str_eq(s, "DT")
        || str_eq(s, "NT") || str_eq(s, "LB") || str_eq(s, "ILB") || str_eq(s, "OLB") || str_eq(
        s,
        "MLB",
    ) || str_eq(s, "DB") || str_eq(s, "CB") || str_eq(s, "S") || str_eq(s, "FS") || str_eq(s, "SS")
        || str_eq(s, "K") || str_eq(s, "P") || str_eq(s, "LS")
}

/// Executable membership test for the recognized game types.
pub fn known_game_type_exec(s: &str) -> (r: bool)
    ensures
        r == known_game_type(s@),
{
    str_eq(s, "REG") || str_eq(s, "PRE") || str_eq(s, "POST") || str_eq(s, "WC") || str_eq(
        s,
        "DIV",
    ) || str_eq(s, "CON") || str_eq(s, "SB")
}

/// Executable membership test for the recognized season types.
pub fn known_season_type_exec(s: &str) -> (r: bool)
    ensures
        r == known_season_type(s@),
{
    str_eq(s, "REG") || str_eq(s, "PRE") || str_eq(s, "POST")
}

/// The subsequence of a roster batch that draws no hard error: what
/// the import is allowed to persist.
pub open spec fn valid_rosters(s: Seq<RosterView>) -> Seq<RosterView>
    decreases s.len(),
{
    if s.len() == 0 {
        Seq::empty()
    } else {
        let head: Seq<RosterView> = if player_error(s[0]) is None {
            seq![s[0]]
        } else {
            Seq::empty()
        };
        head + valid_rosters(s.drop_first())
    }
}

/// The subsequence of a game batch that draws no hard error.
pub open spec fn valid_games(s: Seq<GameView>) -> Seq<GameView>
    decreases s.len(),
{
    if s.len() == 0 {
        Seq::empty()
    } else {
        let head: Seq<GameView> = if game_error(s[0]) is None {
            seq![s[0]]
        } else {
            Seq::empty()
        };
        head + valid_games(s.drop_first())
    }
}

/// The subsequence of a stat batch that draws no hard error.
pub open spec fn valid_stats(s: Seq<StatView>) -> Seq<StatView>
    decreases s.len(),
{
    if s.len() == 0 {
        Seq::empty()
    } else {
        let head: Seq<StatView> = if stat_error(s[0]) is None {
            seq![s[0]]
        } else {
            Seq::empty()
        };
        head + valid_stats(s.drop_first())
    }
}

/// Classifies records as valid or invalid and tallies batches.
pub struct DataValidator {}

/// How many records of a batch draw no hard error.
pub open spec fn count_valid_players(s: Seq<RosterRecord>) -> int
    decreases s.len(),
{
    if s.len() == 0 {
        0
    } else {
        count_valid_players(s.drop_last()) + if player_error(s.last()@) is None {
            1int
        } else {
            0int
        }
    }
}

/// How many game records of a batch draw no hard error.
pub open spec fn count_valid_games(s: Seq<GameRecord>) -> int
    decreases s.len(),
{
    if s.len() == 0 {
        0
    } else {
        count_valid_games(s.drop_last()) + if game_error(s.last()@) is None {
            1int
        } else {
            0int
        }
    }
}

/// How many stat records of a batch draw no hard error.
pub open spec fn count_valid_stats(s: Seq<StatRecord>) -> int
    decreases s.len(),
{
    if s.len() == 0 {
        0
    } else {
        count_valid_stats(s.drop_last()) + if stat_error(s.last()@) is None {
            1int
        } else {
            0int
        }
    }
}

impl DataValidator {
    pub fn new() -> (r: Self)
        ensures
            r == (DataValidator {  }),
    {
        DataValidator {  }
    }

    /// Accept a roster record, or say which required field is missing
    /// or which range its season breaks.
    pub fn validate_player(&self, player: &RosterRecord) -> (r: Result<(), ValidationError>)
        ensures
            r is Ok <==> player_error((*player)@) is None,
            r matches Err(e) ==> player_error((*player)@) == Some(e),
    {
        if player.gsis_id.as_str().is_empty() {
            return Err(ValidationError::MissingGsisId);
        }
        if player.full_name.as_str().is_empty() {
            return Err(ValidationError::MissingFullName);
        }
        if player.team.as_str().is_empty() {
            return Err(ValidationError::MissingTeam);
        }
        if player.position.as_str().is_empty() {
            return Err(ValidationError::MissingPosition);
        }
        if player.season < MIN_SEASON || player.season > MAX_SEASON {
            return Err(ValidationError::InvalidSeason);
        }
        Ok(())
    }

    /// Accept a game record, or say which required field is missing or
    /// which range its season or week breaks.
    pub fn validate_game(&self, game: &GameRecord) -> (r: Result<(), ValidationError>)
        ensures
            r is Ok <==> game_error((*game)@) is None,
            r matches Err(e) ==> game_error((*game)@) == Some(e),
    {
        if game.game_id.as_str().is_empty() {
            return Err(ValidationError::MissingGameId);
        }
        if game.home_team.as_str().is_empty() {
            return Err(ValidationError::MissingHomeTeam);
        }
        if game.away_team.as_str().is_empty() {
            return Err(ValidationError::MissingAwayTeam);
        }
        if game.gameday.as_str().is_empty() {
            return Err(ValidationError::MissingGameday);
        }
        if game.season < MIN_SEASON || game.season > MAX_SEASON {
            return Err(ValidationError::InvalidSeason);
        }
        if game.week < 1 || game.week > 22 {
            return Err(ValidationError::InvalidWeek);
        }
        Ok(())
    }

    /// Accept a stat record, or say which required field is missing or
    /// which range its season or week breaks.
    pub fn validate_stat(&self, stat: &StatRecord) -> (r: Result<(), ValidationError>)
        ensures
            r is Ok <==> stat_error((*stat)@) is None,
            r matches Err(e) ==> stat_error((*stat)@) == Some(e),
    {
        if stat.player_id.as_str().is_empty() {
            return Err(ValidationError::MissingPlayerId);
        }
        if stat.season < MIN_SEASON || stat.season > MAX_SEASON {
            return Err(ValidationError::InvalidSeason);
        }
        if stat.week < 1 || stat.week > 22 {
            return Err(ValidationError::InvalidWeek);
        }
        Ok(())
    }

    /// The soft warnings a roster record draws; the record stays
    /// accepted either way.
    pub fn player_soft_warnings(&self, p: &RosterRecord) -> (r: Vec<SoftWarning>)
        ensures
            r@ == player_warnings((*p)@),
    {
        let mut out: Vec<SoftWarning> = Vec::new();
        if !known_position_exec(p.position.as_str()) {
            out.push(SoftWarning::UnknownPosition);
        }
        if let Some(h) = &p.height {
            if !crate::text::contains_char(h.as_str(), '-') {
                out.push(SoftWarning::BadHeightFormat);
            }
        }
        if let Some(w) = p.weight {
            if w < 150 || w > 400 {
                out.push(SoftWarning::UnusualWeight);
            }
        }
        proof {
            assert(out@ =~= player_warnings((*p)@));
        }
        out
    }

    /// The soft warnings a game record draws.
    pub fn game_soft_warnings(&self, g: &GameRecord) -> (r: Vec<SoftWarning>)
        ensures
            r@ == game_warnings((*g)@),
    {
        let mut out: Vec<SoftWarning> = Vec::new();
        if !known_game_type_exec(g.game_type.as_str()) {
            out.push(SoftWarning::UnknownGameType);
        }
        if let Some(s) = g.home_score {
            if s < 0 || s > 100 {
                out.push(SoftWarning::UnusualHomeScore);
            }
        }
        if let Some(s) = g.away_score {
            if s < 0 || s > 100 {
                out.push(SoftWarning::UnusualAwayScore);
            }
        }
        proof {
            assert(out@ =~= game_warnings((*g)@));
        }
        out
    }

    /// The soft warnings a stat record draws.
    pub fn stat_soft_warnings(&self, s: &StatRecord) -> (r: Vec<SoftWarning>)
        ensures
            r@ == stat_warnings((*s)@),
    {
        let mut out: Vec<SoftWarning> = Vec::new();
        if !known_season_type_exec(s.season_type.as_str()) {
            out.push(SoftWarning::UnknownSeasonType);
        }
        if let Some(y) = s.passing_yards {
            if y < 0 || y > 600 {
                out.push(SoftWarning::UnusualPassingYards);
            }
        }
        if let Some(y) = s.rushing_yards {
            if y < -20 || y > 300 {
                out.push(SoftWarning::UnusualRushingYards);
            }
        }
        if let Some(y) = s.receiving_yards {
            if y < 0 || y > 300 {
                out.push(SoftWarning::UnusualReceivingYards);
            }
        }
        proof {
            assert(out@ =~= stat_warnings((*s)@));
        }
        out
    }

    /// Tally a roster batch: how many records are valid, how many are
    /// not.
    pub fn validate_player_batch(&self, players: &[RosterRecord]) -> (r: (usize, usize))
        ensures
            r.0 == count_valid_players(players@),
            r.0 + r.1 == players@.len(),
    {
        let mut valid: usize = 0;
        let mut invalid: usize = 0;
        let n = players.len();
        let mut i: usize = 0;
        while i < n
            invariant
                n == players@.len(),
                i <= n,
                valid == count_valid_players(players@.take(i as int)),
                valid + invalid == i,
            decreases n - i,
        {
            proof {
                assert(players@.take(i + 1).drop_last() =~= players@.take(i as int));
            }
            match self.validate_player(&players[i]) {
                Ok(_) => {
                    valid += 1;
                },
                Err(_) => {
                    invalid += 1;
                },
            }
            i += 1;
        }
        proof {
            assert(players@.take(n as int) =~= players@);
        }
        (valid, invalid)
    }

    /// Tally a game batch: how many records are valid, how many are
    /// not.
    pub fn validate_game_batch(&self, games: &[GameRecord]) -> (r: (usize, usize))
        ensures
            r.0 == count_valid_games(games@),
            r.0 + r.1 == games@.len(),
    {
        let mut valid: usize = 0;
        let mut invalid: usize = 0;
        let n = games.len();
        let mut i: usize = 0;
        while i < n
            invariant
                n == games@.len(),
                i <= n,
                valid == count_valid_games(games@.take(i as int)),
                valid + invalid == i,
            decreases n - i,
        {
            proof {
                assert(games@.take(i + 1).drop_last() =~= games@.take(i as int));
            }
            match self.validate_game(&games[i]) {
                Ok(_) => {
                    valid += 1;
                },
                Err(_) => {
                    invalid += 1;
                },
            }
            i += 1;
        }
        proof {
            assert(games@.take(n as int) =~= games@);
        }
        (valid, invalid)
    }

    /// Tally a stat batch: how many records are valid, how many are
    /// not.
    pub fn validate_stat_batch(&self, stats: &[StatRecord]) -> (r: (usize, usize))
        ensures
            r.0 == count_valid_stats(stats@),
            r.0 + r.1 == stats@.len(),
    {
        let mut valid: usize = 0;
        let mut invalid: usize = 0;
        let n = stats.len();
        let mut i: usize = 0;
        while i < n
            invariant
                n == stats@.len(),
                i <= n,
                valid == count_valid_stats(stats@.take(i as int)),
                valid + invalid == i,
            decreases n - i,
        {
            proof {
                assert(stats@.take(i + 1).drop_last() =~= stats@.take(i as int));
            }
            match self.validate_stat(&stats[i]) {
                Ok(_) => {
                    valid += 1;
                },
                Err(_) => {
                    invalid += 1;
                },
            }
            i += 1;
        }
        proof {
            assert(stats@.take(n as int) =~= stats@);
        }
        (valid, invalid)
    }
}

} // verus!
