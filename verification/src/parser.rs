//! Streaming CSV decoding: the first record is a header that maps
//! columns to fields by name, tolerant of reordering and of extra or
//! missing optional columns; every following record decodes
//! independently, and a malformed row is skipped without aborting the
//! rest.
use vstd::prelude::*;
use vstd::string::*;

use crate::records::{GameRecord, GameView, RosterRecord, RosterView, StatRecord, StatView};
use crate::store::{game_views, roster_views, stat_views};
use crate::text;

verus! {

/// Why one row failed to decode.
#[derive(Clone, Copy, Debug, PartialEq, Eq, Structural)]
pub enum RowError {
    /// A required column is absent from the header (or the row is too
    /// short to reach it).
    MissingField,
    /// A numeric field that was present did not parse.
    BadNumber,
}

/// The views of a sequence of strings.
pub open spec fn strs_view(s: Seq<String>) -> Seq<Seq<char>> {
    s.map_values(|x: String| x@)
}

/// The views of a sequence of records of strings.
pub open spec fn rows_view(s: Seq<Vec<String>>) -> Seq<Seq<Seq<char>>> {
    s.map_values(|v: Vec<String>| strs_view(v@))
}

/// What the csv reader splits a document into: its records, each a
/// sequence of fields, the header record included.
pub uninterp spec fn csv_rows_of(doc: Seq<char>) -> Seq<Seq<Seq<char>>>;

/// Relies on csv's ReaderBuilder and StringRecord: splits a CSV
/// document into its records' fields, honoring quoting; reading is
/// deterministic in the document alone. A record the reader refuses
/// comes back empty and is skipped downstream as malformed.
#[verifier::external_body]
fn csv_rows(doc: &str) -> (rows: Vec<Vec<String>>)
    ensures
        rows_view(rows@) == csv_rows_of(doc@),
{
    let mut out: Vec<Vec<String>> = Vec::new();
    let mut rdr = csv::ReaderBuilder::new().has_headers(false).flexible(true).from_reader(
        doc.as_bytes(),
    );
    for rec in rdr.records() {
        match rec {
            Ok(r) => out.push(r.iter().map(|f| f.to_string()).collect()),
            Err(_) => out.push(Vec::new()),
        }
    }
    out
}

/// The position of a named column: the first header field carrying
/// the name.
pub open spec fn col_index(header: Seq<Seq<char>>, name: Seq<char>) -> Option<int>
    decreases header.len(),
{
    if header.len() == 0 {
        None
    } else if header[0] == name {
        Some(0)
    } else {
        match col_index(header.drop_first(), name) {
            Some(i) => Some(i + 1),
            None => None,
        }
    }
}

pub proof fn lemma_col_index_at(h: Seq<Seq<char>>, name: Seq<char>, i: int)
    requires
        0 <= i < h.len(),
        h[i] == name,
        forall|j: int| 0 <= j < i ==> h[j] != name,
    ensures
        col_index(h, name) == Some(i),
    decreases i,
{
    if i > 0 {
        assert(h[0] != name);
        assert(h.drop_first()[i - 1] == h[i]);
        assert forall|j: int| 0 <= j < i - 1 implies h.drop_first()[j] != name by {
            assert(h.drop_first()[j] == h[j + 1]);
        }
        lemma_col_index_at(h.drop_first(), name, i - 1);
    }
}

pub proof fn lemma_col_index_none(h: Seq<Seq<char>>, name: Seq<char>)
    requires
        forall|j: int| 0 <= j < h.len() ==> h[j] != name,
    ensures
        col_index(h, name) is None,
    decreases h.len(),
{
    if h.len() > 0 {
        assert forall|j: int| 0 <= j < h.drop_first().len() implies h.drop_first()[j] != name by {
            assert(h.drop_first()[j] == h[j + 1]);
        }
        lemma_col_index_none(h.drop_first(), name);
    }
}

/// Find a named column in the header.
fn find_col(header: &Vec<String>, name: &str) -> (r: Option<usize>)
    ensures
        r matches Some(i) ==> col_index(strs_view(header@), name@) == Some(i as int),
        r is None ==> col_index(strs_view(header@), name@) is None,
{
    let n = header.len();
    let mut i: usize = 0;
    while i < n
        invariant
            n == header@.len(),
            i <= n,
            forall|j: int| 0 <= j < i ==> strs_view(header@)[j] != name@,
        decreases n - i,
    {
        if text::str_eq(header[i].as_str(), name) {
            proof {
                lemma_col_index_at(strs_view(header@), name@, i as int);
            }
            return Some(i);
        }
        i += 1;
    }
    proof {
        lemma_col_index_none(strs_view(header@), name@);
    }
    None
}

/// The field a column position selects in a row, if the row reaches
/// it.
pub open spec fn field_at(row: Seq<Seq<char>>, idx: Option<int>) -> Option<Seq<char>> {
    match idx {
        Some(i) => if 0 <= i < row.len() {
            Some(row[i])
        } else {
            None
        },
        None => None,
    }
}

/// The named field of a row, by way of the header.
pub open spec fn named_field(
    h: Seq<Seq<char>>,
    row: Seq<Seq<char>>,
    name: Seq<char>,
) -> Option<Seq<char>> {
    field_at(row, col_index(h, name))
}

/// An optional string field: present and non-empty, or nothing.
pub open spec fn opt_str_field(
    h: Seq<Seq<char>>,
    row: Seq<Seq<char>>,
    name: Seq<char>,
) -> Option<Seq<char>> {
    match named_field(h, row, name) {
        Some(s) => if s.len() > 0 {
            Some(s)
        } else {
            None
        },
        None => None,
    }
}

/// Whether an optional numeric field is well-formed: absent, empty,
/// or a signed integer.
pub open spec fn opt_int_ok(h: Seq<Seq<char>>, row: Seq<Seq<char>>, name: Seq<char>) -> bool {
    match named_field(h, row, name) {
        Some(s) => s.len() == 0 || text::parse_signed_spec(s) is Some,
        None => true,
    }
}

/// The value of a well-formed optional integer field.
pub open spec fn opt_int_field(
    h: Seq<Seq<char>>,
    row: Seq<Seq<char>>,
    name: Seq<char>,
) -> Option<i32> {
    match named_field(h, row, name) {
        Some(s) => if s.len() > 0 {
            match text::parse_signed_spec(s) {
                Some(v) => Some(v as i32),
                None => None,
            }
        } else {
            None
        },
        None => None,
    }
}

/// Whether an optional decimal field is well-formed: absent, empty,
/// or a signed decimal number.
pub open spec fn opt_dec_ok(h: Seq<Seq<char>>, row: Seq<Seq<char>>, name: Seq<char>) -> bool {
    match named_field(h, row, name) {
        Some(s) => s.len() == 0 || text::parse_decimal_spec(s) is Some,
        None => true,
    }
}

/// The value of a well-formed optional decimal field, truncated
/// toward zero.
pub open spec fn opt_dec_field(
    h: Seq<Seq<char>>,
    row: Seq<Seq<char>>,
    name: Seq<char>,
) -> Option<i32> {
    match named_field(h, row, name) {
        Some(s) => if s.len() > 0 {
            match text::parse_decimal_spec(s) {
                Some(v) => Some(v as i32),
                None => None,
            }
        } else {
            None
        },
        None => None,
    }
}

/// The value of a required integer field, if present and parseable.
pub open spec fn req_int_field(
    h: Seq<Seq<char>>,
    row: Seq<Seq<char>>,
    name: Seq<char>,
) -> Option<int> {
    match named_field(h, row, name) {
        Some(s) => text::parse_signed_spec(s),
        None => None,
    }
}

/// Fetch a required string field.
fn req_str(header: &Vec<String>, row: &Vec<String>, name: &str) -> (r: Option<String>)
    ensures
        r matches Some(s) ==> named_field(strs_view(header@), strs_view(row@), name@) == Some(s@),
        r is None ==> named_field(strs_view(header@), strs_view(row@), name@) is None,
{
    match find_col(header, name) {
        Some(i) => {
            if i < row.len() {
                Some(row[i].clone())
            } else {
                None
            }
        },
        None => None,
    }
}

/// Fetch an optional string field; empty means absent.
fn opt_str(header: &Vec<String>, row: &Vec<String>, name: &str) -> (r: Option<String>)
    ensures
        crate::records::opt_str_view(r) == opt_str_field(
            strs_view(header@),
            strs_view(row@),
            name@,
        ),
{
    match req_str(header, row, name) {
        Some(s) => {
            if s.as_str().is_empty() {
                None
            } else {
                Some(s)
            }
        },
        None => None,
    }
}

/// Fetch an optional integer field; empty means absent, junk is a row
/// error.
fn opt_i32(header: &Vec<String>, row: &Vec<String>, name: &str) -> (r: Result<
    Option<i32>,
    RowError,
>)
    ensures
        r matches Ok(v) ==> opt_int_ok(strs_view(header@), strs_view(row@), name@) && v
            == opt_int_field(strs_view(header@), strs_view(row@), name@),
        r is Err ==> !opt_int_ok(strs_view(header@), strs_view(row@), name@),
        r matches Err(e) ==> e == RowError::BadNumber,
{
    match req_str(header, row, name) {
        Some(s) => {
            if s.as_str().is_empty() {
                Ok(None)
            } else {
                match text::parse_signed(s.as_str()) {
                    Some(v) => Ok(Some(v)),
                    None => Err(RowError::BadNumber),
                }
            }
        },
        None => Ok(None),
    }
}

/// Fetch an optional decimal field, truncating toward zero; empty
/// means absent, junk is a row error.
fn opt_dec(header: &Vec<String>, row: &Vec<String>, name: &str) -> (r: Result<
    Option<i32>,
    RowError,
>)
    ensures
        r matches Ok(v) ==> opt_dec_ok(strs_view(header@), strs_view(row@), name@) && v
            == opt_dec_field(strs_view(header@), strs_view(row@), name@),
        r is Err ==> !opt_dec_ok(strs_view(header@), strs_view(row@), name@),
        r matches Err(e) ==> e == RowError::BadNumber,
{
    match req_str(header, row, name) {
        Some(s) => {
            if s.as_str().is_empty() {
                Ok(None)
            } else {
                match text::parse_decimal_trunc(s.as_str()) {
                    Some(v) => Ok(Some(v)),
                    None => Err(RowError::BadNumber),
                }
            }
        },
        None => Ok(None),
    }
}

/// Fetch a required integer field.
fn req_i32(header: &Vec<String>, row: &Vec<String>, name: &str) -> (r: Result<i32, RowError>)
    ensures
        r matches Ok(v) ==> req_int_field(strs_view(header@), strs_view(row@), name@) == Some(
            v as int,
        ),
        r is Err ==> req_int_field(strs_view(header@), strs_view(row@), name@) is None,
        r matches Err(e) ==> e == (if named_field(strs_view(header@), strs_view(row@), name@)
            is None {
            RowError::MissingField
        } else {
            RowError::BadNumber
        }),
{
    match req_str(header, row, name) {
        Some(s) => match text::parse_signed(s.as_str()) {
            Some(v) => Ok(v),
            None => Err(RowError::BadNumber),
        },
        None => Err(RowError::MissingField),
    }
}

/// The first defect of a roster row: a missing required field, then
/// an unparseable number.
pub open spec fn roster_row_error(h: Seq<Seq<char>>, row: Seq<Seq<char>>) -> Option<RowError> {
    if named_field(h, row, "gsis_id"@) is None {
        Some(RowError::MissingField)
    } else if named_field(h, row, "full_name"@) is None {
        Some(RowError::MissingField)
    } else if named_field(h, row, "team"@) is None {
        Some(RowError::MissingField)
    } else if named_field(h, row, "position"@) is None {
        Some(RowError::MissingField)
    } else if named_field(h, row, "season"@) is None {
        Some(RowError::MissingField)
    } else if req_int_field(h, row, "season"@) is None {
        Some(RowError::BadNumber)
    } else if !opt_int_ok(h, row, "jersey_number"@) {
        Some(RowError::BadNumber)
    } else if !opt_int_ok(h, row, "weight"@) {
        Some(RowError::BadNumber)
    } else {
        None
    }
}

/// What a defect-free roster row decodes to.
pub open spec fn roster_row_view(h: Seq<Seq<char>>, row: Seq<Seq<char>>) -> RosterView {
    RosterView {
        season: req_int_field(h, row, "season"@)->0 as i32,
        team: named_field(h, row, "team"@)->0,
        position: named_field(h, row, "position"@)->0,
        jersey_number: opt_int_field(h, row, "jersey_number"@),
        status: opt_str_field(h, row, "status"@),
        full_name: named_field(h, row, "full_name"@)->0,
        height: opt_str_field(h, row, "height"@),
        weight: opt_int_field(h, row, "weight"@),
        college: opt_str_field(h, row, "college"@),
        gsis_id: named_field(h, row, "gsis_id"@)->0,
    }
}

/// Decode one roster row against the header.
pub fn decode_roster(header: &Vec<String>, row: &Vec<String>) -> (r: Result<
    RosterRecord,
    RowError,
>)
    ensures
        r is Ok <==> roster_row_error(strs_view(header@), strs_view(row@)) is None,
        r matches Err(e) ==> roster_row_error(strs_view(header@), strs_view(row@)) == Some(e),
        r matches Ok(rec) ==> rec@ == roster_row_view(strs_view(header@), strs_view(row@)),
{
    let gsis_id = match req_str(header, row, "gsis_id") {
        Some(s) => s,
        None => {
            return Err(RowError::MissingField);
        },
    };
    let full_name = match req_str(header, row, "full_name") {
        Some(s) => s,
        None => {
            return Err(RowError::MissingField);
        },
    };
    let team = match req_str(header, row, "team") {
        Some(s) => s,
        None => {
            return Err(RowError::MissingField);
        },
    };
    let position = match req_str(header, row, "position") {
        Some(s) => s,
        None => {
            return Err(RowError::MissingField);
        },
    };
    let season = match req_i32(header, row, "season") {
        Ok(v) => v,
        Err(e) => {
            return Err(e);
        },
    };
    let jersey_number = match opt_i32(header, row, "jersey_number") {
        Ok(v) => v,
        Err(e) => {
            return Err(e);
        },
    };
    let weight = match opt_i32(header, row, "weight") {
        Ok(v) => v,
        Err(e) => {
            return Err(e);
        },
    };
    let status = opt_str(header, row, "status");
    let height = opt_str(header, row, "height");
    let college = opt_str(header, row, "college");
    let rec = RosterRecord {
        season,
        team,
        position,
        depth_chart_position: None,
        jersey_number,
        status,
        full_name,
        first_name: None,
        last_name: None,
        birth_date: None,
        height,
        weight,
        college,
        gsis_id,
        espn_id: None,
        sportradar_id: None,
        yahoo_id: None,
        rotowire_id: None,
        pff_id: None,
        pfr_id: None,
        fantasy_data_id: None,
        sleeper_id: None,
        years_exp: None,
        headshot_url: None,
        entry_year: None,
        rookie_year: None,
        draft_club: None,
        draft_number: None,
    };
    proof {
        assert(rec@ =~= roster_row_view(strs_view(header@), strs_view(row@)));
    }
    Ok(rec)
}

/// The first defect of a schedule row.
pub open spec fn game_row_error(h: Seq<Seq<char>>, row: Seq<Seq<char>>) -> Option<RowError> {
    if named_field(h, row, "game_id"@) is None {
        Some(RowError::MissingField)
    } else if named_field(h, row, "season"@) is None {
        Some(RowError::MissingField)
    } else if req_int_field(h, row, "season"@) is None {
        Some(RowError::BadNumber)
    } else if named_field(h, row, "game_type"@) is None {
        Some(RowError::MissingField)
    } else if named_field(h, row, "week"@) is None {
        Some(RowError::MissingField)
    } else if req_int_field(h, row, "week"@) is None {
        Some(RowError::BadNumber)
    } else if named_field(h, row, "gameday"@) is None {
        Some(RowError::MissingField)
    } else if named_field(h, row, "away_team"@) is None {
        Some(RowError::MissingField)
    } else if named_field(h, row, "home_team"@) is None {
        Some(RowError::MissingField)
    } else if !opt_int_ok(h, row, "away_score"@) {
        Some(RowError::BadNumber)
    } else if !opt_int_ok(h, row, "home_score"@) {
        Some(RowError::BadNumber)
    } else {
        None
    }
}

/// What a defect-free schedule row decodes to.
pub open spec fn game_row_view(h: Seq<Seq<char>>, row: Seq<Seq<char>>) -> GameView {
    GameView {
        game_id: named_field(h, row, "game_id"@)->0,
        season: req_int_field(h, row, "season"@)->0 as i32,
        game_type: named_field(h, row, "game_type"@)->0,
        week: req_int_field(h, row, "week"@)->0 as i32,
        gameday: named_field(h, row, "gameday"@)->0,
        away_team: named_field(h, row, "away_team"@)->0,
        away_score: opt_int_field(h, row, "away_score"@),
        home_team: named_field(h, row, "home_team"@)->0,
        home_score: opt_int_field(h, row, "home_score"@),
    }
}

/// Decode one schedule row against the header.
pub fn decode_game(header: &Vec<String>, row: &Vec<String>) -> (r: Result<GameRecord, RowError>)
    ensures
        r is Ok <==> game_row_error(strs_view(header@), strs_view(row@)) is None,
        r matches Err(e) ==> game_row_error(strs_view(header@), strs_view(row@)) == Some(e),
        r matches Ok(rec) ==> rec@ == game_row_view(strs_view(header@), strs_view(row@)),
{
    let game_id = match req_str(header, row, "game_id") {
        Some(s) => s,
        None => {
            return Err(RowError::MissingField);
        },
    };
    let season = match req_i32(header, row, "season") {
        Ok(v) => v,
        Err(e) => {
            return Err(e);
        },
    };
    let game_type = match req_str(header, row, "game_type") {
        Some(s) => s,
        None => {
            return Err(RowError::MissingField);
        },
    };
    let week = match req_i32(header, row, "week") {
        Ok(v) => v,
        Err(e) => {
            return Err(e);
        },
    };
    let gameday = match req_str(header, row, "gameday") {
        Some(s) => s,
        None => {
            return Err(RowError::MissingField);
        },
    };
    let away_team = match req_str(header, row, "away_team") {
        Some(s) => s,
        None => {
            return Err(RowError::MissingField);
        },
    };
    let home_team = match req_str(header, row, "home_team") {
        Some(s) => s,
        None => {
            return Err(RowError::MissingField);
        },
    };
    let away_score = match opt_i32(header, row, "away_score") {
        Ok(v) => v,
        Err(e) => {
            return Err(e);
        },
    };
    let home_score = match opt_i32(header, row, "home_score") {
        Ok(v) => v,
        Err(e) => {
            return Err(e);
        },
    };
    let rec = GameRecord {
        game_id,
        season,
        game_type,
        week,
        gameday,
        weekday: None,
        gametime: None,
        away_team,
        away_score,
        home_team,
        home_score,
        location: None,
        result: None,
        total: None,
        overtime: None,
        old_game_id: None,
        gsis: None,
        nfl_detail_id: None,
        pfr: None,
        pff: None,
        espn: None,
        ftn: None,
        away_rest: None,
        home_rest: None,
        away_moneyline: None,
        home_moneyline: None,
        spread_line: None,
        away_spread_odds: None,
        home_spread_odds: None,
        total_line: None,
        under_odds: None,
        over_odds: None,
        div_game: None,
        roof: None,
        surface: None,
        temp: None,
        wind: None,
        away_qb_id: None,
        home_qb_id: None,
        away_qb_name: None,
        home_qb_name: None,
        away_coach: None,
        home_coach: None,
        referee: None,
        stadium_id: None,
        stadium: None,
    };
    proof {
        assert(rec@ =~= game_row_view(strs_view(header@), strs_view(row@)));
    }
    Ok(rec)
}

/// The first defect of a stat row.
pub open spec fn stat_row_error(h: Seq<Seq<char>>, row: Seq<Seq<char>>) -> Option<RowError> {
    if named_field(h, row, "player_id"@) is None {
        Some(RowError::MissingField)
    } else if named_field(h, row, "season"@) is None {
        Some(RowError::MissingField)
    } else if req_int_field(h, row, "season"@) is None {
        Some(RowError::BadNumber)
    } else if named_field(h, row, "week"@) is None {
        Some(RowError::MissingField)
    } else if req_int_field(h, row, "week"@) is None {
        Some(RowError::BadNumber)
    } else if named_field(h, row, "season_type"@) is None {
        Some(RowError::MissingField)
    } else if !opt_dec_ok(h, row, "passing_yards"@) {
        Some(RowError::BadNumber)
    } else if !opt_dec_ok(h, row, "rushing_yards"@) {
        Some(RowError::BadNumber)
    } else if !opt_dec_ok(h, row, "receiving_yards"@) {
        Some(RowError::BadNumber)
    } else if !opt_int_ok(h, row, "passing_tds"@) {
        Some(RowError::BadNumber)
    } else if !opt_int_ok(h, row, "rushing_tds"@) {
        Some(RowError::BadNumber)
    } else if !opt_int_ok(h, row, "receiving_tds"@) {
        Some(RowError::BadNumber)
    } else if !opt_dec_ok(h, row, "receptions"@) {
        Some(RowError::BadNumber)
    } else if !opt_dec_ok(h, row, "targets"@) {
        Some(RowError::BadNumber)
    } else if !opt_dec_ok(h, row, "attempts"@) {
        Some(RowError::BadNumber)
    } else if !opt_dec_ok(h, row, "completions"@) {
        Some(RowError::BadNumber)
    } else if !opt_int_ok(h, row, "interceptions"@) {
        Some(RowError::BadNumber)
    } else {
        None
    }
}

/// What a defect-free stat row decodes to. Decimal yardage truncates
/// toward zero to whole yards.
pub open spec fn stat_row_view(h: Seq<Seq<char>>, row: Seq<Seq<char>>) -> StatView {
    StatView {
        player_id: named_field(h, row, "player_id"@)->0,
        player_display_name: opt_str_field(h, row, "player_display_name"@),
        season: req_int_field(h, row, "season"@)->0 as i32,
        week: req_int_field(h, row, "week"@)->0 as i32,
        season_type: named_field(h, row, "season_type"@)->0,
        passing_yards: opt_dec_field(h, row, "passing_yards"@),
        rushing_yards: opt_dec_field(h, row, "rushing_yards"@),
        receiving_yards: opt_dec_field(h, row, "receiving_yards"@),
        passing_tds: opt_int_field(h, row, "passing_tds"@),
        rushing_tds: opt_int_field(h, row, "rushing_tds"@),
        receiving_tds: opt_int_field(h, row, "receiving_tds"@),
        receptions: opt_dec_field(h, row, "receptions"@),
        targets: opt_dec_field(h, row, "targets"@),
        attempts: opt_dec_field(h, row, "attempts"@),
        completions: opt_dec_field(h, row, "completions"@),
        interceptions: opt_int_field(h, row, "interceptions"@),
    }
}

/// Decode one stat row against the header.
pub fn decode_stat(header: &Vec<String>, row: &Vec<String>) -> (r: Result<StatRecord, RowError>)
    ensures
        r is Ok <==> stat_row_error(strs_view(header@), strs_view(row@)) is None,
        r matches Err(e) ==> stat_row_error(strs_view(header@), strs_view(row@)) == Some(e),
        r matches Ok(rec) ==> rec@ == stat_row_view(strs_view(header@), strs_view(row@)),
{
    let player_id = match req_str(header, row, "player_id") {
        Some(s) => s,
        None => {
            return Err(RowError::MissingField);
        },
    };
    let season = match req_i32(header, row, "season") {
        Ok(v) => v,
        Err(e) => {
            return Err(e);
        },
    };
    let week = match req_i32(header, row, "week") {
        Ok(v) => v,
        Err(e) => {
            return Err(e);
        },
    };
    let season_type = match req_str(header, row, "season_type") {
        Some(s) => s,
        None => {
            return Err(RowError::MissingField);
        },
    };
    let passing_yards = match opt_dec(header, row, "passing_yards") {
        Ok(v) => v,
        Err(e) => {
            return Err(e);
        },
    };
    let rushing_yards = match opt_dec(header, row, "rushing_yards") {
        Ok(v) => v,
        Err(e) => {
            return Err(e);
        },
    };
    let receiving_yards = match opt_dec(header, row, "receiving_yards") {
        Ok(v) => v,
        Err(e) => {
            return Err(e);
        },
    };
    let passing_tds = match opt_i32(header, row, "passing_tds") {
        Ok(v) => v,
        Err(e) => {
            return Err(e);
        },
    };
    let rushing_tds = match opt_i32(header, row, "rushing_tds") {
        Ok(v) => v,
        Err(e) => {
            return Err(e);
        },
    };
    let receiving_tds = match opt_i32(header, row, "receiving_tds") {
        Ok(v) => v,
        Err(e) => {
            return Err(e);
        },
    };
    let receptions = match opt_dec(header, row, "receptions") {
        Ok(v) => v,
        Err(e) => {
            return Err(e);
        },
    };
    let targets = match opt_dec(header, row, "targets") {
        Ok(v) => v,
        Err(e) => {
            return Err(e);
        },
    };
    let attempts = match opt_dec(header, row, "attempts") {
        Ok(v) => v,
        Err(e) => {
            return Err(e);
        },
    };
    let completions = match opt_dec(header, row, "completions") {
        Ok(v) => v,
        Err(e) => {
            return Err(e);
        },
    };
    let interceptions = match opt_i32(header, row, "interceptions") {
        Ok(v) => v,
        Err(e) => {
            return Err(e);
        },
    };
    let player_display_name = opt_str(header, row, "player_display_name");
    let rec = StatRecord {
        player_id,
        player_display_name,
        season,
        week,
        season_type,
        passing_yards,
        rushing_yards,
        receiving_yards,
        passing_tds,
        rushing_tds,
        receiving_tds,
        receptions,
        targets,
        attempts,
        completions,
        interceptions,
    };
    proof {
        assert(rec@ =~= stat_row_view(strs_view(header@), strs_view(row@)));
    }
    Ok(rec)
}

/// The roster records a document body decodes to, in source order,
/// malformed rows skipped.
pub open spec fn decode_rosters(h: Seq<Seq<char>>, rows: Seq<Seq<Seq<char>>>) -> Seq<RosterView>
    decreases rows.len(),
{
    if rows.len() == 0 {
        Seq::empty()
    } else {
        let head: Seq<RosterView> = if roster_row_error(h, rows[0]) is None {
            seq![roster_row_view(h, rows[0])]
        } else {
            Seq::empty()
        };
        head + decode_rosters(h, rows.drop_first())
    }
}

/// How many rows of a roster body are malformed.
pub open spec fn roster_err_count(h: Seq<Seq<char>>, rows: Seq<Seq<Seq<char>>>) -> int
    decreases rows.len(),
{
    if rows.len() == 0 {
        0
    } else {
        (if roster_row_error(h, rows[0]) is None {
            0int
        } else {
            1int
        }) + roster_err_count(h, rows.drop_first())
    }
}

/// The regular-season games a document body decodes to: malformed
/// rows skipped, and only rows whose game type is REG kept.
pub open spec fn decode_games_reg(h: Seq<Seq<char>>, rows: Seq<Seq<Seq<char>>>) -> Seq<GameView>
    decreases rows.len(),
{
    if rows.len() == 0 {
        Seq::empty()
    } else {
        let head: Seq<GameView> = if game_row_error(h, rows[0]) is None && game_row_view(
            h,
            rows[0],
        ).game_type == "REG"@ {
            seq![game_row_view(h, rows[0])]
        } else {
            Seq::empty()
        };
        head + decode_games_reg(h, rows.drop_first())
    }
}

/// How many rows of a schedule body are malformed.
pub open spec fn game_err_count(h: Seq<Seq<char>>, rows: Seq<Seq<Seq<char>>>) -> int
    decreases rows.len(),
{
    if rows.len() == 0 {
        0
    } else {
        (if game_row_error(h, rows[0]) is None {
            0int
        } else {
            1int
        }) + game_err_count(h, rows.drop_first())
    }
}

/// The regular-season stat lines a document body decodes to:
/// malformed rows skipped, and only rows whose season type is REG
/// kept.
pub open spec fn decode_stats_reg(h: Seq<Seq<char>>, rows: Seq<Seq<Seq<char>>>) -> Seq<StatView>
    decreases rows.len(),
{
    if rows.len() == 0 {
        Seq::empty()
    } else {
        let head: Seq<StatView> = if stat_row_error(h, rows[0]) is None && stat_row_view(
            h,
            rows[0],
        ).season_type == "REG"@ {
            seq![stat_row_view(h, rows[0])]
        } else {
            Seq::empty()
        };
        head + decode_stats_reg(h, rows.drop_first())
    }
}

/// How many rows of a stat body are malformed.
pub open spec fn stat_err_count(h: Seq<Seq<char>>, rows: Seq<Seq<Seq<char>>>) -> int
    decreases rows.len(),
{
    if rows.len() == 0 {
        0
    } else {
        (if stat_row_error(h, rows[0]) is None {
            0int
        } else {
            1int
        }) + stat_err_count(h, rows.drop_first())
    }
}

/// The roster records a whole CSV document yields: the first record
/// is the header; a document without one yields nothing.
pub open spec fn doc_rosters(doc: Seq<char>) -> Seq<RosterView> {
    let rows = csv_rows_of(doc);
    if rows.len() == 0 {
        Seq::empty()
    } else {
        decode_rosters(rows[0], rows.drop_first())
    }
}

/// How many rows of a roster document are skipped as malformed.
pub open spec fn doc_roster_errs(doc: Seq<char>) -> int {
    let rows = csv_rows_of(doc);
    if rows.len() == 0 {
        0
    } else {
        roster_err_count(rows[0], rows.drop_first())
    }
}

/// The regular-season games a whole CSV document yields.
pub open spec fn doc_games_reg(doc: Seq<char>) -> Seq<GameView> {
    let rows = csv_rows_of(doc);
    if rows.len() == 0 {
        Seq::empty()
    } else {
        decode_games_reg(rows[0], rows.drop_first())
    }
}

/// How many rows of a schedule document are skipped as malformed.
pub open spec fn doc_game_errs(doc: Seq<char>) -> int {
    let rows = csv_rows_of(doc);
    if rows.len() == 0 {
        0
    } else {
        game_err_count(rows[0], rows.drop_first())
    }
}

/// The regular-season stat lines a whole CSV document yields.
pub open spec fn doc_stats_reg(doc: Seq<char>) -> Seq<StatView> {
    let rows = csv_rows_of(doc);
    if rows.len() == 0 {
        Seq::empty()
    } else {
        decode_stats_reg(rows[0], rows.drop_first())
    }
}

/// How many rows of a stat document are skipped as malformed.
pub open spec fn doc_stat_errs(doc: Seq<char>) -> int {
    let rows = csv_rows_of(doc);
    if rows.len() == 0 {
        0
    } else {
        stat_err_count(rows[0], rows.drop_first())
    }
}

/// Decode a whole roster document: the kept records in source order,
/// and how many rows were skipped as malformed.
pub fn decode_roster_doc(doc: &str) -> (r: (Vec<RosterRecord>, usize))
    ensures
        roster_views(r.0@) == doc_rosters(doc@),
        r.1 as int == doc_roster_errs(doc@),
{
    let rows = csv_rows(doc);
    let n = rows.len();
    let mut out: Vec<RosterRecord> = Vec::new();
    let mut errs: usize = 0;
    if n == 0 {
        proof {
            assert(roster_views(out@) =~= doc_rosters(doc@));
        }
        return (out, errs);
    }
    let ghost all = rows_view(rows@);
    let ghost hv = all[0];
    let ghost tail = all.drop_first();
    proof {
        assert(hv == strs_view(rows@[0]@));
        assert(tail.skip(0) =~= tail);
        assert(roster_views(out@) + decode_rosters(hv, tail) =~= decode_rosters(hv, tail));
    }
    let mut i: usize = 1;
    while i < n
        invariant
            n == rows@.len(),
            n >= 1,
            1 <= i <= n,
            all == rows_view(rows@),
            hv == all[0],
            tail == all.drop_first(),
            errs <= i - 1,
            roster_views(out@) + decode_rosters(hv, tail.skip(i - 1)) == decode_rosters(hv, tail),
            errs as int + roster_err_count(hv, tail.skip(i - 1)) == roster_err_count(hv, tail),
        decreases n - i,
    {
        let ghost rest = tail.skip(i - 1);
        proof {
            assert(rest[0] == tail[i - 1]);
            assert(tail[i - 1] == all[i as int]);
            assert(all[i as int] == strs_view(rows@[i as int]@));
            assert(rest.drop_first() =~= tail.skip(i as int));
        }
        let header = &rows[0];
        proof {
            assert(strs_view(header@) == hv);
        }
        let ghost a = roster_views(out@);
        let ghost b = decode_rosters(hv, rest.drop_first());
        match decode_roster(header, &rows[i]) {
            Ok(rec) => {
                let ghost x = rec@;
                proof {
                    assert(x == roster_row_view(hv, rest[0]));
                    assert(decode_rosters(hv, rest) == seq![x] + b);
                }
                out.push(rec);
                proof {
                    assert(roster_views(out@) =~= a.push(x));
                    assert(a.push(x) + b =~= a + (seq![x] + b));
                }
            },
            Err(_) => {
                errs += 1;
                proof {
                    assert(decode_rosters(hv, rest) =~= b);
                    assert(roster_err_count(hv, rest) == 1 + roster_err_count(
                        hv,
                        rest.drop_first(),
                    ));
                }
            },
        }
        i += 1;
    }
    proof {
        assert(tail.skip(n - 1) =~= Seq::<Seq<Seq<char>>>::empty());
        assert(decode_rosters(hv, tail.skip(n - 1)) =~= Seq::<RosterView>::empty());
        assert(roster_views(out@) + Seq::<RosterView>::empty() =~= roster_views(out@));
    }
    (out, errs)
}

/// Decode a whole schedule document: the regular-season games in
/// source order, and how many rows were skipped as malformed.
pub fn decode_schedule_doc(doc: &str) -> (r: (Vec<GameRecord>, usize))
    ensures
        game_views(r.0@) == doc_games_reg(doc@),
        r.1 as int == doc_game_errs(doc@),
{
    let rows = csv_rows(doc);
    let n = rows.len();
    let mut out: Vec<GameRecord> = Vec::new();
    let mut errs: usize = 0;
    if n == 0 {
        proof {
            assert(game_views(out@) =~= doc_games_reg(doc@));
        }
        return (out, errs);
    }
    let ghost all = rows_view(rows@);
    let ghost hv = all[0];
    let ghost tail = all.drop_first();
    proof {
        assert(hv == strs_view(rows@[0]@));
        assert(tail.skip(0) =~= tail);
        assert(game_views(out@) + decode_games_reg(hv, tail) =~= decode_games_reg(hv, tail));
    }
    let mut i: usize = 1;
    while i < n
        invariant
            n == rows@.len(),
            n >= 1,
            1 <= i <= n,
            all == rows_view(rows@),
            hv == all[0],
            tail == all.drop_first(),
            errs <= i - 1,
            game_views(out@) + decode_games_reg(hv, tail.skip(i - 1)) == decode_games_reg(
                hv,
                tail,
            ),
            errs as int + game_err_count(hv, tail.skip(i - 1)) == game_err_count(hv, tail),
        decreases n - i,
    {
        let ghost rest = tail.skip(i - 1);
        proof {
            assert(rest[0] == tail[i - 1]);
            assert(tail[i - 1] == all[i as int]);
            assert(all[i as int] == strs_view(rows@[i as int]@));
            assert(rest.drop_first() =~= tail.skip(i as int));
        }
        let header = &rows[0];
        proof {
            assert(strs_view(header@) == hv);
        }
        let ghost a = game_views(out@);
        let ghost b = decode_games_reg(hv, rest.drop_first());
        match decode_game(header, &rows[i]) {
            Ok(rec) => {
                let ghost x = rec@;
                if text::str_eq(rec.game_type.as_str(), "REG") {
                    proof {
                        assert(x == game_row_view(hv, rest[0]));
                        assert(decode_games_reg(hv, rest) == seq![x] + b);
                    }
                    out.push(rec);
                    proof {
                        assert(game_views(out@) =~= a.push(x));
                        assert(a.push(x) + b =~= a + (seq![x] + b));
                    }
                } else {
                    proof {
                        assert(decode_games_reg(hv, rest) =~= b);
                    }
                }
            },
            Err(_) => {
                errs += 1;
                proof {
                    assert(decode_games_reg(hv, rest) =~= b);
                    assert(game_err_count(hv, rest) == 1 + game_err_count(hv, rest.drop_first()));
                }
            },
        }
        i += 1;
    }
    proof {
        assert(tail.skip(n - 1) =~= Seq::<Seq<Seq<char>>>::empty());
        assert(decode_games_reg(hv, tail.skip(n - 1)) =~= Seq::<GameView>::empty());
        assert(game_views(out@) + Seq::<GameView>::empty() =~= game_views(out@));
    }
    (out, errs)
}

/// Decode a whole stat document: the regular-season stat lines in
/// source order, and how many rows were skipped as malformed.
pub fn decode_stats_doc(doc: &str) -> (r: (Vec<StatRecord>, usize))
    ensures
        stat_views(r.0@) == doc_stats_reg(doc@),
        r.1 as int == doc_stat_errs(doc@),
{
    let rows = csv_rows(doc);
    let n = rows.len();
    let mut out: Vec<StatRecord> = Vec::new();
    let mut errs: usize = 0;
    if n == 0 {
        proof {
            assert(stat_views(out@) =~= doc_stats_reg(doc@));
        }
        return (out, errs);
    }
    let ghost all = rows_view(rows@);
    let ghost hv = all[0];
    let ghost tail = all.drop_first();
    proof {
        assert(hv == strs_view(rows@[0]@));
        assert(tail.skip(0) =~= tail);
        assert(stat_views(out@) + decode_stats_reg(hv, tail) =~= decode_stats_reg(hv, tail));
    }
    let mut i: usize = 1;
    while i < n
        invariant
            n == rows@.len(),
            n >= 1,
            1 <= i <= n,
            all == rows_view(rows@),
            hv == all[0],
            tail == all.drop_first(),
            errs <= i - 1,
            stat_views(out@) + decode_stats_reg(hv, tail.skip(i - 1)) == decode_stats_reg(
                hv,
                tail,
            ),
            errs as int + stat_err_count(hv, tail.skip(i - 1)) == stat_err_count(hv, tail),
        decreases n - i,
    {
        let ghost rest = tail.skip(i - 1);
        proof {
            assert(rest[0] == tail[i - 1]);
            assert(tail[i - 1] == all[i as int]);
            assert(all[i as int] == strs_view(rows@[i as int]@));
            assert(rest.drop_first() =~= tail.skip(i as int));
        }
        let header = &rows[0];
        proof {
            assert(strs_view(header@) == hv);
        }
        let ghost a = stat_views(out@);
        let ghost b = decode_stats_reg(hv, rest.drop_first());
        match decode_stat(header, &rows[i]) {
            Ok(rec) => {
                let ghost x = rec@;
                if text::str_eq(rec.season_type.as_str(), "REG") {
                    proof {
                        assert(x == stat_row_view(hv, rest[0]));
                        assert(decode_stats_reg(hv, rest) == seq![x] + b);
                    }
                    out.push(rec);
                    proof {
                        assert(stat_views(out@) =~= a.push(x));
                        assert(a.push(x) + b =~= a + (seq![x] + b));
                    }
                } else {
                    proof {
                        assert(decode_stats_reg(hv, rest) =~= b);
                    }
                }
            },
            Err(_) => {
                errs += 1;
                proof {
                    assert(decode_stats_reg(hv, rest) =~= b);
                    assert(stat_err_count(hv, rest) == 1 + stat_err_count(hv, rest.drop_first()));
                }
            },
        }
        i += 1;
    }
    proof {
        assert(tail.skip(n - 1) =~= Seq::<Seq<Seq<char>>>::empty());
        assert(decode_stats_reg(hv, tail.skip(n - 1)) =~= Seq::<StatView>::empty());
        assert(stat_views(out@) + Seq::<StatView>::empty() =~= stat_views(out@));
    }
    (out, errs)
}

} // verus!
