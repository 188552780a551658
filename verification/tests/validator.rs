use nfl_data_pipeline::records::{GameRecord, RosterRecord, StatRecord};
use nfl_data_pipeline::validate::{DataValidator, SoftWarning, ValidationError};

fn simple_player(gsis_id: &str, full_name: &str, team: &str, position: &str, season: i32) -> RosterRecord {
    RosterRecord {
        season,
        team: team.to_string(),
        position: position.to_string(),
        depth_chart_position: None,
        jersey_number: None,
        status: None,
        full_name: full_name.to_string(),
        first_name: None,
        last_name: None,
        birth_date: None,
        height: None,
        weight: None,
        college: None,
        gsis_id: gsis_id.to_string(),
        espn_id: None,
        sportradar_id: None,
        yahoo_id: None,
        rotowire_id: None,
        pff_id: None,
        pfr_id: None,
        fantasy_data_id: None,
        sleeper_id: None,
        years_exp: None,
        headshot_url: None,
        entry_year: None,
        rookie_year: None,
        draft_club: None,
        draft_number: None,
    }
}

fn simple_game(game_id: &str, season: i32, week: i32) -> GameRecord {
    GameRecord {
        game_id: game_id.to_string(),
        season,
        game_type: "REG".to_string(),
        week,
        gameday: "2024-09-05".to_string(),
        weekday: None,
        gametime: None,
        away_team: "KC".to_string(),
        away_score: None,
        home_team: "BAL".to_string(),
        home_score: None,
        location: None,
        result: None,
        total: None,
        overtime: None,
        old_game_id: None,
        gsis: None,
        nfl_detail_id: None,
        pfr: None,
        pff: None,
        espn: None,
        ftn: None,
        away_rest: None,
        home_rest: None,
        away_moneyline: None,
        home_moneyline: None,
        spread_line: None,
        away_spread_odds: None,
        home_spread_odds: None,
        total_line: None,
        under_odds: None,
        over_odds: None,
        div_game: None,
        roof: None,
        surface: None,
        temp: None,
        wind: None,
        away_qb_id: None,
        home_qb_id: None,
        away_qb_name: None,
        home_qb_name: None,
        away_coach: None,
        home_coach: None,
        referee: None,
        stadium_id: None,
        stadium: None,
    }
}

fn simple_stat(player_id: &str, season: i32, week: i32) -> StatRecord {
    StatRecord {
        player_id: player_id.to_string(),
        player_display_name: None,
        season,
        week,
        season_type: "REG".to_string(),
        passing_yards: None,
        rushing_yards: None,
        receiving_yards: None,
        passing_tds: None,
        rushing_tds: None,
        receiving_tds: None,
        receptions: None,
        targets: None,
        attempts: None,
        completions: None,
        interceptions: None,
    }
}

#[test]
fn test_validate_player() {
    let validator = DataValidator::new();

    let valid_player = RosterRecord {
        season: 2024,
        team: "KC".to_string(),
        position: "QB".to_string(),
        depth_chart_position: Some("QB".to_string()),
        jersey_number: Some(15),
        status: Some("ACT".to_string()),
        full_name: "Patrick Mahomes".to_string(),
        first_name: Some("Patrick".to_string()),
        last_name: Some("Mahomes".to_string()),
        birth_date: Some("1995-09-17".to_string()),
        height: Some("6-3".to_string()),
        weight: Some(230),
        college: Some("Texas Tech".to_string()),
        gsis_id: "00-0033873".to_string(),
        espn_id: None,
        sportradar_id: None,
        yahoo_id: None,
        rotowire_id: None,
        pff_id: None,
        pfr_id: None,
        fantasy_data_id: None,
        sleeper_id: None,
        years_exp: Some(7),
        headshot_url: None,
        entry_year: Some(2017),
        rookie_year: Some(2017),
        draft_club: Some("KC".to_string()),
        draft_number: Some(10),
    };

    assert!(validator.validate_player(&valid_player).is_ok());
}

#[test]
fn test_validate_game() {
    let validator = DataValidator::new();

    let valid_game = GameRecord {
        game_id: "2024_01_KC_BAL".to_string(),
        season: 2024,
        game_type: "REG".to_string(),
        week: 1,
        gameday: "2024-09-05".to_string(),
        weekday: Some("Thursday".to_string()),
        gametime: Some("20:20".to_string()),
        away_team: "KC".to_string(),
        away_score: Some(27),
        home_team: "BAL".to_string(),
        home_score: Some(20),
        location: Some("home".to_string()),
        result: Some(7),
        total: Some(47),
        overtime: Some(0),
        old_game_id: None,
        gsis: None,
        nfl_detail_id: None,
        pfr: None,
        pff: None,
        espn: None,
        ftn: None,
        away_rest: None,
        home_rest: None,
        away_moneyline: None,
        home_moneyline: None,
        spread_line: None,
        away_spread_odds: None,
        home_spread_odds: None,
        total_line: None,
        under_odds: None,
        over_odds: None,
        div_game: None,
        roof: None,
        surface: None,
        temp: None,
        wind: None,
        away_qb_id: None,
        home_qb_id: None,
        away_qb_name: None,
        home_qb_name: None,
        away_coach: None,
        home_coach: None,
        referee: None,
        stadium_id: None,
        stadium: None,
    };

    assert!(validator.validate_game(&valid_game).is_ok());
}

#[test]
fn ancient_season_is_hard_error() {
    let validator = DataValidator::new();
    let p = simple_player("00-0000001", "Old Timer", "KC", "QB", 1850);
    assert_eq!(
        validator.validate_player(&p),
        Err(ValidationError::InvalidSeason)
    );
}

#[test]
fn heavy_weight_is_accepted_but_flagged() {
    let validator = DataValidator::new();
    let mut p = simple_player("00-0000002", "Big Fellow", "KC", "OT", 2024);
    p.weight = Some(500);
    assert!(validator.validate_player(&p).is_ok());
    let warnings = validator.player_soft_warnings(&p);
    assert!(warnings.contains(&SoftWarning::UnusualWeight));
}

#[test]
fn each_missing_player_field_names_its_error() {
    let validator = DataValidator::new();
    let p = simple_player("", "A B", "KC", "QB", 2024);
    assert_eq!(validator.validate_player(&p), Err(ValidationError::MissingGsisId));
    let p = simple_player("00-1", "", "KC", "QB", 2024);
    assert_eq!(validator.validate_player(&p), Err(ValidationError::MissingFullName));
    let p = simple_player("00-1", "A B", "", "QB", 2024);
    assert_eq!(validator.validate_player(&p), Err(ValidationError::MissingTeam));
    let p = simple_player("00-1", "A B", "KC", "", 2024);
    assert_eq!(validator.validate_player(&p), Err(ValidationError::MissingPosition));
    let p = simple_player("00-1", "A B", "KC", "QB", 2031);
    assert_eq!(validator.validate_player(&p), Err(ValidationError::InvalidSeason));
}

#[test]
fn game_week_and_fields_checked() {
    let validator = DataValidator::new();
    assert!(validator.validate_game(&simple_game("2024_01_KC_BAL", 2024, 1)).is_ok());
    assert_eq!(
        validator.validate_game(&simple_game("2024_01_KC_BAL", 2024, 0)),
        Err(ValidationError::InvalidWeek)
    );
    assert_eq!(
        validator.validate_game(&simple_game("2024_01_KC_BAL", 2024, 23)),
        Err(ValidationError::InvalidWeek)
    );
    assert_eq!(
        validator.validate_game(&simple_game("", 2024, 1)),
        Err(ValidationError::MissingGameId)
    );
    let mut g = simple_game("2024_01_KC_BAL", 2024, 1);
    g.home_team = String::new();
    assert_eq!(validator.validate_game(&g), Err(ValidationError::MissingHomeTeam));
    let mut g = simple_game("2024_01_KC_BAL", 2024, 1);
    g.gameday = String::new();
    assert_eq!(validator.validate_game(&g), Err(ValidationError::MissingGameday));
    let mut g = simple_game("2024_01_KC_BAL", 2024, 1);
    g.away_team = String::new();
    assert_eq!(validator.validate_game(&g), Err(ValidationError::MissingAwayTeam));
}

#[test]
fn stat_checks_and_warnings() {
    let validator = DataValidator::new();
    assert!(validator.validate_stat(&simple_stat("00-1", 2024, 1)).is_ok());
    assert_eq!(
        validator.validate_stat(&simple_stat("", 2024, 1)),
        Err(ValidationError::MissingPlayerId)
    );
    assert_eq!(
        validator.validate_stat(&simple_stat("00-1", 1998, 1)),
        Err(ValidationError::InvalidSeason)
    );
    assert_eq!(
        validator.validate_stat(&simple_stat("00-1", 2024, 0)),
        Err(ValidationError::InvalidWeek)
    );
    let mut s = simple_stat("00-1", 2024, 1);
    s.passing_yards = Some(700);
    s.rushing_yards = Some(-30);
    s.receiving_yards = Some(301);
    let w = validator.stat_soft_warnings(&s);
    assert!(w.contains(&SoftWarning::UnusualPassingYards));
    assert!(w.contains(&SoftWarning::UnusualRushingYards));
    assert!(w.contains(&SoftWarning::UnusualReceivingYards));
    let fine = validator.stat_soft_warnings(&simple_stat("00-1", 2024, 1));
    assert!(fine.is_empty());
}

#[test]
fn game_score_and_type_warnings() {
    let validator = DataValidator::new();
    let mut g = simple_game("2024_01_KC_BAL", 2024, 1);
    g.home_score = Some(120);
    g.game_type = "XXX".to_string();
    let w = validator.game_soft_warnings(&g);
    assert!(w.contains(&SoftWarning::UnusualHomeScore));
    assert!(w.contains(&SoftWarning::UnknownGameType));
    let mut p = simple_player("00-3", "Odd Pos", "KC", "XYZ", 2024);
    p.height = Some("tall".to_string());
    let w = validator.player_soft_warnings(&p);
    assert!(w.contains(&SoftWarning::UnknownPosition));
    assert!(w.contains(&SoftWarning::BadHeightFormat));
}

#[test]
fn batch_tallies_count_valid_and_invalid() {
    let validator = DataValidator::new();
    let players = vec![
        simple_player("00-1", "A B", "KC", "QB", 2024),
        simple_player("", "C D", "KC", "RB", 2024),
        simple_player("00-2", "E F", "GB", "WR", 2024),
    ];
    assert_eq!(validator.validate_player_batch(&players), (2, 1));
    let games = vec![
        simple_game("g1", 2024, 1),
        simple_game("g2", 2024, 99),
    ];
    assert_eq!(validator.validate_game_batch(&games), (1, 1));
    let stats = vec![
        simple_stat("00-1", 2024, 1),
        simple_stat("00-1", 2500, 1),
        simple_stat("", 2024, 1),
    ];
    assert_eq!(validator.validate_stat_batch(&stats), (1, 2));
}
