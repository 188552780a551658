use nfl_data_pipeline::transform::{
    clean_player_name, height_to_inches, normalize_position, normalize_team_abbr,
};

#[test]
fn test_team_mapping() {
    assert_eq!(normalize_team_abbr("STL"), "LA");
    assert_eq!(normalize_team_abbr("SD"), "LAC");
    assert_eq!(normalize_team_abbr("OAK"), "LV");
    assert_eq!(normalize_team_abbr("KC"), "KC");
}

#[test]
fn test_height_conversion() {
    assert_eq!(height_to_inches("6-2"), Some(74));
    assert_eq!(height_to_inches("5-11"), Some(71));
    assert_eq!(height_to_inches("invalid"), None);
}

#[test]
fn test_position_normalization() {
    assert_eq!(normalize_position("HB"), "RB");
    assert_eq!(normalize_position("ILB"), "LB");
    assert_eq!(normalize_position("QB"), "QB");
}

#[test]
fn team_mapping_ignores_case_and_covers_legacy_codes() {
    assert_eq!(normalize_team_abbr("stl"), "LA");
    assert_eq!(normalize_team_abbr("SL"), "LA");
    assert_eq!(normalize_team_abbr("BLT"), "BAL");
    assert_eq!(normalize_team_abbr("CLV"), "CLE");
    assert_eq!(normalize_team_abbr("HST"), "HOU");
    assert_eq!(normalize_team_abbr("ARZ"), "ARI");
    assert_eq!(normalize_team_abbr("sd"), "LAC");
    assert_eq!(normalize_team_abbr("gb"), "GB");
}

#[test]
fn height_conversion_edge_shapes() {
    assert_eq!(height_to_inches("6-0"), Some(72));
    assert_eq!(height_to_inches("0-0"), Some(0));
    assert_eq!(height_to_inches(""), None);
    assert_eq!(height_to_inches("6"), None);
    assert_eq!(height_to_inches("6-2-1"), None);
    assert_eq!(height_to_inches("-2"), None);
    assert_eq!(height_to_inches("6-"), None);
    assert_eq!(height_to_inches("a-b"), None);
}

#[test]
fn position_groups_complete() {
    assert_eq!(normalize_position("FB"), "RB");
    assert_eq!(normalize_position("OLB"), "LB");
    assert_eq!(normalize_position("MLB"), "LB");
    assert_eq!(normalize_position("CB"), "DB");
    assert_eq!(normalize_position("S"), "DB");
    assert_eq!(normalize_position("FS"), "DB");
    assert_eq!(normalize_position("SS"), "DB");
    assert_eq!(normalize_position("DE"), "DL");
    assert_eq!(normalize_position("DT"), "DL");
    assert_eq!(normalize_position("NT"), "DL");
    assert_eq!(normalize_position("wr"), "WR");
}

#[test]
fn player_name_suffixes_stripped() {
    assert_eq!(clean_player_name("Odell Beckham Jr."), "Odell Beckham");
    assert_eq!(clean_player_name("  Ken Griffey Sr. "), "Ken Griffey");
    assert_eq!(clean_player_name("Robert Griffin III"), "Robert Griffin");
    assert_eq!(clean_player_name("John Doe II"), "John Doe");
    assert_eq!(clean_player_name("James Smith IV"), "James Smith");
    assert_eq!(clean_player_name("Plain Name"), "Plain Name");
}
