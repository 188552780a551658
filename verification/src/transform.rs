//! Domain normalization: team abbreviations, height strings, position
//! codes and player names, each a pure total function with an exact
//! contract.
use vstd::prelude::*;
use vstd::string::*;

use crate::text;

verus! {

/// The fixed historical-to-current team-code table, applied to the
/// upper-cased code: relocations STL/SL to LA, SD to LAC, OAK to LV,
/// and the legacy spellings BLT, CLV, HST, ARZ.
pub open spec fn team_map(u: Seq<char>) -> Option<Seq<char>> {
    if u == "STL"@ || u == "SL"@ {
        Some("LA"@)
    } else if u == "SD"@ {
        Some("LAC"@)
    } else if u == "OAK"@ {
        Some("LV"@)
    } else if u == "BLT"@ {
        Some("BAL"@)
    } else if u == "CLV"@ {
        Some("CLE"@)
    } else if u == "HST"@ {
        Some("HOU"@)
    } else if u == "ARZ"@ {
        Some("ARI"@)
    } else {
        None
    }
}

/// What team-code normalization yields: the code is upper-cased, then
/// looked up in the historical table; an unmapped code passes through
/// upper-cased unchanged.
pub open spec fn normalize_team_spec(s: Seq<char>) -> Seq<char> {
    match team_map(text::upper_seq(s)) {
        Some(t) => t,
        None => text::upper_seq(s),
    }
}

/// Map a team abbreviation to its current canonical form. Total: never
/// fails, unmapped codes come back upper-cased.
pub fn normalize_team_abbr(abbr: &str) -> (r: String)
    ensures
        r@ == normalize_team_spec(abbr@),
{
    let u = text::to_upper(abbr);
    let us = u.as_str();
    if text::str_eq(us, "STL") || text::str_eq(us, "SL") {
        String::from_str("LA")
    } else if text::str_eq(us, "SD") {
        String::from_str("LAC")
    } else if text::str_eq(us, "OAK") {
        String::from_str("LV")
    } else if text::str_eq(us, "BLT") {
        String::from_str("BAL")
    } else if text::str_eq(us, "CLV") {
        String::from_str("CLE")
    } else if text::str_eq(us, "HST") {
        String::from_str("HOU")
    } else if text::str_eq(us, "ARZ") {
        String::from_str("ARI")
    } else {
        u
    }
}

/// The single position of '-' in the sequence, provided there is
/// exactly one.
pub open spec fn sole_dash_at(s: Seq<char>, i: int) -> bool {
    &&& 0 <= i < s.len()
    &&& s[i] == '-'
    &&& forall|j: int| 0 <= j < s.len() && j != i ==> s[j] != '-'
}

/// What height conversion yields: for the exact shape
/// `<feet>-<inches>` with both parts decimal digits and every
/// intermediate value fitting in an i32, feet times twelve plus inches;
/// for any other shape, nothing.
pub open spec fn height_spec(s: Seq<char>) -> Option<int> {
    if exists|i: int| sole_dash_at(s, i) {
        let i = choose|i: int| sole_dash_at(s, i);
        match (text::parse_i32_spec(s.take(i)), text::parse_i32_spec(s.skip(i + 1))) {
            (Some(feet), Some(inches)) => if feet * 12 + inches <= i32::MAX as int {
                Some(feet * 12 + inches)
            } else {
                None
            },
            _ => None,
        }
    } else {
        None
    }
}

/// Convert a height string such as "6-2" to inches; any other shape
/// yields nothing rather than an error.
pub fn height_to_inches(height_str: &str) -> (r: Option<i32>)
    ensures
        r is Some ==> height_spec(height_str@) == Some(r->0 as int),
        r is None ==> height_spec(height_str@) is None,
{
    let n = height_str.unicode_len();
    let mut dash: usize = 0;
    let mut count: usize = 0;
    let mut i: usize = 0;
    while i < n
        invariant
            n == height_str@.len(),
            i <= n,
            count <= i,
            count == 0 ==> forall|j: int| 0 <= j < i ==> height_str@[j] != '-',
            count == 1 ==> dash < i && height_str@[dash as int] == '-' && forall|j: int|
                0 <= j < i && j != dash ==> height_str@[j] != '-',
            count >= 2 ==> exists|a: int, b: int|
                0 <= a < b < i && height_str@[a] == '-' && height_str@[b] == '-',
        decreases n - i,
    {
        if height_str.get_char(i) == '-' {
            if count == 0 {
                dash = i;
            }
            count += 1;
        }
        i += 1;
    }
    if count != 1 {
        proof {
            if count == 0 {
                assert forall|k: int| !sole_dash_at(height_str@, k) by {
                    if 0 <= k < height_str@.len() {
                        assert(height_str@[k] != '-');
                    }
                }
            } else {
                assert forall|k: int| !sole_dash_at(height_str@, k) by {
                    if sole_dash_at(height_str@, k) {
                        let (a, b) = choose|a: int, b: int|
                            0 <= a < b < n && height_str@[a] == '-' && height_str@[b] == '-';
                        if a != k {
                            assert(height_str@[a] != '-');
                        } else {
                            assert(height_str@[b] != '-');
                        }
                    }
                }
            }
        }
        return None;
    }
    proof {
        assert(sole_dash_at(height_str@, dash as int));
        let c = choose|k: int| sole_dash_at(height_str@, k);
        lemma_second_dash(height_str@, dash as int, c);
        assert(c == dash as int);
        assert(height_str@.take(dash as int) =~= height_str@.subrange(0, dash as int));
        assert(height_str@.skip(dash as int + 1) =~= height_str@.subrange(
            dash as int + 1,
            n as int,
        ));
    }
    let feet = match text::parse_i32_range(height_str, 0, dash) {
        Some(v) => v,
        None => {
            return None;
        },
    };
    let inches = match text::parse_i32_range(height_str, dash + 1, n) {
        Some(v) => v,
        None => {
            return None;
        },
    };
    let total: i64 = (feet as i64) * 12 + (inches as i64);
    if total > i32::MAX as i64 {
        return None;
    }
    proof {
        crate::text::lemma_parse_nonneg(height_str@.take(dash as int));
        crate::text::lemma_parse_nonneg(height_str@.skip(dash as int + 1));
    }
    Some(total as i32)
}

proof fn lemma_second_dash(s: Seq<char>, first: int, k: int)
    requires
        0 <= first < s.len(),
        s[first] == '-',
        sole_dash_at(s, k),
    ensures
        k == first,
{
    if k != first {
        assert(s[first] != '-');
    }
}

/// The fixed position-collapsing table, applied to the upper-cased
/// code: HB and FB to RB; ILB, OLB and MLB to LB; CB, S, FS and SS to
/// DB; DE, DT and NT to DL.
pub open spec fn position_map(u: Seq<char>) -> Option<Seq<char>> {
    if u == "HB"@ || u == "FB"@ {
        Some("RB"@)
    } else if u == "ILB"@ || u == "OLB"@ || u == "MLB"@ {
        Some("LB"@)
    } else if u == "CB"@ || u == "S"@ || u == "FS"@ || u == "SS"@ {
        Some("DB"@)
    } else if u == "DE"@ || u == "DT"@ || u == "NT"@ {
        Some("DL"@)
    } else {
        None
    }
}

/// What position normalization yields: the upper-cased code collapsed
/// into its canonical group, or the upper-cased code itself when it is
/// in no group.
pub open spec fn normalize_position_spec(s: Seq<char>) -> Seq<char> {
    match position_map(text::upper_seq(s)) {
        Some(t) => t,
        None => text::upper_seq(s),
    }
}

/// Collapse a position code into its canonical group; unrecognized
/// codes pass through upper-cased.
pub fn normalize_position(pos: &str) -> (r: String)
    ensures
        r@ == normalize_position_spec(pos@),
{
    let u = text::to_upper(pos);
    let us = u.as_str();
    if text::str_eq(us, "HB") || text::str_eq(us, "FB") {
        String::from_str("RB")
    } else if text::str_eq(us, "ILB") || text::str_eq(us, "OLB") || text::str_eq(us, "MLB") {
        String::from_str("LB")
    } else if text::str_eq(us, "CB") || text::str_eq(us, "S") || text::str_eq(us, "FS")
        || text::str_eq(us, "SS") {
        String::from_str("DB")
    } else if text::str_eq(us, "DE") || text::str_eq(us, "DT") || text::str_eq(us, "NT") {
        String::from_str("DL")
    } else {
        u
    }
}

/// What name cleaning yields: the generational suffixes " Jr.",
/// " Sr.", " III", " II" and " IV" removed in that order, then
/// surrounding whitespace trimmed.
pub open spec fn clean_name_spec(s: Seq<char>) -> Seq<char> {
    text::trim_spec(
        text::remove_all_spec(
            text::remove_all_spec(
                text::remove_all_spec(
                    text::remove_all_spec(text::remove_all_spec(s, " Jr."@), " Sr."@),
                    " III"@,
                ),
                " II"@,
            ),
            " IV"@,
        ),
    )
}

/// Strip generational suffixes and surrounding whitespace from a
/// player name.
pub fn clean_player_name(name: &str) -> (r: String)
    ensures
        r@ == clean_name_spec(name@),
{
    proof {
        reveal_strlit(" Jr.");
        reveal_strlit(" Sr.");
        reveal_strlit(" III");
        reveal_strlit(" II");
        reveal_strlit(" IV");
    }
    let a = text::remove_all(name, " Jr.");
    let b = text::remove_all(a.as_str(), " Sr.");
    let c = text::remove_all(b.as_str(), " III");
    let d = text::remove_all(c.as_str(), " II");
    let e = text::remove_all(d.as_str(), " IV");
    text::trim(e.as_str())
}

} // verus!
