//! Source fetching as a state machine: deterministic URL construction
//! per data category and season, a fast failure for categories that do
//! not exist for a season, and bounded retry with exponential backoff.
//! The caller performs the HTTP requests and the sleeps; every
//! decision — whether to request at all, what to request, whether to
//! retry and for how long — is made here.
use vstd::prelude::*;
use vstd::string::*;

use crate::text::dec_int;
use crate::text::push_i32;

verus! {

/// The first season for which next-gen-stats data exists.
pub const NGS_MIN_SEASON: i32 = 2016;

/// The data categories the pipeline imports.
#[derive(Clone, Copy, Debug, PartialEq, Eq, Structural)]
pub enum DataCategory {
    Rosters,
    Schedule,
    PlayerStats,
    NgsPassing,
    NgsRushing,
    NgsReceiving,
}

/// Whether a category only exists from `NGS_MIN_SEASON` onwards.
pub open spec fn requires_ngs(c: DataCategory) -> bool {
    c == DataCategory::NgsPassing || c == DataCategory::NgsRushing || c
        == DataCategory::NgsReceiving
}

/// Whether a (category, season) pair has a defined source at all.
pub open spec fn category_available(c: DataCategory, season: i32) -> bool {
    !(requires_ngs(c) && season < NGS_MIN_SEASON)
}

/// The exact source URL for a category and season.
pub open spec fn url_spec(c: DataCategory, season: i32) -> Seq<char> {
    let year = dec_int(season as int);
    match c {
        DataCategory::Rosters => "https://github.com/nflverse/nflverse-data/releases/download/rosters/roster_"@
            + year + ".csv"@,
        DataCategory::Schedule => "https://github.com/nflverse/nflverse-data/releases/download/schedules/sched_"@
            + year + ".csv"@,
        DataCategory::PlayerStats => "https://github.com/nflverse/nflverse-data/releases/download/player_stats/player_stats_"@
            + year + ".csv"@,
        DataCategory::NgsPassing => "https://github.com/nflverse/nflverse-data/releases/download/nextgen_stats/ngs_"@
            + year + "_passing.csv"@,
        DataCategory::NgsRushing => "https://github.com/nflverse/nflverse-data/releases/download/nextgen_stats/ngs_"@
            + year + "_rushing.csv"@,
        DataCategory::NgsReceiving => "https://github.com/nflverse/nflverse-data/releases/download/nextgen_stats/ngs_"@
            + year + "_receiving.csv"@,
    }
}

/// Build the source URL for a category and season.
pub fn build_url(c: DataCategory, season: i32) -> (r: String)
    ensures
        r@ == url_spec(c, season),
{
    let mut out: String;
    match c {
        DataCategory::Rosters => {
            out = String::from_str(
                "https://github.com/nflverse/nflverse-data/releases/download/rosters/roster_",
            );
            push_i32(&mut out, season);
            out.append(".csv");
        },
        DataCategory::Schedule => {
            out = String::from_str(
                "https://github.com/nflverse/nflverse-data/releases/download/schedules/sched_",
            );
            push_i32(&mut out, season);
            out.append(".csv");
        },
        DataCategory::PlayerStats => {
            out = String::from_str(
                "https://github.com/nflverse/nflverse-data/releases/download/player_stats/player_stats_",
            );
            push_i32(&mut out, season);
            out.append(".csv");
        },
        DataCategory::NgsPassing => {
            out = String::from_str(
                "https://github.com/nflverse/nflverse-data/releases/download/nextgen_stats/ngs_",
            );
            push_i32(&mut out, season);
            out.append("_passing.csv");
        },
        DataCategory::NgsRushing => {
            out = String::from_str(
                "https://github.com/nflverse/nflverse-data/releases/download/nextgen_stats/ngs_",
            );
            push_i32(&mut out, season);
            out.append("_rushing.csv");
        },
        DataCategory::NgsReceiving => {
            out = String::from_str(
                "https://github.com/nflverse/nflverse-data/releases/download/nextgen_stats/ngs_",
            );
            push_i32(&mut out, season);
            out.append("_receiving.csv");
        },
    }
    out
}

/// How a fetch can fail for good.
#[derive(Clone, Copy, Debug, PartialEq, Eq, Structural)]
pub enum FetchError {
    /// The category is undefined for the season; no request was owed.
    DataUnavailable,
    /// The source answered 404; permanent, never retried.
    NotFound,
    /// Every allowed attempt failed transiently; carries how many
    /// attempts were made.
    Exhausted(u32),
}

/// What one HTTP attempt came back with, as the caller reports it.
pub enum AttemptOutcome {
    /// A success status with the document body.
    Success(String),
    /// A 404 status.
    HttpNotFound,
    /// Any other non-success status or transport error.
    Transient,
}

/// An in-progress fetch: the URL to request and which attempt is next.
pub struct FetchState {
    pub url: String,
    pub attempt: u32,
    pub max_retries: u32,
}

impl FetchState {
    /// Attempts are numbered from 1 and never pass the allowance.
    pub open spec fn wf(self) -> bool {
        1 <= self.attempt <= self.max_retries
    }
}

/// What the caller must do next after reporting an attempt's outcome.
pub enum FetchStep {
    /// The fetch succeeded with this document.
    Done(String),
    /// The fetch failed for good.
    Failed(FetchError),
    /// Sleep this many seconds, then request again in the new state.
    Backoff(u64, FetchState),
}

/// Begin a fetch: fails immediately — before any request — when the
/// category does not exist for the season, or when no attempt is
/// allowed at all; otherwise hands back the state for attempt one.
pub fn start_fetch(c: DataCategory, season: i32, max_retries: u32) -> (r: Result<
    FetchState,
    FetchError,
>)
    ensures
        r is Err <==> !category_available(c, season) || max_retries == 0,
        !category_available(c, season) ==> r == Err::<FetchState, FetchError>(
            FetchError::DataUnavailable,
        ),
        category_available(c, season) && max_retries == 0 ==> r == Err::<FetchState, FetchError>(
            FetchError::Exhausted(0),
        ),
        r matches Ok(st) ==> st.url@ == url_spec(c, season) && st.attempt == 1 && st.max_retries
            == max_retries && st.wf(),
{
    let ngs = match c {
        DataCategory::NgsPassing => true,
        DataCategory::NgsRushing => true,
        DataCategory::NgsReceiving => true,
        _ => false,
    };
    if ngs && season < NGS_MIN_SEASON {
        return Err(FetchError::DataUnavailable);
    }
    if max_retries == 0 {
        return Err(FetchError::Exhausted(0));
    }
    Ok(FetchState { url: build_url(c, season), attempt: 1, max_retries })
}

/// The backoff before retrying after a failed attempt: 2^attempt
/// seconds.
pub open spec fn backoff_secs(attempt: u32) -> int {
    pow2_int(attempt as nat)
}

/// Two to the given power.
pub open spec fn pow2_int(e: nat) -> int
    decreases e,
{
    if e == 0 {
        1
    } else {
        2 * pow2_int((e - 1) as nat)
    }
}

proof fn lemma_pow2_shift(e: nat)
    requires
        e < 64,
    ensures
        pow2_int(e) == (1u64 << e) as int,
        pow2_int(e) >= 1,
    decreases e,
{
    if e == 0 {
        assert((1u64 << 0) == 1u64) by (bit_vector);
    } else {
        lemma_pow2_shift((e - 1) as nat);
        let p = (e - 1) as u64;
        assert(p < 63 ==> (1u64 << ((p + 1) as u64)) == 2 * (1u64 << p)) by (bit_vector);
    }
}

/// Advance the fetch after an attempt: success returns the document;
/// 404 is a permanent failure; a transient failure retries after an
/// exponential backoff until the attempts are exhausted.
pub fn on_attempt(st: FetchState, outcome: AttemptOutcome) -> (r: FetchStep)
    requires
        st.wf(),
        st.max_retries < 64,
    ensures
        match outcome {
            AttemptOutcome::Success(doc) => r matches FetchStep::Done(d) && d == doc,
            AttemptOutcome::HttpNotFound => r == FetchStep::Failed(FetchError::NotFound),
            AttemptOutcome::Transient => {
                if st.attempt < st.max_retries {
                    r matches FetchStep::Backoff(delay, st2) && delay as int == backoff_secs(
                        st.attempt,
                    ) && st2.attempt == st.attempt + 1 && st2.max_retries == st.max_retries
                        && st2.url == st.url && st2.wf()
                } else {
                    r == FetchStep::Failed(FetchError::Exhausted(st.max_retries))
                }
            },
        },
{
    match outcome {
        AttemptOutcome::Success(doc) => FetchStep::Done(doc),
        AttemptOutcome::HttpNotFound => FetchStep::Failed(FetchError::NotFound),
        AttemptOutcome::Transient => {
            if st.attempt < st.max_retries {
                proof {
                    lemma_pow2_shift(st.attempt as nat);
                }
                let delay: u64 = 1u64 << st.attempt;
                FetchStep::Backoff(
                    delay,
                    FetchState {
                        url: st.url,
                        attempt: st.attempt + 1,
                        max_retries: st.max_retries,
                    },
                )
            } else {
                FetchStep::Failed(FetchError::Exhausted(st.max_retries))
            }
        },
    }
}

} // verus!
