//! Run configuration: the parsed command line plus the storage
//! connection string. Reading the process environment and argument
//! list is the caller's job; turning them into a configuration is
//! decided here.
use vstd::prelude::*;

use crate::parser::{col_index, strs_view};
use crate::text;

verus! {

/// Everything one run needs to know.
pub struct Config {
    pub database_url: String,
    pub mode: String,
    pub year: i32,
    pub start_year: i32,
    pub end_year: i32,
    pub dry_run: bool,
    pub batch_size: usize,
    pub max_retries: u32,
}

/// The default batch threshold: how many records accumulate before a
/// flush.
pub const DEFAULT_BATCH_SIZE: usize = 500;

/// The default fetch attempt allowance.
pub const DEFAULT_MAX_RETRIES: u32 = 3;

/// The value following the first occurrence of a key in the argument
/// list, if there is one and it is followed by anything.
pub open spec fn arg_value(args: Seq<Seq<char>>, key: Seq<char>) -> Option<Seq<char>> {
    match col_index(args, key) {
        Some(i) => if i + 1 < args.len() {
            Some(args[i + 1])
        } else {
            None
        },
        None => None,
    }
}

/// An integer option: the key's value when present and numeric, the
/// default otherwise.
pub open spec fn int_arg(args: Seq<Seq<char>>, key: Seq<char>, default: i32) -> i32 {
    match arg_value(args, key) {
        Some(s) => match text::parse_signed_spec(s) {
            Some(v) => v as i32,
            None => default,
        },
        None => default,
    }
}

/// The mode option: the word after "--mode", defaulting to "full".
pub open spec fn mode_arg(args: Seq<Seq<char>>) -> Seq<char> {
    match arg_value(args, "--mode"@) {
        Some(s) => s,
        None => "full"@,
    }
}

/// Whether a bare flag occurs anywhere in the argument list.
pub open spec fn has_flag(args: Seq<Seq<char>>, flag: Seq<char>) -> bool {
    exists|i: int| 0 <= i < args.len() && args[i] == flag
}

impl Config {
    /// The value following the first occurrence of a key.
    pub fn get_arg(args: &[String], key: &str) -> (r: Option<String>)
        ensures
            crate::records::opt_str_view(r) == arg_value(strs_view(args@), key@),
    {
        let n = args.len();
        let mut i: usize = 0;
        while i < n
            invariant
                n == args@.len(),
                i <= n,
                forall|j: int| 0 <= j < i ==> strs_view(args@)[j] != key@,
            decreases n - i,
        {
            if text::str_eq(args[i].as_str(), key) {
                proof {
                    crate::parser::lemma_col_index_at(strs_view(args@), key@, i as int);
                }
                if i + 1 < n {
                    return Some(args[i + 1].clone());
                } else {
                    return None;
                }
            }
            i += 1;
        }
        proof {
            crate::parser::lemma_col_index_none(strs_view(args@), key@);
        }
        None
    }

    /// An integer option with a default for an absent or non-numeric
    /// value.
    fn get_int_arg(args: &[String], key: &str, default: i32) -> (r: i32)
        ensures
            r == int_arg(strs_view(args@), key@, default),
    {
        match Self::get_arg(args, key) {
            Some(s) => match text::parse_signed(s.as_str()) {
                Some(v) => v,
                None => default,
            },
            None => default,
        }
    }

    /// Whether a bare flag occurs in the argument list.
    fn has_flag_exec(args: &[String], flag: &str) -> (r: bool)
        ensures
            r == has_flag(strs_view(args@), flag@),
    {
        let n = args.len();
        let mut i: usize = 0;
        while i < n
            invariant
                n == args@.len(),
                i <= n,
                forall|j: int| 0 <= j < i ==> strs_view(args@)[j] != flag@,
            decreases n - i,
        {
            if text::str_eq(args[i].as_str(), flag) {
                proof {
                    assert(strs_view(args@)[i as int] == flag@);
                }
                return true;
            }
            i += 1;
        }
        proof {
            if has_flag(strs_view(args@), flag@) {
                let j = choose|j: int|
                    0 <= j < args@.len() && strs_view(args@)[j] == flag@;
                assert(strs_view(args@)[j] != flag@);
            }
        }
        false
    }

    /// Build a configuration from the argument list and the storage
    /// connection string: mode defaults to "full", the year to 2024,
    /// the range to 2010 through 2025; a batch holds 500 records and
    /// a fetch gets 3 attempts.
    pub fn from_args(args: &[String], database_url: String) -> (r: Config)
        ensures
            r.database_url == database_url,
            r.mode@ == mode_arg(strs_view(args@)),
            r.year == int_arg(strs_view(args@), "--year"@, 2024),
            r.start_year == int_arg(strs_view(args@), "--start-year"@, 2010),
            r.end_year == int_arg(strs_view(args@), "--end-year"@, 2025),
            r.dry_run == has_flag(strs_view(args@), "--dry-run"@),
            r.batch_size == DEFAULT_BATCH_SIZE,
            r.max_retries == DEFAULT_MAX_RETRIES,
    {
        let mode = match Self::get_arg(args, "--mode") {
            Some(s) => s,
            None => "full".to_owned(),
        };
        let year = Self::get_int_arg(args, "--year", 2024);
        let start_year = Self::get_int_arg(args, "--start-year", 2010);
        let end_year = Self::get_int_arg(args, "--end-year", 2025);
        let dry_run = Self::has_flag_exec(args, "--dry-run");
        Config {
            database_url,
            mode,
            year,
            start_year,
            end_year,
            dry_run,
            batch_size: DEFAULT_BATCH_SIZE,
            max_retries: DEFAULT_MAX_RETRIES,
        }
    }
}

} // verus!
