//! Wall-clock access, decimal rendering of timestamps, and human-readable
//! UTC formatting through chrono.

use vstd::prelude::*;

verus! {

use vstd::string::StringExecFns;

/// Seconds since the Unix epoch of the moment the call is made; zero if
/// the system clock reads before the epoch.
///
/// Relies on std::time::SystemTime::now; nothing can be promised of a
/// clock reading.
#[verifier::external_body]
pub fn now_timestamp_secs() -> u64 {
    match std::time::SystemTime::now().duration_since(std::time::UNIX_EPOCH) {
        Ok(d) => d.as_secs(),
        Err(_) => 0,
    }
}

/// The UTC rendering chrono gives a timestamp, `None` where the timestamp
/// lies outside chrono's date range.
pub uninterp spec fn utc_string_of(t: u64) -> Option<Seq<char>>;

/// Relies on chrono::DateTime::from_timestamp and chrono's `format`: the
/// rendered UTC date depends on the timestamp alone.
#[verifier::external_body]
fn format_utc(t: u64) -> (r: Option<String>)
    ensures
        (r matches Some(s) ==> utc_string_of(t) == Some(s@)),
        (r is None ==> utc_string_of(t) is None),
{
    #[allow(clippy::unnecessary_cast)]
    chrono::DateTime::<chrono::Utc>::from_timestamp(t as i64, 0).map(
        |dt| dt.format("%Y-%m-%dT%T%z").to_string(),
    )
}

/// The decimal digit for `d`.
pub open spec fn dec_digit(d: int) -> char {
    if d == 0 {
        '0'
    } else if d == 1 {
        '1'
    } else if d == 2 {
        '2'
    } else if d == 3 {
        '3'
    } else if d == 4 {
        '4'
    } else if d == 5 {
        '5'
    } else if d == 6 {
        '6'
    } else if d == 7 {
        '7'
    } else if d == 8 {
        '8'
    } else {
        '9'
    }
}

/// The decimal rendering of a nonnegative integer, no leading zeros.
pub open spec fn dec_str(n: int) -> Seq<char>
    recommends
        n >= 0,
    decreases n,
{
    if n < 10 {
        seq![dec_digit(n)]
    } else {
        dec_str(n / 10).push(dec_digit(n % 10))
    }
}

/// One decimal digit as a string slice.
fn digit_str(d: u64) -> (s: &'static str)
    requires
        d < 10,
    ensures
        s@ == seq![dec_digit(d as int)],
{
    proof {
        reveal_strlit("0");
        reveal_strlit("1");
        reveal_strlit("2");
        reveal_strlit("3");
        reveal_strlit("4");
        reveal_strlit("5");
        reveal_strlit("6");
        reveal_strlit("7");
        reveal_strlit("8");
        reveal_strlit("9");
        assert("0"@ =~= seq!['0']);
        assert("1"@ =~= seq!['1']);
        assert("2"@ =~= seq!['2']);
        assert("3"@ =~= seq!['3']);
        assert("4"@ =~= seq!['4']);
        assert("5"@ =~= seq!['5']);
        assert("6"@ =~= seq!['6']);
        assert("7"@ =~= seq!['7']);
        assert("8"@ =~= seq!['8']);
        assert("9"@ =~= seq!['9']);
    }
    if d == 0 {
        "0"
    } else if d == 1 {
        "1"
    } else if d == 2 {
        "2"
    } else if d == 3 {
        "3"
    } else if d == 4 {
        "4"
    } else if d == 5 {
        "5"
    } else if d == 6 {
        "6"
    } else if d == 7 {
        "7"
    } else if d == 8 {
        "8"
    } else {
        "9"
    }
}

/// The decimal rendering of `n`.
pub fn u64_to_string(n: u64) -> (s: String)
    ensures
        s@ == dec_str(n as int),
    decreases n,
{
    if n < 10 {
        digit_str(n).to_owned()
    } else {
        let mut s = u64_to_string(n / 10);
        s.append(digit_str(n % 10));
        proof {
            assert(dec_str((n / 10) as int) + seq![dec_digit((n % 10) as int)] =~= dec_str(
                (n / 10) as int,
            ).push(dec_digit((n % 10) as int)));
        }
        s
    }
}

/// The rendering of a half-open interval: the numeric bounds, then both
/// bounds as UTC dates.
pub open spec fn interval_str(begin_time: u64, end_time: u64) -> Seq<char> {
    seq!['['] + dec_str(begin_time as int) + seq![','] + dec_str(end_time as int) + seq![
        ')',
        ',',
        ' ',
    ] + utc_str_or_empty(begin_time) + seq!['/'] + utc_str_or_empty(end_time)
}

/// The UTC rendering, or empty where chrono has none.
pub open spec fn utc_str_or_empty(t: u64) -> Seq<char> {
    match utc_string_of(t) {
        Some(cs) => cs,
        None => Seq::empty(),
    }
}

/// Format a timestamp as a UTC date; empty where chrono has none.
pub fn timestamp_secs_to_string(timestamp: u64) -> (s: String)
    ensures
        s@ == utc_str_or_empty(timestamp),
{
    match format_utc(timestamp) {
        Some(s) => s,
        None => String::new(),
    }
}

/// Describe the half-open interval `[begin_time, end_time)` numerically
/// and as UTC dates.
pub fn timestamp_to_interval_str(begin_time: u64, end_time: u64) -> (s: String)
    ensures
        s@ == interval_str(begin_time, end_time),
{
    proof {
        reveal_strlit("[");
        reveal_strlit(",");
        reveal_strlit("), ");
        reveal_strlit("/");
        assert("["@ =~= seq!['[']);
        assert(","@ =~= seq![',']);
        assert("), "@ =~= seq![')', ',', ' ']);
        assert("/"@ =~= seq!['/']);
    }
    let mut s = "[".to_owned();
    s.append(u64_to_string(begin_time).as_str());
    s.append(",");
    s.append(u64_to_string(end_time).as_str());
    s.append("), ");
    s.append(timestamp_secs_to_string(begin_time).as_str());
    s.append("/");
    s.append(timestamp_secs_to_string(end_time).as_str());
    proof {
        assert(s@ =~= interval_str(begin_time, end_time));
    }
    s
}

} // verus!
