//! Showing a modification time, through `chrono`.
use vstd::prelude::*;

verus! {

/// The text that `chrono` gives for the UTC time `ms` milliseconds after the Unix epoch
/// (`NaiveDateTime::from_timestamp_millis`, then `DateTime::<Utc>::from_utc` and its
/// `Display`), or `None` where `chrono` finds `ms` out of its range.
pub uninterp spec fn chrono_utc_text(ms: i64) -> Option<Seq<char>>;

/// Renders `ms` with `chrono`. The result is `chrono_utc_text(ms)`: a function of `ms`
/// alone, as `Utc` involves no time zone of the machine.
#[verifier::external_body]
#[allow(deprecated)]
fn utc_text_of_millis(ms: i64) -> (r: Option<String>)
    ensures
        match r {
            Some(s) => chrono_utc_text(ms) == Some(s@),
            None => chrono_utc_text(ms) is None,
        },
{
    match chrono::NaiveDateTime::from_timestamp_millis(ms) {
        Some(n) => Some(chrono::DateTime::<chrono::Utc>::from_utc(n, chrono::Utc).to_string()),
        None => None,
    }
}

/// The modification time `ms` as shown to the user: `chrono`'s UTC rendering, or a fixed
/// message where `chrono` cannot represent it.
pub fn millis2display(ms: i64) -> (r: String)
    ensures
        chrono_utc_text(ms) matches Some(t) ==> r@ == t,
        chrono_utc_text(ms) is None ==> r@ == "FAILED TO CONV MS TO STR"@,
{
    time_text_or_message(utc_text_of_millis(ms))
}

/// What is shown for a rendered time: the rendering itself, or a fixed message where there
/// is none.
pub fn time_text_or_message(t: Option<String>) -> (r: String)
    ensures
        t matches Some(s) ==> r@ == s@,
        t is None ==> r@ == "FAILED TO CONV MS TO STR"@,
{
    match t {
        Some(s) => s,
        None => String::from_str("FAILED TO CONV MS TO STR"),
    }
}

} // verus!
