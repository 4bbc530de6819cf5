//! What the frame was spent on, part by part.
//!
//! A part that never ran is not a part that was free: it has no number, and
//! its row says so in words instead of in noughts.

use std::time::Duration;
use vstd::prelude::*;
use vstd::string::*;
use crate::text::{decimal_wide, digits, plus};

verus! {

/// The whole microseconds in a length of time.
pub uninterp spec fn micros_in(took: Duration) -> u128;

/// `Duration::as_micros`: the whole microseconds in a length of time, which
/// depend on the length alone.
pub assume_specification[ Duration::as_micros ](took: &Duration) -> (result: u128)
    ensures
        result == micros_in(*took),
;

/// One part of the frame.
#[derive(Clone, Copy, Debug)]
pub struct Part<'a> {
    /// What it is called.
    pub name: &'a str,
    /// How long it takes, of the last frames it was measured in.
    pub mean: Option<Duration>,
    /// The longest it took.
    pub worst: Option<Duration>,
}

/// What was measured of the last frames.
#[derive(Clone, Copy, Debug)]
pub struct Profile<'a> {
    /// The parts, in the order they run.
    pub parts: &'a [Part<'a>],
    /// How many render passes there were, if a frame has been read back.
    pub passes: Option<u32>,
    /// Whether the adapter can time what it does.
    pub hardware: bool,
}

/// A count of microseconds, in words.
pub open spec fn micros_said(count: u128) -> Seq<char> {
    digits(count as nat) + " us"@
}

/// A count of microseconds, in words.
pub fn micros_words(count: u128) -> (result: String)
    ensures
        result@ == micros_said(count),
{
    plus(decimal_wide(count).as_str(), " us")
}

/// A length of time in microseconds.
pub fn micros(took: Duration) -> (result: String)
    ensures
        result@ == micros_said(micros_in(took)),
{
    micros_words(took.as_micros())
}

/// The three cells of a part's row.
pub struct Cells {
    pub name: String,
    pub mean: String,
    pub worst: String,
    /// Whether there is anything measured in them.
    pub measured: bool,
}

/// The row of one part: its two lengths, or words for a part that never ran.
pub fn row(part: &Part) -> (result: Cells)
    ensures
        result.name@ == part.name@,
        result.measured == (part.mean is Some && part.worst is Some),
        result.measured ==> result.mean@ == micros_said(micros_in(part.mean->0)) && result.worst@
            == micros_said(micros_in(part.worst->0)),
        !result.measured ==> result.mean@ == "-"@ && result.worst@ == "never ran"@,
{
    match (part.mean, part.worst) {
        (Some(mean), Some(worst)) => Cells {
            name: part.name.to_owned(),
            mean: micros(mean),
            worst: micros(worst),
            measured: true,
        },
        _ => Cells {
            name: part.name.to_owned(),
            mean: "-".to_owned(),
            worst: "never ran".to_owned(),
            measured: false,
        },
    }
}

/// What stands above the rows: how many passes there were, or that no frame
/// has been read back. Where nothing has been measured there is one sentence
/// and no rows.
pub fn heading(profile: &Profile) -> (result: String)
    ensures
        result@ == if profile.parts@.len() == 0 {
            "nothing has been measured yet; the first numbers are a few frames away"@
        } else {
            match profile.passes {
                Some(passes) => digits(passes as nat) + " render passes"@,
                None => "no frame has been read back yet"@,
            }
        },
{
    if profile.parts.len() == 0 {
        return "nothing has been measured yet; the first numbers are a few frames away".to_owned();
    }
    match profile.passes {
        Some(passes) => plus(decimal_wide(passes as u128).as_str(), " render passes"),
        None => "no frame has been read back yet".to_owned(),
    }
}

/// A count of microseconds is its digits and what they count.
pub proof fn microseconds_are_counted(count: u128)
    ensures
        micros_said(count) == digits(count as nat) + seq![' ', 'u', 's'],
{
    reveal_strlit(" us");
    assert(" us"@ =~= seq![' ', 'u', 's']);
}

} // verus!
