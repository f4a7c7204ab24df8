//! How a listing words the age of a thread.

use crate::keys::{decimal, push_decimal};
use vstd::prelude::*;
use vstd::string::StringExecFns;

verus! {

pub open spec fn minute() -> int {
    60
}

pub open spec fn hour() -> int {
    3600
}

pub open spec fn day() -> int {
    86400
}

pub open spec fn week() -> int {
    604800
}

/// A count with its unit and `ago`; the unit takes an `s` unless the count
/// is one.
pub open spec fn counted(count: u8, unit: Seq<char>) -> Seq<char> {
    decimal(count) + " "@ + unit + (if count == 1 {
        ""@
    } else {
        "s"@
    }) + " ago"@
}

/// How an age in seconds is worded: in whole minutes below an hour, in
/// whole hours below a day, in whole days below a week. From a week on the
/// date itself is shown, and there is no wording.
pub open spec fn age_wording(seconds: u64) -> Option<Seq<char>> {
    if seconds < hour() {
        Some(counted((seconds as int / minute()) as u8, "minute"@))
    } else if seconds < day() {
        Some(counted((seconds as int / hour()) as u8, "hour"@))
    } else if seconds < week() {
        Some(counted((seconds as int / day()) as u8, "day"@))
    } else {
        None
    }
}

fn count_text(count: u8, unit: &str) -> (r: String)
    ensures
        r@ == counted(count, unit@),
{
    let mut text = String::new();
    push_decimal(&mut text, count);
    text.append(" ");
    text.append(unit);
    if count != 1 {
        text.append("s");
    }
    text.append(" ago");
    proof {
        reveal_strlit("");
        assert(text@ =~= counted(count, unit@));
    }
    text
}

/// Words the age of a thread, given in seconds.
pub fn format_age(seconds: u64) -> (r: Option<String>)
    ensures
        age_wording(seconds) is Some ==> r is Some && r->0@ == age_wording(seconds)->0,
        age_wording(seconds) is None ==> r is None,
{
    if seconds < 3600 {
        Some(count_text((seconds / 60) as u8, "minute"))
    } else if seconds < 86400 {
        Some(count_text((seconds / 3600) as u8, "hour"))
    } else if seconds < 604800 {
        Some(count_text((seconds / 86400) as u8, "day"))
    } else {
        None
    }
}

} // verus!
