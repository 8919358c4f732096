//! Whether a claim still holds: a claim whose every end-of-validity
//! qualifier lies before a fixed cutoff instant has expired.
use crate::record::{lookup, Claim, Snak, EXPIRY_CLAIM};
use vstd::prelude::*;
use vstd::string::*;

verus! {

/// The cutoff instant, 2025-01-01T00:00:00Z, in seconds since the Unix epoch.
pub const EXPIRY_CUTOFF: i64 = 1735689600;

/// What chrono reads from an RFC 3339 text: the instant in whole seconds
/// since the Unix epoch, or nothing where the text does not parse.
pub uninterp spec fn rfc3339_seconds(s: Seq<char>) -> Option<i64>;

/// Relies on `chrono::DateTime::parse_from_str` with the `%+` (RFC 3339)
/// format, converted to UTC seconds by `DateTime::timestamp`.
#[verifier::external_body]
fn parse_instant(s: &str) -> (r: Option<i64>)
    ensures
        r == rfc3339_seconds(s@),
{
    match chrono::DateTime::parse_from_str(s, "%+") {
        Ok(dt) => Some(dt.timestamp()),
        Err(_) => None,
    }
}

/// The text to parse for a time value: a precision of a year or coarser
/// (codes up to 9) keeps the signed year (five characters) and reads it as
/// January 1st; a month precision (10) keeps year and month (eight
/// characters) and reads it as the 1st; a finer precision keeps the text.
/// Nothing where the text is too short to cut.
pub open spec fn normalized_time(time: Seq<char>, precision: u8) -> Option<Seq<char>> {
    if precision <= 9 {
        if time.len() >= 5 {
            Some(time.subrange(0, 5) + "-01-01T00:00:00Z"@)
        } else {
            None
        }
    } else if precision == 10 {
        if time.len() >= 8 {
            Some(time.subrange(0, 8) + "-01T00:00:00Z"@)
        } else {
            None
        }
    } else {
        Some(time)
    }
}

/// The text to parse for a time value of the given precision.
pub fn normalize_time(time: &str, precision: u8) -> (r: Option<String>)
    ensures
        match r {
            Some(s) => normalized_time(time@, precision) == Some(s@),
            None => normalized_time(time@, precision) is None,
        },
{
    let n = time.unicode_len();
    if precision <= 9 {
        if n >= 5 {
            Some(String::from_str(time.substring_char(0, 5)).concat("-01-01T00:00:00Z"))
        } else {
            None
        }
    } else if precision == 10 {
        if n >= 8 {
            Some(String::from_str(time.substring_char(0, 8)).concat("-01T00:00:00Z"))
        } else {
            None
        }
    } else {
        Some(String::from_str(time))
    }
}

/// Whether a parsed end of validity lies before `cutoff`; a text that did not
/// parse counts as before it.
pub open spec fn instant_before(instant: Option<i64>, cutoff: i64) -> bool {
    match instant {
        Some(t) => t < cutoff,
        None => true,
    }
}

/// Whether a parsed end of validity lies before `cutoff`.
pub fn is_before(instant: Option<i64>, cutoff: i64) -> (r: bool)
    ensures
        r == instant_before(instant, cutoff),
{
    match instant {
        Some(t) => t < cutoff,
        None => true,
    }
}

/// Whether an end-of-validity qualifier lies before `cutoff`: a time value
/// whose normalized text is before it or cannot be read; any other kind of
/// value does not.
pub open spec fn snak_before(q: Snak, cutoff: i64) -> bool {
    match q {
        Snak::Time { time, precision } => match normalized_time(time@, precision) {
            Some(s) => instant_before(rfc3339_seconds(s), cutoff),
            None => true,
        },
        _ => false,
    }
}

/// Whether every qualifier lies before `cutoff`.
pub open spec fn all_before(qs: Seq<Snak>, cutoff: i64) -> bool {
    forall|i: int| 0 <= i < qs.len() ==> snak_before(#[trigger] qs[i], cutoff)
}

/// Whether an end-of-validity qualifier lies before `cutoff`.
pub fn expiry_before(q: &Snak, cutoff: i64) -> (r: bool)
    ensures
        r == snak_before(*q, cutoff),
{
    match q {
        Snak::Time { time, precision } => match normalize_time(time.as_str(), *precision) {
            Some(s) => is_before(parse_instant(s.as_str()), cutoff),
            None => true,
        },
        _ => false,
    }
}

/// Whether every end-of-validity qualifier lies before `cutoff`.
pub fn claim_before(qualifiers: &Vec<Snak>, cutoff: i64) -> (r: bool)
    ensures
        r == all_before(qualifiers@, cutoff),
{
    let mut i: usize = 0;
    while i < qualifiers.len()
        invariant
            i <= qualifiers@.len(),
            forall|j: int| 0 <= j < i ==> snak_before(#[trigger] qualifiers@[j], cutoff),
        decreases qualifiers@.len() - i,
    {
        if !expiry_before(&qualifiers[i], cutoff) {
            return false;
        }
        i = i + 1;
    }
    true
}

/// A claim holds unless it has end-of-validity qualifiers and all of them lie
/// before the cutoff.
pub open spec fn claim_valid(c: Claim) -> bool {
    match c.qualifiers {
        Some(qs) => match lookup(qs@, EXPIRY_CLAIM@) {
            Some(expiries) => !all_before(expiries@, EXPIRY_CUTOFF),
            None => true,
        },
        None => true,
    }
}

/// Whether a claim still holds at the cutoff instant.
pub fn claim_still_valid(claim: &Claim) -> (r: bool)
    ensures
        r == claim_valid(*claim),
{
    match &claim.qualifiers {
        Some(qs) => match crate::record::find_entry(qs, EXPIRY_CLAIM) {
            Some(i) => !claim_before(&qs[i].1, EXPIRY_CUTOFF),
            None => true,
        },
        None => true,
    }
}

/// A claim without end-of-validity qualifiers holds.
pub proof fn lemma_no_expiry_is_valid(claim: Claim)
    requires
        match claim.qualifiers {
            Some(qs) => lookup(qs@, EXPIRY_CLAIM@) is None,
            None => true,
        },
    ensures
        claim_valid(claim),
{
}

/// A claim with a single end-of-validity qualifier, a time value, holds
/// exactly when that time can be read and is not before the cutoff: a time
/// strictly before the cutoff, or one that cannot be read, ends it; a later
/// one keeps it.
pub proof fn lemma_single_expiry(claim: Claim, qs: Vec<(String, Vec<Snak>)>, expiries: Vec<Snak>)
    requires
        claim.qualifiers == Some(qs),
        lookup(qs@, EXPIRY_CLAIM@) == Some(expiries),
        expiries@.len() == 1,
        expiries@[0] is Time,
    ensures
        ({
            let (time, precision) = (expiries@[0]->time, expiries@[0]->precision);
            claim_valid(claim) == match normalized_time(time@, precision) {
                Some(text) => match rfc3339_seconds(text) {
                    Some(t) => t >= EXPIRY_CUTOFF,
                    None => false,
                },
                None => false,
            }
        }),
{
    assert(all_before(expiries@, EXPIRY_CUTOFF) == snak_before(expiries@[0], EXPIRY_CUTOFF));
}

} // verus!
