//! Frecency: how often and how recently a path was used, as one number.

use vstd::prelude::*;

verus! {

/// A moment: seconds and nanoseconds since the start of 1970, in UTC.
#[derive(Clone, Copy, Debug, PartialEq, Eq)]
pub struct Timestamp {
    pub secs: i64,
    pub nanos: u32,
}

/// The moment in nanoseconds since the start of 1970.
pub open spec fn instant(t: Timestamp) -> int {
    t.secs * 1_000_000_000 + t.nanos
}

/// The whole seconds from `last_used` to `now`: none where `last_used` is the later of the two.
pub open spec fn age_secs(last_used: Timestamp, now: Timestamp) -> int {
    if instant(now) <= instant(last_used) {
        0
    } else {
        (instant(now) - instant(last_used)) / 1_000_000_000
    }
}

/// How much a use counts by its age: the limits are an hour, a day, a week and 30 days.
pub open spec fn recency_weight(age_secs: int) -> nat {
    if age_secs < 3600 {
        16
    } else if age_secs < 86400 {
        8
    } else if age_secs < 604800 {
        4
    } else if age_secs < 2_592_000 {
        2
    } else {
        1
    }
}

/// The frecency of a path that was used `frequency` times, the last time at `last_used`.
pub open spec fn frecency(frequency: nat, last_used: Timestamp, now: Timestamp) -> nat {
    frequency * recency_weight(age_secs(last_used, now))
}

/// The moment in nanoseconds since the start of 1970.
pub(crate) fn nanoseconds(t: Timestamp) -> (n: i128)
    ensures
        n == instant(t),
{
    t.secs as i128 * 1_000_000_000 + t.nanos as i128
}

/// Compute a frecency score from frequency and time of last use.
pub fn frecency_score(frequency: u32, last_used: Timestamp, now: Timestamp) -> (score: u64)
    ensures
        score == frecency(frequency as nat, last_used, now),
{
    let then: i128 = nanoseconds(last_used);
    let today: i128 = nanoseconds(now);
    let age: i128 = if today <= then {
        0
    } else {
        (today - then) / 1_000_000_000
    };
    let weight: u64 = if age < 3600 {
        16
    } else if age < 86400 {
        8
    } else if age < 604800 {
        4
    } else if age < 2_592_000 {
        2
    } else {
        1
    };
    assert(weight == recency_weight(age_secs(last_used, now)));
    assert(frequency as u64 * weight <= 0xffff_ffff * 16) by (nonlinear_arith)
        requires
            frequency <= 0xffff_ffff,
            weight <= 16,
    ;
    frequency as u64 * weight
}

/// The more recently a path was used, the higher its score, at the same frequency. It is strictly
/// higher where the ages fall on different sides of a limit.
pub proof fn law_recent_scores_higher(
    frequency: nat,
    recent: Timestamp,
    old: Timestamp,
    now: Timestamp,
)
    requires
        instant(old) <= instant(recent),
    ensures
        frecency(frequency, old, now) <= frecency(frequency, recent, now),
        frequency > 0 && recency_weight(age_secs(old, now)) != recency_weight(
            age_secs(recent, now),
        ) ==> frecency(frequency, old, now) < frecency(frequency, recent, now),
{
    let low = recency_weight(age_secs(old, now));
    let high = recency_weight(age_secs(recent, now));
    assert(age_secs(recent, now) <= age_secs(old, now));
    assert(low <= high);
    assert(frequency * low <= frequency * high) by (nonlinear_arith)
        requires
            low <= high,
    ;
    if frequency > 0 && low != high {
        assert(frequency * low < frequency * high) by (nonlinear_arith)
            requires
                low < high,
                frequency > 0,
        ;
    }
}

/// The score is in proportion to the frequency.
pub proof fn law_frequency_multiplies(
    times: nat,
    frequency: nat,
    last_used: Timestamp,
    now: Timestamp,
)
    ensures
        frecency(times * frequency, last_used, now) == times * frecency(
            frequency,
            last_used,
            now,
        ),
{
    let weight = recency_weight(age_secs(last_used, now));
    assert((times * frequency) * weight == times * (frequency * weight)) by (nonlinear_arith);
}

/// What a use counts for by its age: 16 up to an hour, then 8 up to a day, 4 up to a week, 2 up to
/// 30 days and 1 from then on. A use in the future has no age.
pub proof fn law_score_by_age(frequency: nat, last_used: Timestamp, now: Timestamp)
    ensures
        ({
            let age = (now.secs - last_used.secs) * 1_000_000_000 + now.nanos - last_used.nanos;
            let score = frecency(frequency, last_used, now);
            &&& age < 3600 * 1_000_000_000 ==> score == frequency * 16
            &&& 3600 * 1_000_000_000 <= age < 86400 * 1_000_000_000 ==> score == frequency * 8
            &&& 86400 * 1_000_000_000 <= age < 604800 * 1_000_000_000 ==> score == frequency * 4
            &&& 604800 * 1_000_000_000 <= age < 2592000 * 1_000_000_000 ==> score == frequency * 2
            &&& 2592000 * 1_000_000_000 <= age ==> score == frequency
        }),
{
    let age = (now.secs - last_used.secs) * 1_000_000_000 + now.nanos - last_used.nanos;
    assert(instant(now) - instant(last_used) == age);
    assert(frequency * 1 == frequency);
}

} // verus!
