//! The integer side of temporal re-ranking: which clock reading counts as now,
//! how old a record is, which decay formula applies with which parameters, and
//! which records fall inside a time window. Evaluating a formula to a score is
//! left to the caller.
use vstd::prelude::*;
use crate::text::{chars_equal, chars_of, lower_of, lowercase};

verus! {

/// Seconds in a day.
pub const SECONDS_PER_DAY: u64 = 86400;

/// Default half-life and window: fourteen days, in seconds.
pub const DEFAULT_HALF_LIFE_SECONDS: u64 = 1209600;

/// How recency turns into a score.
#[derive(Debug, Clone, Copy, PartialEq, Eq, Structural)]
pub enum TemporalMode {
    Exponential,
    LinearWindow,
    Step,
    Buckets,
}

/// The recency score of one record, in closed form.
#[derive(Debug, Clone, Copy, PartialEq, Eq, Structural)]
pub enum TemporalKernel {
    /// Score 0.
    Zero,
    /// Score `2^(-age / half_life)`; `half_life` is positive.
    Decay { age: u64, half_life: u64 },
    /// Score `remaining / window`, with `remaining = window - min(age, window)`;
    /// `window` is positive.
    Linear { remaining: u64, window: u64 },
    /// Score: the configured boost magnitude, clamped to `[0, 1]`.
    StepBoost,
    /// Score: that of the bucket at this index, clamped to `[0, 1]`.
    Bucket(usize),
}

/// The moment that counts as now: the explicit argument, else the configured
/// override, else the clock.
pub fn resolve_now(explicit: Option<u64>, configured: Option<u64>, clock: u64) -> (r: u64)
    ensures
        r == match explicit {
            Some(t) => t,
            None => match configured {
                Some(t) => t,
                None => clock,
            },
        },
{
    match explicit {
        Some(t) => t,
        None => match configured {
            Some(t) => t,
            None => clock,
        },
    }
}

/// Age of a record stamped `timestamp` at time `now`; zero for a future stamp.
pub open spec fn age_of(now: u64, timestamp: u64) -> u64 {
    if now >= timestamp {
        (now - timestamp) as u64
    } else {
        0
    }
}

/// Index of the first bucket whose upper age bound is at least `age`.
pub open spec fn first_bucket(bounds: Seq<u64>, age: u64) -> Option<int>
    decreases bounds.len(),
{
    if bounds.len() == 0 {
        None
    } else if age <= bounds[0] {
        Some(0)
    } else {
        match first_bucket(bounds.drop_first(), age) {
            Some(i) => Some(i + 1),
            None => None,
        }
    }
}

/// The exponential kernel for `age` with an optional half-life.
pub open spec fn decay_kernel(age: u64, half_life: Option<u64>) -> TemporalKernel {
    let h = match half_life {
        Some(h) => h,
        None => DEFAULT_HALF_LIFE_SECONDS,
    };
    if h == 0 {
        TemporalKernel::Zero
    } else {
        TemporalKernel::Decay { age, half_life: h }
    }
}

/// The kernel of a record under the given mode and parameters: a missing
/// timestamp scores zero; `Buckets` without bounds decays exponentially.
pub open spec fn kernel_spec(
    mode: TemporalMode,
    half_life: Option<u64>,
    window: Option<u64>,
    bucket_bounds: Option<Seq<u64>>,
    timestamp: Option<u64>,
    now: u64,
) -> TemporalKernel {
    match timestamp {
        None => TemporalKernel::Zero,
        Some(ts) => {
            let age = age_of(now, ts);
            let w = match window {
                Some(w) => w,
                None => DEFAULT_HALF_LIFE_SECONDS,
            };
            match mode {
                TemporalMode::Exponential => decay_kernel(age, half_life),
                TemporalMode::LinearWindow => if w == 0 {
                    TemporalKernel::Zero
                } else {
                    TemporalKernel::Linear {
                        remaining: (w - if age <= w {
                            age
                        } else {
                            w
                        }) as u64,
                        window: w,
                    }
                },
                TemporalMode::Step => if age <= w {
                    TemporalKernel::StepBoost
                } else {
                    TemporalKernel::Zero
                },
                TemporalMode::Buckets => match bucket_bounds {
                    None => decay_kernel(age, half_life),
                    Some(b) => match first_bucket(b, age) {
                        Some(i) => TemporalKernel::Bucket(i as usize),
                        None => TemporalKernel::Zero,
                    },
                },
            }
        },
    }
}

/// The recency kernel of a record stamped `timestamp`, seen at `now`.
pub fn temporal_kernel(
    mode: TemporalMode,
    half_life: Option<u64>,
    window: Option<u64>,
    bucket_bounds: Option<&Vec<u64>>,
    timestamp: Option<u64>,
    now: u64,
) -> (r: TemporalKernel)
    ensures
        r == kernel_spec(
            mode,
            half_life,
            window,
            match bucket_bounds {
                Some(b) => Some(b@),
                None => None,
            },
            timestamp,
            now,
        ),
{
    let ts = match timestamp {
        None => return TemporalKernel::Zero,
        Some(t) => t,
    };
    let age = now.saturating_sub(ts);
    let w = match window {
        Some(w) => w,
        None => DEFAULT_HALF_LIFE_SECONDS,
    };
    let h = match half_life {
        Some(h) => h,
        None => DEFAULT_HALF_LIFE_SECONDS,
    };
    let decay = if h == 0 {
        TemporalKernel::Zero
    } else {
        TemporalKernel::Decay { age, half_life: h }
    };
    match mode {
        TemporalMode::Exponential => decay,
        TemporalMode::LinearWindow => {
            if w == 0 {
                TemporalKernel::Zero
            } else {
                let capped = if age <= w { age } else { w };
                TemporalKernel::Linear { remaining: w - capped, window: w }
            }
        },
        TemporalMode::Step => {
            if age <= w {
                TemporalKernel::StepBoost
            } else {
                TemporalKernel::Zero
            }
        },
        TemporalMode::Buckets => match bucket_bounds {
            None => decay,
            Some(b) => {
                let mut i: usize = 0;
                assert(b@.subrange(0, b@.len() as int) =~= b@);
                while i < b.len()
                    invariant
                        i <= b.len(),
                        age == age_of(now, ts),
                        timestamp == Some(ts),
                        mode == TemporalMode::Buckets,
                        bucket_bounds == Some(b),
                        first_bucket(b@, age) == match first_bucket(b@.subrange(i as int, b@.len() as int), age) {
                            Some(j) => Some(j + i),
                            None => None,
                        },
                    decreases b.len() - i,
                {
                    let ghost rest = b@.subrange(i as int, b@.len() as int);
                    assert(rest.drop_first() =~= b@.subrange(i + 1, b@.len() as int));
                    if age <= b[i] {
                        assert(rest[0] == b@[i as int]);
                        assert(first_bucket(rest, age) == Some(0int));
                        assert(first_bucket(b@, age) == Some(i as int));
                        return TemporalKernel::Bucket(i);
                    }
                    i = i + 1;
                }
                TemporalKernel::Zero
            },
        },
    }
}

/// Whether a note with these source timestamps overlaps `[start, end]`: it is
/// left out when it has no timestamp, when its newest is before `start`, or
/// when its oldest is after `end`.
pub open spec fn in_time_window(ts: Seq<u64>, start: Option<u64>, end: Option<u64>) -> bool {
    ts.len() > 0 && (match start {
        Some(s) => exists|i: int| 0 <= i < ts.len() && ts[i] >= s,
        None => true,
    }) && (match end {
        Some(e) => exists|i: int| 0 <= i < ts.len() && ts[i] <= e,
        None => true,
    })
}

/// Whether a note with source timestamps `ts` is kept by the time filter.
pub fn note_in_time_window(ts: &Vec<u64>, start: Option<u64>, end: Option<u64>) -> (r: bool)
    ensures
        r == in_time_window(ts@, start, end),
{
    if ts.len() == 0 {
        return false;
    }
    let mut newest: u64 = ts[0];
    let mut oldest: u64 = ts[0];
    let mut i: usize = 1;
    while i < ts.len()
        invariant
            1 <= i <= ts.len(),
            exists|j: int| 0 <= j < i && ts@[j] == newest,
            exists|j: int| 0 <= j < i && ts@[j] == oldest,
            forall|j: int| 0 <= j < i ==> ts@[j] <= newest,
            forall|j: int| 0 <= j < i ==> ts@[j] >= oldest,
        decreases ts.len() - i,
    {
        if ts[i] > newest {
            newest = ts[i];
        }
        if ts[i] < oldest {
            oldest = ts[i];
        }
        i = i + 1;
    }
    let after_start = match start {
        Some(s) => newest >= s,
        None => true,
    };
    let before_end = match end {
        Some(e) => oldest <= e,
        None => true,
    };
    after_start && before_end
}

/// The start of a look-back window of `window_seconds` ending at `now`
/// (zero when the window reaches past the epoch).
pub fn window_start(now: u64, window_seconds: u64) -> (r: u64)
    ensures
        r == if now >= window_seconds { (now - window_seconds) as u64 } else { 0 },
{
    now.saturating_sub(window_seconds)
}

impl TemporalMode {
    /// The mode a name selects, in any letter case: `linear` or
    /// `linearwindow`, `step`, `buckets`; any other name selects
    /// `Exponential`.
    pub fn from_name(name: &str) -> (r: TemporalMode)
        ensures
            r == if lower_of(name@) == "linear"@ || lower_of(name@) == "linearwindow"@ {
                TemporalMode::LinearWindow
            } else if lower_of(name@) == "step"@ {
                TemporalMode::Step
            } else if lower_of(name@) == "buckets"@ {
                TemporalMode::Buckets
            } else {
                TemporalMode::Exponential
            },
    {
        let lower = chars_of(lowercase(name).as_str());
        if chars_equal(&lower, "linear") || chars_equal(&lower, "linearwindow") {
            TemporalMode::LinearWindow
        } else if chars_equal(&lower, "step") {
            TemporalMode::Step
        } else if chars_equal(&lower, "buckets") {
            TemporalMode::Buckets
        } else {
            TemporalMode::Exponential
        }
    }
}

} // verus!
