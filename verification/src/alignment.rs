use crate::time::{Time, MINUTES_PER_TIMESTEP};
use vstd::prelude::*;

verus! {

/// Nanoseconds in a minute.
pub const NANOS_PER_MINUTE: i64 = 60_000_000_000;

/// Nanoseconds in a timestep.
pub const NANOS_PER_TIMESTEP: i64 = 60_000_000_000;

/// A point in time as the alignment reads it: nanoseconds since the epoch,
/// and minute, second and nanosecond on the clock.
#[derive(Clone, Copy, Debug, PartialEq, Eq, Structural)]
pub struct Stamp {
    pub nanos: i64,
    pub minute: u32,
    pub second: u32,
    pub subsec_nanos: u32,
}

/// Why a point in time or a duration has no place on the grid of timesteps.
#[derive(Clone, Copy, Debug, PartialEq, Eq, Structural)]
pub enum AlignError {
    /// The point lies before the start of the horizon.
    BeforeStart,
    /// The point does not lie on the boundary of a timestep.
    OffBoundary,
    /// The duration is a day or longer.
    DayOrLonger,
    /// The duration is negative or no whole number of timesteps.
    BrokenDuration,
}

/// The remainder of `a` by `b` that has the sign of `a`.
pub open spec fn rem_toward_zero(a: int, b: int) -> int {
    if a >= 0 {
        a % b
    } else {
        -((-a) % b)
    }
}

/// The point `minutes` after `start`, moved back to the boundary of a
/// timestep as counted from the epoch, but not before `start`.
pub open spec fn aligned_nanos(minutes: int, start: int) -> int {
    let target = start + minutes * NANOS_PER_MINUTE;
    let rounded = target - rem_toward_zero(target, NANOS_PER_TIMESTEP as int);
    if rounded >= start {
        rounded
    } else {
        start
    }
}

/// The point in time at which the timestep of `time` begins, for a horizon
/// that starts at `start_nanos`: `time` after the start, moved back to the
/// boundary of a timestep and never before the start. `None` when the point
/// lies beyond what 64 bits of nanoseconds can say.
pub fn time_to_nanos(time: Time, start_nanos: i64) -> (r: Option<i64>)
    ensures
        r is Some <==> start_nanos + time.minutes * NANOS_PER_MINUTE <= i64::MAX,
        r matches Some(n) ==> n == aligned_nanos(time.minutes as int, start_nanos as int),
{
    let target: i128 = start_nanos as i128 + time.get_minutes() as i128 * NANOS_PER_MINUTE as i128;
    if target > i64::MAX as i128 {
        return None;
    }
    let rounded = target - target % (NANOS_PER_TIMESTEP as i128);
    if rounded >= start_nanos as i128 {
        Some(rounded as i64)
    } else {
        Some(start_nanos)
    }
}

/// Why `at` is no boundary of a timestep of the horizon that starts at
/// `start`, if it is none: it lies before the start; or it is not the start
/// and its minute is no multiple of the length of a timestep or its seconds
/// or nanoseconds are not zero.
pub open spec fn boundary_refusal(at: Stamp, start: Stamp) -> Option<AlignError> {
    if at.nanos < start.nanos {
        Some(AlignError::BeforeStart)
    } else if at.nanos == start.nanos {
        None
    } else if at.minute % MINUTES_PER_TIMESTEP != 0 || at.second != 0 || at.subsec_nanos != 0 {
        Some(AlignError::OffBoundary)
    } else {
        None
    }
}

/// Checks that `at` lies on the boundary of a timestep of the horizon that
/// starts at `start`.
pub fn check_on_timestep_boundary(at: &Stamp, start: &Stamp) -> (r: Result<(), AlignError>)
    ensures
        match r {
            Ok(_) => boundary_refusal(*at, *start) is None,
            Err(e) => boundary_refusal(*at, *start) == Some(e),
        },
{
    if at.nanos < start.nanos {
        return Err(AlignError::BeforeStart);
    }
    if at.nanos == start.nanos {
        return Ok(());
    }
    if at.minute % MINUTES_PER_TIMESTEP != 0 || at.second != 0 || at.subsec_nanos != 0 {
        return Err(AlignError::OffBoundary);
    }
    Ok(())
}

/// The last boundary of a timestep at or before `start`, going by the clock.
pub open spec fn base_nanos(start: Stamp) -> int {
    start.nanos - ((start.minute % MINUTES_PER_TIMESTEP) * 60 + start.second) * 1_000_000_000
        - start.subsec_nanos
}

/// Whole minutes from the last boundary at or before `start` to `at`.
pub open spec fn minutes_between(at: Stamp, start: Stamp) -> int {
    (at.nanos - base_nanos(start)) / (NANOS_PER_MINUTE as int)
}

/// The time of `at` in the horizon that starts at `start`: the start itself
/// is time zero; any other point counts its whole minutes from the last
/// boundary of a timestep at or before the start. A point before the start
/// has no time.
pub fn stamp_to_time(at: &Stamp, start: &Stamp) -> (r: Result<Time, AlignError>)
    requires
        start.second < 60,
        start.subsec_nanos < 2_000_000_000,
    ensures
        match r {
            Ok(t) => at.nanos >= start.nanos && t.minutes == if at.nanos == start.nanos {
                0
            } else {
                (minutes_between(*at, *start) / MINUTES_PER_TIMESTEP as int) * MINUTES_PER_TIMESTEP
            },
            Err(e) => at.nanos < start.nanos && e == AlignError::BeforeStart,
        },
{
    if at.nanos == start.nanos {
        return Ok(Time::from_timestep(0));
    }
    if at.nanos < start.nanos {
        return Err(AlignError::BeforeStart);
    }
    let back: i128 = ((start.minute % MINUTES_PER_TIMESTEP) as i128 * 60 + start.second as i128)
        * 1_000_000_000 + start.subsec_nanos as i128;
    let base: i128 = start.nanos as i128 - back;
    let total_minutes: i128 = (at.nanos as i128 - base) / (NANOS_PER_MINUTE as i128);
    let timesteps = total_minutes as u32 / MINUTES_PER_TIMESTEP;
    Ok(Time::from_timestep(timesteps))
}

/// Why a duration of `nanos` nanoseconds is no duration of a constant load,
/// if it is none: it is a day or longer, or it is negative or no whole
/// number of timesteps.
pub open spec fn duration_refusal(nanos: int) -> Option<AlignError> {
    if nanos >= 1440 * NANOS_PER_MINUTE || nanos <= -1440 * NANOS_PER_MINUTE {
        Some(AlignError::DayOrLonger)
    } else if nanos < 0 || (nanos / (NANOS_PER_MINUTE as int)) % (MINUTES_PER_TIMESTEP as int) != 0 {
        Some(AlignError::BrokenDuration)
    } else {
        None
    }
}

/// The duration of `nanos` nanoseconds as a time: its whole minutes.
pub fn duration_to_time(nanos: i64) -> (r: Result<Time, AlignError>)
    ensures
        match r {
            Ok(t) => duration_refusal(nanos as int) is None && t.minutes == nanos as int / (
            NANOS_PER_MINUTE as int),
            Err(e) => duration_refusal(nanos as int) == Some(e),
        },
{
    if nanos >= 1440 * NANOS_PER_MINUTE || nanos <= -1440 * NANOS_PER_MINUTE {
        return Err(AlignError::DayOrLonger);
    }
    if nanos < 0 {
        return Err(AlignError::BrokenDuration);
    }
    let minutes = (nanos / NANOS_PER_MINUTE) as u32;
    if minutes % MINUTES_PER_TIMESTEP != 0 {
        return Err(AlignError::BrokenDuration);
    }
    Ok(Time::new(0, minutes))
}

} // verus!
