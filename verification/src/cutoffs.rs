//! The two instants that bound the age bands of one run.

use crate::calendar::{can_be_midnight_of, normalize_date};
use crate::instant::Timestamp;
use vstd::prelude::*;

verus! {

/// The boundaries of one run: files modified before `delete_from` are expired,
/// files from `delete_from` up to but excluding `archive_from` are archivable,
/// files from `archive_from` on are fresh.
#[derive(Clone, Copy, Debug, PartialEq, Eq, Structural)]
pub struct Cutoffs {
    pub archive_from: Timestamp,
    pub delete_from: Timestamp,
}

/// Why no boundaries could be had from a configuration.
#[derive(Clone, Copy, Debug, PartialEq, Eq, Structural)]
pub enum ConfigError {
    /// Files would be deleted at a younger age than they would be archived.
    DeleteBeforeArchive,
    /// A boundary lies outside the instants that 64-bit seconds can hold.
    OutOfRange,
    /// The time zone has no single midnight for the day of a boundary, or gave
    /// one that lies after the boundary or three days or more before it.
    NoLocalMidnight,
    /// The midnights came out with the delete boundary after the archive
    /// boundary.
    Inverted,
}

impl Cutoffs {
    /// The delete boundary is not later than the archive boundary.
    pub open spec fn wf(self) -> bool {
        self.delete_from.at_or_before(self.archive_from)
    }

    /// The pair of boundaries, if the delete boundary is not later than the
    /// archive boundary.
    pub fn new(archive_from: Timestamp, delete_from: Timestamp) -> (r: Option<Cutoffs>)
        ensures
            r == (if delete_from.at_or_before(archive_from) {
                Some(Cutoffs { archive_from, delete_from })
            } else {
                None
            }),
    {
        if archive_from.is_before(&delete_from) {
            None
        } else {
            Some(Cutoffs { archive_from, delete_from })
        }
    }
}

/// The instants `archive_days - 1` and `delete_days` days before `now`, in
/// that order, where both fit 64-bit seconds.
///
/// The archive boundary is taken one day short: the band below it is open at
/// the top, so a file modified on the day exactly `archive_days` days ago is
/// still below the midnight that follows that day.
pub open spec fn raw_cutoffs(now: Timestamp, archive_days: int, delete_days: int) -> Result<
    (Timestamp, Timestamp),
    ConfigError,
> {
    let archive_secs = now.seconds_back(archive_days - 1);
    let delete_secs = now.seconds_back(delete_days);
    if delete_days < archive_days {
        Err(ConfigError::DeleteBeforeArchive)
    } else if !(i64::MIN <= archive_secs <= i64::MAX && i64::MIN <= delete_secs <= i64::MAX) {
        Err(ConfigError::OutOfRange)
    } else {
        Ok(
            (
                Timestamp { secs: archive_secs as i64, nanos: now.nanos },
                Timestamp { secs: delete_secs as i64, nanos: now.nanos },
            ),
        )
    }
}

/// The boundaries that two local midnights give, or the reason why they give
/// none.
pub open spec fn settled_cutoffs(
    archive_midnight: Option<Timestamp>,
    delete_midnight: Option<Timestamp>,
) -> Result<Cutoffs, ConfigError> {
    match (archive_midnight, delete_midnight) {
        (Some(archive_from), Some(delete_from)) => if delete_from.at_or_before(archive_from) {
            Ok(Cutoffs { archive_from, delete_from })
        } else {
            Err(ConfigError::Inverted)
        },
        _ => Err(ConfigError::NoLocalMidnight),
    }
}

/// Checks the configuration and computes the two boundaries before they are
/// moved to midnight.
pub fn unnormalized_cutoffs(now: &Timestamp, archive_days: usize, delete_days: usize) -> (r: Result<
    (Timestamp, Timestamp),
    ConfigError,
>)
    ensures
        r == raw_cutoffs(*now, archive_days as int, delete_days as int),
{
    if delete_days < archive_days {
        return Err(ConfigError::DeleteBeforeArchive);
    }
    if delete_days as u64 > i64::MAX as u64 {
        // Then the delete boundary is more than 2^63 days away.
        return Err(ConfigError::OutOfRange);
    }
    let archive_shift: i64 = archive_days as i64 - 1;
    let delete_shift: i64 = delete_days as i64;
    match (now.shifted_back(archive_shift), now.shifted_back(delete_shift)) {
        (Some(archive_raw), Some(delete_raw)) => Ok((archive_raw, delete_raw)),
        _ => Err(ConfigError::OutOfRange),
    }
}

/// Makes the boundaries of the run from the two midnights that the time zone
/// gave.
pub fn settle_cutoffs(archive_midnight: Option<Timestamp>, delete_midnight: Option<Timestamp>) -> (r:
    Result<Cutoffs, ConfigError>)
    ensures
        r == settled_cutoffs(archive_midnight, delete_midnight),
{
    match (archive_midnight, delete_midnight) {
        (Some(archive_from), Some(delete_from)) => match Cutoffs::new(archive_from, delete_from) {
            Some(cutoffs) => Ok(cutoffs),
            None => Err(ConfigError::Inverted),
        },
        _ => Err(ConfigError::NoLocalMidnight),
    }
}

/// The boundaries of a run that starts at `now`: the local midnights of the
/// days `archive_days - 1` and `delete_days` days ago.
///
/// A configuration that deletes younger files than it archives is refused,
/// whatever the clock says. Where the boundaries fit 64-bit seconds, the time
/// zone decides whether each has a midnight. Boundaries that come back are
/// ordered, fall on a whole second, and are not later than the instants they
/// were made of, nor three days or more earlier. So no file younger than
/// `delete_days` days is ever expired and none younger than `archive_days - 1`
/// days is archivable, while every file older than `delete_days + 3` days is
/// expired and every file older than `archive_days + 2` days is expired or
/// archivable.
pub fn compute_cutoffs(now: &Timestamp, archive_days: usize, delete_days: usize) -> (r: Result<
    Cutoffs,
    ConfigError,
>)
    ensures
        raw_cutoffs(*now, archive_days as int, delete_days as int) matches Err(e) ==> r == Err::<
            Cutoffs,
            ConfigError,
        >(e),
        raw_cutoffs(*now, archive_days as int, delete_days as int) is Ok ==> (r matches Err(e)
            ==> e == ConfigError::NoLocalMidnight || e == ConfigError::Inverted),
        r matches Ok(cutoffs) ==> {
            &&& cutoffs.wf()
            &&& cutoffs.archive_from.nanos == 0
            &&& cutoffs.delete_from.nanos == 0
            &&& raw_cutoffs(*now, archive_days as int, delete_days as int) matches Ok(raw)
            &&& can_be_midnight_of(cutoffs.archive_from, raw.0)
            &&& can_be_midnight_of(cutoffs.delete_from, raw.1)
        },
{
    let (archive_raw, delete_raw) = match unnormalized_cutoffs(now, archive_days, delete_days) {
        Ok(pair) => pair,
        Err(e) => {
            return Err(e);
        },
    };
    let archive_midnight = normalize_date(&archive_raw);
    let delete_midnight = normalize_date(&delete_raw);
    settle_cutoffs(archive_midnight, delete_midnight)
}

} // verus!
