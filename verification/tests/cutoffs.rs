use chrono::{Local, TimeZone};
use log_rotation::calendar::normalize_date;
use log_rotation::cutoffs::{
    compute_cutoffs, settle_cutoffs, unnormalized_cutoffs, ConfigError, Cutoffs,
};
use log_rotation::instant::Timestamp;

#[test]
fn cutoffs_new_wants_the_delete_boundary_first() {
    let early = Timestamp::new(100, 0);
    let late = Timestamp::new(200, 0);
    assert_eq!(Cutoffs::new(late, early), Some(Cutoffs { archive_from: late, delete_from: early }));
    assert_eq!(Cutoffs::new(late, late), Some(Cutoffs { archive_from: late, delete_from: late }));
    assert_eq!(Cutoffs::new(early, late), None);
    assert_eq!(Cutoffs::new(Timestamp::new(5, 1), Timestamp::new(5, 2)), None);
}

#[test]
fn deleting_younger_files_than_are_archived_is_refused() {
    let now = Timestamp::new(1_700_000_000, 0);
    assert_eq!(unnormalized_cutoffs(&now, 10, 5), Err(ConfigError::DeleteBeforeArchive));
    assert_eq!(compute_cutoffs(&now, 10, 5), Err(ConfigError::DeleteBeforeArchive));
    assert_eq!(compute_cutoffs(&now, 1, 0), Err(ConfigError::DeleteBeforeArchive));
}

#[test]
fn a_bad_configuration_is_refused_whatever_the_clock_says() {
    let far = Timestamp::new(i64::MAX, 0);
    assert_eq!(compute_cutoffs(&far, 10, 5), Err(ConfigError::DeleteBeforeArchive));
}

#[test]
fn the_archive_boundary_is_taken_one_day_short() {
    let now = Timestamp::new(1_700_000_000, 42);
    assert_eq!(
        unnormalized_cutoffs(&now, 7, 14),
        Ok((
            Timestamp::new(1_700_000_000 - 6 * 86_400, 42),
            Timestamp::new(1_700_000_000 - 14 * 86_400, 42)
        ))
    );
    assert_eq!(
        unnormalized_cutoffs(&now, 7, 14),
        Ok((Timestamp::new(1_699_481_600, 42), Timestamp::new(1_698_790_400, 42)))
    );
}

#[test]
fn equal_ages_are_accepted() {
    let now = Timestamp::new(1_000_000, 0);
    assert_eq!(
        unnormalized_cutoffs(&now, 3, 3),
        Ok((Timestamp::new(1_000_000 - 2 * 86_400, 0), Timestamp::new(1_000_000 - 3 * 86_400, 0)))
    );
}

#[test]
fn archiving_at_zero_days_looks_one_day_ahead() {
    let now = Timestamp::new(1_000_000, 0);
    assert_eq!(
        unnormalized_cutoffs(&now, 0, 0),
        Ok((Timestamp::new(1_000_000 + 86_400, 0), Timestamp::new(1_000_000, 0)))
    );
}

#[test]
fn boundaries_beyond_the_seconds_are_out_of_range() {
    let now = Timestamp::new(i64::MIN + 10, 0);
    assert_eq!(unnormalized_cutoffs(&now, 1, 1), Err(ConfigError::OutOfRange));
    assert_eq!(compute_cutoffs(&now, 1, 1), Err(ConfigError::OutOfRange));
    let now = Timestamp::new(0, 0);
    assert_eq!(unnormalized_cutoffs(&now, 1, usize::MAX), Err(ConfigError::OutOfRange));
    let late = Timestamp::new(i64::MAX, 0);
    assert_eq!(unnormalized_cutoffs(&late, 0, 0), Err(ConfigError::OutOfRange));
}

#[test]
fn settle_cutoffs_needs_both_midnights_in_order() {
    let early = Timestamp::new(100, 0);
    let late = Timestamp::new(200, 0);
    assert_eq!(
        settle_cutoffs(Some(late), Some(early)),
        Ok(Cutoffs { archive_from: late, delete_from: early })
    );
    assert_eq!(settle_cutoffs(Some(early), Some(late)), Err(ConfigError::Inverted));
    assert_eq!(settle_cutoffs(None, Some(early)), Err(ConfigError::NoLocalMidnight));
    assert_eq!(settle_cutoffs(Some(late), None), Err(ConfigError::NoLocalMidnight));
    assert_eq!(settle_cutoffs(None, None), Err(ConfigError::NoLocalMidnight));
}

#[test]
fn compute_cutoffs_gives_the_local_midnights() {
    let noon = Local.with_ymd_and_hms(2024, 1, 20, 12, 0, 0).single().unwrap();
    let now = Timestamp::new(noon.timestamp(), 77);
    let cutoffs = compute_cutoffs(&now, 7, 14).unwrap();
    let archive_midnight = Local.with_ymd_and_hms(2024, 1, 14, 0, 0, 0).single().unwrap();
    let delete_midnight = Local.with_ymd_and_hms(2024, 1, 6, 0, 0, 0).single().unwrap();
    assert_eq!(cutoffs.archive_from, Timestamp::new(archive_midnight.timestamp(), 0));
    assert_eq!(cutoffs.delete_from, Timestamp::new(delete_midnight.timestamp(), 0));
}

#[test]
fn compute_cutoffs_normalizes_what_unnormalized_cutoffs_gives() {
    let now = Timestamp::new(1_705_752_000, 1);
    let (archive_raw, delete_raw) = unnormalized_cutoffs(&now, 2, 30).unwrap();
    let cutoffs = compute_cutoffs(&now, 2, 30).unwrap();
    assert_eq!(Some(cutoffs.archive_from), normalize_date(&archive_raw));
    assert_eq!(Some(cutoffs.delete_from), normalize_date(&delete_raw));
    assert!(!cutoffs.archive_from.is_before(&cutoffs.delete_from));
}

#[test]
fn compute_cutoffs_reports_a_missing_midnight() {
    // The seconds fit, but the calendar does not reach that far.
    let now = Timestamp::new(i64::MAX - 10 * 86_400, 0);
    assert_eq!(compute_cutoffs(&now, 1, 2), Err(ConfigError::NoLocalMidnight));
}

#[test]
fn the_boundaries_are_not_later_than_the_ages_ask() {
    for secs in [1_705_752_000i64, 1_700_000_000, 1_719_792_000, 86_400 * 365] {
        let now = Timestamp::new(secs, 3);
        let (archive_raw, delete_raw) = unnormalized_cutoffs(&now, 7, 14).unwrap();
        let cutoffs = compute_cutoffs(&now, 7, 14).unwrap();
        assert!(!archive_raw.is_before(&cutoffs.archive_from));
        assert!(!delete_raw.is_before(&cutoffs.delete_from));
        assert!(!cutoffs.archive_from.is_before(&cutoffs.delete_from));
        assert_eq!(cutoffs.archive_from.nanos, 0);
        assert_eq!(cutoffs.delete_from.nanos, 0);
    }
}
