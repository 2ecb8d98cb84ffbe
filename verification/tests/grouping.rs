use chrono::{Datelike, Local, TimeZone};
use log_rotation::calendar::CalendarDay;
use log_rotation::catalog::FileRecord;
use log_rotation::grouping::{attach_days, date_files, group_by_day, DatedFile, DayGroup};
use log_rotation::instant::Timestamp;

fn day(year: i32, month: u32, day: u32) -> CalendarDay {
    CalendarDay { year, month, day }
}

fn dated(name: &str, secs: i64, on: CalendarDay) -> DatedFile {
    DatedFile {
        record: FileRecord { name: name.to_string(), mod_time: Timestamp::new(secs, 0) },
        day: on,
    }
}

#[test]
fn no_files_give_no_group() {
    assert_eq!(group_by_day(Vec::new()), Vec::new());
}

#[test]
fn one_file_gives_one_group() {
    let only = dated("a", 1, day(2024, 1, 5));
    assert_eq!(
        group_by_day(vec![only.clone()]),
        vec![DayGroup { day: day(2024, 1, 5), members: vec![only] }]
    );
}

#[test]
fn files_of_one_day_stay_together() {
    let a = dated("a", 1, day(2024, 1, 5));
    let b = dated("b", 2, day(2024, 1, 5));
    let c = dated("c", 3, day(2024, 1, 5));
    assert_eq!(
        group_by_day(vec![a.clone(), b.clone(), c.clone()]),
        vec![DayGroup { day: day(2024, 1, 5), members: vec![a, b, c] }]
    );
}

#[test]
fn a_new_day_starts_a_new_group() {
    let a = dated("a", 1, day(2024, 1, 5));
    let b = dated("b", 2, day(2024, 1, 5));
    let c = dated("c", 3, day(2024, 1, 6));
    let d = dated("d", 4, day(2024, 2, 6));
    let e = dated("e", 5, day(2024, 2, 6));
    let f = dated("f", 6, day(2025, 2, 6));
    assert_eq!(
        group_by_day(vec![a.clone(), b.clone(), c.clone(), d.clone(), e.clone(), f.clone()]),
        vec![
            DayGroup { day: day(2024, 1, 5), members: vec![a, b] },
            DayGroup { day: day(2024, 1, 6), members: vec![c] },
            DayGroup { day: day(2024, 2, 6), members: vec![d, e] },
            DayGroup { day: day(2025, 2, 6), members: vec![f] },
        ]
    );
}

#[test]
fn the_last_group_is_closed_too() {
    let a = dated("a", 1, day(2024, 1, 5));
    let b = dated("b", 2, day(2024, 1, 6));
    let groups = group_by_day(vec![a, b.clone()]);
    assert_eq!(groups.len(), 2);
    assert_eq!(groups[1], DayGroup { day: day(2024, 1, 6), members: vec![b] });
}

#[test]
fn a_day_that_comes_back_starts_a_group_of_its_own() {
    let a = dated("a", 1, day(2024, 1, 5));
    let b = dated("b", 2, day(2024, 1, 6));
    let c = dated("c", 3, day(2024, 1, 5));
    let groups = group_by_day(vec![a.clone(), b.clone(), c.clone()]);
    assert_eq!(
        groups,
        vec![
            DayGroup { day: day(2024, 1, 5), members: vec![a] },
            DayGroup { day: day(2024, 1, 6), members: vec![b] },
            DayGroup { day: day(2024, 1, 5), members: vec![c] },
        ]
    );
}

#[test]
fn the_groups_hold_as_many_files_as_came() {
    let mut files = Vec::new();
    for i in 0..50u32 {
        files.push(dated(&format!("f{}", i), i as i64, day(2024, 1, 1 + i / 7)));
    }
    let groups = group_by_day(files.clone());
    let mut flat = Vec::new();
    for g in &groups {
        assert!(!g.members.is_empty());
        for m in &g.members {
            assert_eq!(m.day, g.day);
            flat.push(m.clone());
        }
    }
    assert_eq!(flat, files);
    assert_eq!(groups.len(), 8);
}

#[test]
fn date_files_asks_the_time_zone_for_each_file() {
    let stamps = [0i64, 1_700_000_000, 1_704_067_199, 1_704_067_200];
    let mut files = Vec::new();
    for (i, secs) in stamps.iter().enumerate() {
        files.push(FileRecord { name: format!("f{}", i), mod_time: Timestamp::new(*secs, 9) });
    }
    let out = date_files(files.clone()).unwrap();
    assert_eq!(out.len(), files.len());
    for (i, d) in out.iter().enumerate() {
        let local = Local.timestamp_opt(stamps[i], 9).single().unwrap();
        assert_eq!(d.record, files[i]);
        assert_eq!(d.day, day(local.year(), local.month(), local.day()));
    }
}

#[test]
fn date_files_of_nothing_is_nothing() {
    assert_eq!(date_files(Vec::new()), Some(Vec::new()));
}

#[test]
fn date_files_gives_up_on_a_file_outside_the_calendar() {
    let files = vec![
        FileRecord { name: "ok".to_string(), mod_time: Timestamp::new(1_700_000_000, 0) },
        FileRecord { name: "far".to_string(), mod_time: Timestamp::new(i64::MAX, 0) },
    ];
    assert_eq!(date_files(files), None);
}

#[test]
fn attach_days_gives_each_file_its_own_day() {
    let files = vec![
        FileRecord { name: "a".to_string(), mod_time: Timestamp::new(1, 0) },
        FileRecord { name: "b".to_string(), mod_time: Timestamp::new(2, 0) },
        FileRecord { name: "c".to_string(), mod_time: Timestamp::new(3, 0) },
    ];
    let days = vec![Some(day(2024, 1, 5)), Some(day(2024, 1, 6)), Some(day(2024, 1, 5))];
    assert_eq!(
        attach_days(files.clone(), days),
        Some(vec![
            DatedFile { record: files[0].clone(), day: day(2024, 1, 5) },
            DatedFile { record: files[1].clone(), day: day(2024, 1, 6) },
            DatedFile { record: files[2].clone(), day: day(2024, 1, 5) },
        ])
    );
}

#[test]
fn attach_days_wants_a_day_for_every_file() {
    let files = vec![
        FileRecord { name: "a".to_string(), mod_time: Timestamp::new(1, 0) },
        FileRecord { name: "b".to_string(), mod_time: Timestamp::new(2, 0) },
    ];
    assert_eq!(attach_days(files.clone(), vec![Some(day(2024, 1, 5)), None]), None);
    assert_eq!(attach_days(files.clone(), vec![None, Some(day(2024, 1, 5))]), None);
    assert_eq!(attach_days(files.clone(), vec![Some(day(2024, 1, 5))]), None);
    assert_eq!(
        attach_days(files, vec![Some(day(2024, 1, 5)), Some(day(2024, 1, 5)), Some(day(2024, 1, 5))]),
        None
    );
    assert_eq!(attach_days(Vec::new(), Vec::new()), Some(Vec::new()));
    assert_eq!(attach_days(Vec::new(), vec![None]), None);
}

#[test]
fn date_files_gives_each_file_a_day_next_to_its_own_time() {
    let mut files = Vec::new();
    for i in 0..40i64 {
        files.push(FileRecord {
            name: format!("f{}", i),
            mod_time: Timestamp::new(1_700_000_000 + i * 40_000, 0),
        });
    }
    let dated = date_files(files.clone()).unwrap();
    for (i, d) in dated.iter().enumerate() {
        assert_eq!(d.record, files[i]);
        let number = d.day.day_number().unwrap();
        let utc = files[i].mod_time.secs.div_euclid(86_400);
        assert!(number - utc >= -1 && number - utc <= 1);
        assert!(d.day.fits_instant(&files[i].mod_time));
    }
}
