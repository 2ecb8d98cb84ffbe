use chrono::{Local, TimeZone};
use log_rotation::calendar::CalendarDay;
use log_rotation::catalog::FileRecord;
use log_rotation::cutoffs::{compute_cutoffs, Cutoffs};
use log_rotation::grouping::{DatedFile, DayGroup};
use log_rotation::instant::Timestamp;
use log_rotation::plan::{
    archive_files, archived_count, days_are_distinct, finish_plan, is_name_taken, plan_bundles,
    process_dir, BundlePlan, DirectoryPlan, PlanError,
};

/// The instant at the given local time of a day in January 2024.
fn january(day: u32, hour: u32, minute: u32) -> Timestamp {
    let local = Local.with_ymd_and_hms(2024, 1, day, hour, minute, 0).single().unwrap();
    Timestamp::new(local.timestamp(), 0)
}

fn file(name: &str, at: Timestamp) -> FileRecord {
    FileRecord { name: name.to_string(), mod_time: at }
}

fn on(day: u32) -> CalendarDay {
    CalendarDay { year: 2024, month: 1, day }
}

fn names(files: &Vec<FileRecord>) -> Vec<String> {
    let mut out = Vec::new();
    for f in files {
        out.push(f.name.clone());
    }
    out
}

fn member_names(bundle: &BundlePlan) -> Vec<String> {
    let mut out = Vec::new();
    for m in &bundle.group.members {
        out.push(m.record.name.clone());
    }
    out
}

fn group(day: CalendarDay, members: &[&str]) -> DayGroup {
    let mut out = Vec::new();
    for (i, name) in members.iter().enumerate() {
        out.push(DatedFile { record: file(name, Timestamp::new(i as i64, 0)), day });
    }
    DayGroup { day, members: out }
}

/// Delete what is older than the 6th, archive what is older than the 14th.
fn mid_january() -> Cutoffs {
    Cutoffs { archive_from: january(14, 0, 0), delete_from: january(6, 0, 0) }
}

#[test]
fn a_directory_is_parted_into_three_bands() {
    let entries = vec![
        file("fresh.log", january(15, 8, 0)),
        file("old-b.log", january(10, 23, 59)),
        file("gone.log", january(5, 23, 59)),
        file("old-a.log", january(10, 0, 0)),
        file("older.log", january(6, 0, 0)),
        file("edge.log", january(14, 0, 0)),
        file("last.log", january(13, 23, 59)),
    ];
    let plan = process_dir("logs", entries, &mid_january()).unwrap();
    assert_eq!(names(&plan.expired), vec!["gone.log"]);
    assert_eq!(names(&plan.fresh), vec!["edge.log", "fresh.log"]);
    assert_eq!(plan.bundles.len(), 3);
    assert_eq!(plan.bundles[0].file_name, "logs_06-01-2024.zip");
    assert_eq!(plan.bundles[0].group.day, on(6));
    assert_eq!(member_names(&plan.bundles[0]), vec!["older.log"]);
    assert_eq!(plan.bundles[1].file_name, "logs_10-01-2024.zip");
    assert_eq!(plan.bundles[1].group.day, on(10));
    assert_eq!(member_names(&plan.bundles[1]), vec!["old-a.log", "old-b.log"]);
    assert_eq!(plan.bundles[2].file_name, "logs_13-01-2024.zip");
    assert_eq!(member_names(&plan.bundles[2]), vec!["last.log"]);
    assert_eq!(archived_count(&plan.bundles), Some(4));
}

#[test]
fn files_ten_five_and_one_days_old_under_archive_seven_delete_fourteen() {
    let now = january(20, 12, 0);
    let cutoffs = compute_cutoffs(&now, 7, 14).unwrap();
    let entries = vec![
        file("one.log", january(19, 12, 0)),
        file("five.log", january(15, 12, 0)),
        file("ten.log", january(10, 12, 0)),
    ];
    let plan = process_dir("logs", entries, &cutoffs).unwrap();
    assert!(plan.expired.is_empty());
    assert_eq!(plan.bundles.len(), 1);
    assert_eq!(plan.bundles[0].file_name, "logs_10-01-2024.zip");
    assert_eq!(member_names(&plan.bundles[0]), vec!["ten.log"]);
    assert_eq!(names(&plan.fresh), vec!["five.log", "one.log"]);
}

#[test]
fn a_file_modified_exactly_archive_days_ago_is_archived() {
    let now = january(20, 12, 0);
    let cutoffs = compute_cutoffs(&now, 7, 14).unwrap();
    let entries = vec![
        file("seven-late.log", january(13, 23, 59)),
        file("seven.log", january(13, 12, 0)),
        file("seven-early.log", january(13, 0, 0)),
        file("six.log", january(14, 0, 0)),
        file("six-noon.log", january(14, 12, 0)),
    ];
    let plan = process_dir("logs", entries, &cutoffs).unwrap();
    assert!(plan.expired.is_empty());
    assert_eq!(plan.bundles.len(), 1);
    assert_eq!(plan.bundles[0].file_name, "logs_13-01-2024.zip");
    assert_eq!(
        member_names(&plan.bundles[0]),
        vec!["seven-early.log", "seven.log", "seven-late.log"]
    );
    assert_eq!(names(&plan.fresh), vec!["six.log", "six-noon.log"]);
}

#[test]
fn a_file_modified_exactly_delete_days_ago_is_archived_and_the_day_before_is_deleted() {
    let now = january(20, 12, 0);
    let cutoffs = compute_cutoffs(&now, 7, 14).unwrap();
    let entries = vec![
        file("fourteen.log", january(6, 0, 0)),
        file("fifteen.log", january(5, 23, 59)),
    ];
    let plan = process_dir("logs", entries, &cutoffs).unwrap();
    assert_eq!(names(&plan.expired), vec!["fifteen.log"]);
    assert_eq!(plan.bundles.len(), 1);
    assert_eq!(plan.bundles[0].file_name, "logs_06-01-2024.zip");
    assert_eq!(member_names(&plan.bundles[0]), vec!["fourteen.log"]);
    assert!(plan.fresh.is_empty());
}

#[test]
fn an_empty_directory_has_an_empty_plan() {
    let plan = process_dir("logs", Vec::new(), &mid_january()).unwrap();
    assert_eq!(plan, DirectoryPlan { expired: Vec::new(), bundles: Vec::new(), fresh: Vec::new() });
    assert_eq!(archived_count(&plan.bundles), Some(0));
}

#[test]
fn a_directory_of_fresh_files_is_left_alone() {
    let entries = vec![file("b.log", january(20, 1, 0)), file("a.log", january(14, 0, 0))];
    let plan = process_dir("logs", entries, &mid_january()).unwrap();
    assert!(plan.expired.is_empty());
    assert!(plan.bundles.is_empty());
    assert_eq!(plan.fresh, vec![file("a.log", january(14, 0, 0)), file("b.log", january(20, 1, 0))]);
}

#[test]
fn a_directory_of_expired_files_is_emptied() {
    let entries = vec![file("b.log", january(2, 1, 0)), file("a.log", january(1, 0, 0))];
    let plan = process_dir("logs", entries, &mid_january()).unwrap();
    assert_eq!(names(&plan.expired), vec!["a.log", "b.log"]);
    assert!(plan.bundles.is_empty());
    assert!(plan.fresh.is_empty());
}

#[test]
fn a_single_expired_file_is_deleted() {
    let plan = process_dir("logs", vec![file("a.log", january(1, 0, 0))], &mid_january()).unwrap();
    assert_eq!(names(&plan.expired), vec!["a.log"]);
    assert!(plan.bundles.is_empty());
    assert!(plan.fresh.is_empty());
}

#[test]
fn the_same_day_in_two_directories_gives_two_bundles() {
    let first = process_dir("web", vec![file("a.log", january(10, 9, 0))], &mid_january()).unwrap();
    let second = process_dir("db", vec![file("b.log", january(10, 17, 0))], &mid_january()).unwrap();
    assert_eq!(first.bundles.len(), 1);
    assert_eq!(second.bundles.len(), 1);
    assert_eq!(first.bundles[0].file_name, "web_10-01-2024.zip");
    assert_eq!(second.bundles[0].file_name, "db_10-01-2024.zip");
    assert_eq!(member_names(&first.bundles[0]), vec!["a.log"]);
    assert_eq!(member_names(&second.bundles[0]), vec!["b.log"]);
}

#[test]
fn bundles_of_earlier_runs_are_no_part_of_the_plan() {
    let entries = vec![
        file("logs_01-01-2020.zip", Timestamp::new(0, 0)),
        file("logs_09-01-2024.zip", january(9, 12, 0)),
        file("logs_19-01-2024.zip", january(19, 12, 0)),
        file("a.log", january(10, 9, 0)),
    ];
    let plan = process_dir("logs", entries, &mid_january()).unwrap();
    assert!(plan.expired.is_empty());
    assert!(plan.fresh.is_empty());
    assert_eq!(plan.bundles.len(), 1);
    assert_eq!(member_names(&plan.bundles[0]), vec!["a.log"]);
}

#[test]
fn a_bundle_that_is_already_there_is_not_overwritten() {
    let entries = vec![
        file("logs_10-01-2024.zip", january(11, 3, 0)),
        file("a.log", january(10, 9, 0)),
    ];
    assert_eq!(process_dir("logs", entries, &mid_january()), Err(PlanError::BundleExists));
}

#[test]
fn a_bundle_of_another_directory_name_is_no_obstacle() {
    let entries = vec![
        file("other_10-01-2024.zip", january(11, 3, 0)),
        file("a.log", january(10, 9, 0)),
    ];
    let plan = process_dir("logs", entries, &mid_january()).unwrap();
    assert_eq!(plan.bundles[0].file_name, "logs_10-01-2024.zip");
}

#[test]
fn a_second_pass_finds_nothing_to_do() {
    let entries = vec![
        file("fresh.log", january(15, 8, 0)),
        file("old.log", january(10, 23, 59)),
        file("gone.log", january(5, 23, 59)),
    ];
    let first = process_dir("logs", entries, &mid_january()).unwrap();
    let mut left = first.fresh.clone();
    for bundle in &first.bundles {
        left.push(file(&bundle.file_name, january(20, 12, 0)));
    }
    let second = process_dir("logs", left, &mid_january()).unwrap();
    assert!(second.expired.is_empty());
    assert!(second.bundles.is_empty());
    assert_eq!(second.fresh, first.fresh);
}

#[test]
fn a_file_outside_the_calendar_stops_the_plan() {
    let cutoffs = Cutoffs {
        archive_from: Timestamp::new(i64::MAX, 0),
        delete_from: Timestamp::new(0, 0),
    };
    let entries = vec![file("far.log", Timestamp::new(i64::MAX - 1, 0))];
    assert_eq!(process_dir("logs", entries, &cutoffs), Err(PlanError::NoLocalDay));
}

#[test]
fn archive_files_of_nothing_plans_nothing() {
    assert_eq!(archive_files(Vec::new(), "logs"), Ok(Vec::new()));
}

#[test]
fn archive_files_plans_a_bundle_for_each_day() {
    let files = vec![
        file("a.log", january(10, 0, 0)),
        file("b.log", january(10, 23, 59)),
        file("c.log", january(11, 0, 0)),
    ];
    let bundles = archive_files(files.clone(), "srv").unwrap();
    assert_eq!(bundles.len(), 2);
    assert_eq!(bundles[0].file_name, "srv_10-01-2024.zip");
    assert_eq!(bundles[1].file_name, "srv_11-01-2024.zip");
    assert_eq!(bundles[0].group.members.len(), 2);
    assert_eq!(bundles[0].group.members[0], DatedFile { record: files[0].clone(), day: on(10) });
    assert_eq!(bundles[0].group.members[1], DatedFile { record: files[1].clone(), day: on(10) });
    assert_eq!(bundles[1].group.members, vec![DatedFile { record: files[2].clone(), day: on(11) }]);
    assert_eq!(archived_count(&bundles), Some(3));
}

#[test]
fn plan_bundles_names_each_group() {
    let groups = vec![group(on(3), &["a", "b"]), group(on(4), &["c"])];
    let bundles = plan_bundles(groups.clone(), "srv").unwrap();
    assert_eq!(
        bundles,
        vec![
            BundlePlan { file_name: "srv_03-01-2024.zip".to_string(), group: groups[0].clone() },
            BundlePlan { file_name: "srv_04-01-2024.zip".to_string(), group: groups[1].clone() },
        ]
    );
}

#[test]
fn plan_bundles_refuses_a_day_that_comes_twice() {
    let groups = vec![group(on(3), &["a"]), group(on(4), &["b"]), group(on(3), &["c"])];
    assert!(!days_are_distinct(&groups));
    assert_eq!(plan_bundles(groups, "srv"), Err(PlanError::DayRepeats));
}

#[test]
fn plan_bundles_refuses_a_day_that_the_calendar_lacks() {
    let missing = CalendarDay { year: 2023, month: 2, day: 30 };
    let groups = vec![group(on(3), &["a"]), group(missing, &["b"])];
    assert!(days_are_distinct(&groups));
    assert_eq!(plan_bundles(groups, "srv"), Err(PlanError::NoSuchDay));
}

#[test]
fn days_are_distinct_looks_at_every_pair() {
    assert!(days_are_distinct(&Vec::new()));
    assert!(days_are_distinct(&vec![group(on(1), &["a"])]));
    assert!(days_are_distinct(&vec![group(on(1), &["a"]), group(on(2), &["b"]), group(on(3), &["c"])]));
    assert!(!days_are_distinct(&vec![group(on(1), &["a"]), group(on(1), &["b"])]));
    assert!(!days_are_distinct(&vec![group(on(1), &["a"]), group(on(2), &["b"]), group(on(2), &["c"])]));
}

#[test]
fn is_name_taken_compares_whole_names() {
    let bundles = plan_bundles(vec![group(on(3), &["a"]), group(on(4), &["b"])], "srv").unwrap();
    let at = Timestamp::new(0, 0);
    assert!(!is_name_taken(&bundles, &Vec::new()));
    assert!(!is_name_taken(&bundles, &vec![file("srv_05-01-2024.zip", at)]));
    assert!(!is_name_taken(&bundles, &vec![file("srv_03-01-2024.zip ", at)]));
    assert!(is_name_taken(&bundles, &vec![file("x.zip", at), file("srv_04-01-2024.zip", at)]));
    assert!(is_name_taken(&bundles, &vec![file("srv_03-01-2024.zip", at)]));
    assert!(!is_name_taken(&Vec::new(), &vec![file("srv_03-01-2024.zip", at)]));
}

#[test]
fn archived_count_counts_files_not_bundles() {
    let bundles =
        plan_bundles(vec![group(on(3), &["a", "b", "c"]), group(on(4), &["d", "e"])], "srv").unwrap();
    assert_eq!(bundles.len(), 2);
    assert_eq!(archived_count(&bundles), Some(5));
    assert_eq!(archived_count(&Vec::new()), Some(0));
}

#[test]
fn a_large_directory_is_planned_whole() {
    let mut entries = Vec::new();
    let mut seed: u64 = 4242;
    for i in 0..60_000u32 {
        seed = seed.wrapping_mul(6364136223846793005).wrapping_add(1442695040888963407);
        let day = 1 + ((seed >> 40) % 20) as u32;
        let hour = ((seed >> 30) % 24) as u32;
        let minute = ((seed >> 20) % 60) as u32;
        entries.push(file(&format!("app-{}.log", i), january(day, hour, minute)));
    }
    let listed = entries.len();
    let plan = process_dir("logs", entries, &mid_january()).unwrap();
    let archived = archived_count(&plan.bundles).unwrap();
    assert_eq!(plan.expired.len() + archived + plan.fresh.len(), listed);
    assert_eq!(plan.bundles.len(), 8);
    for (i, bundle) in plan.bundles.iter().enumerate() {
        assert_eq!(bundle.group.day, on(6 + i as u32));
        assert_eq!(bundle.file_name, format!("logs_{:02}-01-2024.zip", 6 + i));
    }
    for f in &plan.expired {
        assert!(f.mod_time.is_before(&january(6, 0, 0)));
    }
    for f in &plan.fresh {
        assert!(!f.mod_time.is_before(&january(14, 0, 0)));
    }
}

#[test]
fn archive_files_sets_files_named_as_bundles_aside() {
    let files = vec![
        file("old.zip", january(10, 0, 0)),
        file("a.log", january(10, 1, 0)),
        file("srv_09-01-2024.zip", january(10, 2, 0)),
        file("b.log", january(11, 0, 0)),
        file("late.zip", january(12, 0, 0)),
    ];
    let bundles = archive_files(files, "srv").unwrap();
    assert_eq!(bundles.len(), 2);
    assert_eq!(member_names(&bundles[0]), vec!["a.log"]);
    assert_eq!(member_names(&bundles[1]), vec!["b.log"]);
    assert_eq!(archived_count(&bundles), Some(2));
}

#[test]
fn archive_files_of_bundles_only_plans_nothing() {
    let files = vec![file("old.zip", january(10, 0, 0)), file("older.zip", january(9, 0, 0))];
    assert_eq!(archive_files(files, "srv"), Ok(Vec::new()));
}

#[test]
fn finish_plan_puts_the_bands_together() {
    let at = Timestamp::new(0, 0);
    let bundles = plan_bundles(vec![group(on(3), &["a"])], "srv").unwrap();
    let existing = vec![file("srv_04-01-2024.zip", at), file("other_03-01-2024.zip", at)];
    assert_eq!(
        finish_plan(vec![file("x", at)], bundles.clone(), vec![file("f", at)], &existing),
        Ok(DirectoryPlan {
            expired: vec![file("x", at)],
            bundles: bundles.clone(),
            fresh: vec![file("f", at)],
        })
    );
    assert_eq!(
        finish_plan(Vec::new(), Vec::new(), Vec::new(), &existing),
        Ok(DirectoryPlan { expired: Vec::new(), bundles: Vec::new(), fresh: Vec::new() })
    );
}

#[test]
fn finish_plan_refuses_a_name_that_is_taken() {
    let at = Timestamp::new(0, 0);
    let bundles = plan_bundles(vec![group(on(3), &["a"]), group(on(4), &["b"])], "srv").unwrap();
    let existing = vec![file("srv_04-01-2024.zip", at)];
    assert_eq!(
        finish_plan(vec![file("x", at)], bundles, vec![file("f", at)], &existing),
        Err(PlanError::BundleExists)
    );
}

#[test]
fn a_directory_without_bundles_is_never_refused_for_one() {
    let entries = vec![file("a.log", january(10, 9, 0)), file("b.log", january(11, 9, 0))];
    let plan = process_dir("logs", entries, &mid_january()).unwrap();
    assert_eq!(plan.bundles.len(), 2);
}
