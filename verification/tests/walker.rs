use log_rotation::walker::{CountOverflow, Walker};

#[test]
fn the_walk_starts_at_the_root() {
    let mut walker = Walker::new("root".to_string());
    assert_eq!(walker.archived_total(), 0);
    assert_eq!(walker.next_directory(), Some("root".to_string()));
    assert_eq!(walker.next_directory(), None);
}

#[test]
fn subdirectories_come_before_what_was_waiting() {
    let mut walker = Walker::new("/");
    let mut visited = Vec::new();
    while let Some(dir) = walker.next_directory() {
        visited.push(dir);
        let subdirs = match dir {
            "/" => vec!["/a", "/b", "/c"],
            "/a" => vec!["/a/x", "/a/y"],
            "/a/y" => vec!["/a/y/deep"],
            "/c" => vec!["/c/z"],
            _ => Vec::new(),
        };
        walker.directory_done(subdirs, 0).unwrap();
    }
    assert_eq!(visited, vec!["/", "/a", "/a/x", "/a/y", "/a/y/deep", "/b", "/c", "/c/z"]);
}

#[test]
fn a_directory_without_files_hands_on_its_subdirectories() {
    let mut walker = Walker::new(0u32);
    assert_eq!(walker.next_directory(), Some(0));
    assert_eq!(walker.directory_done(vec![1, 2], 0), Ok(()));
    assert_eq!(walker.next_directory(), Some(1));
    assert_eq!(walker.directory_done(Vec::new(), 0), Ok(()));
    assert_eq!(walker.next_directory(), Some(2));
    assert_eq!(walker.directory_done(Vec::new(), 0), Ok(()));
    assert_eq!(walker.next_directory(), None);
    assert_eq!(walker.archived_total(), 0);
}

#[test]
fn the_tally_adds_up() {
    let mut walker = Walker::new(0u32);
    walker.next_directory();
    walker.directory_done(vec![1], 3).unwrap();
    assert_eq!(walker.archived_total(), 3);
    walker.next_directory();
    walker.directory_done(Vec::new(), 4).unwrap();
    assert_eq!(walker.archived_total(), 7);
}

#[test]
fn a_tally_out_of_range_records_nothing() {
    let mut walker = Walker::new(0u32);
    walker.next_directory();
    walker.directory_done(Vec::new(), usize::MAX).unwrap();
    assert_eq!(walker.directory_done(vec![1, 2], 1), Err(CountOverflow));
    assert_eq!(walker.archived_total(), usize::MAX);
    assert_eq!(walker.next_directory(), None);
}
