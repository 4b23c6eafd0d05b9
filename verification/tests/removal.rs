use idar::deduplicate::run;
use idar::models::{DeduplicationMetadata, DeduplicationReport, DuplicatesGroup, ImageInfo};
use idar::removal::{canonical_paths, duplicate_paths, retained_entries};

fn record(path: &str, hash: &[u8]) -> ImageInfo {
    ImageInfo { path: String::from(path), hash: hash.to_vec() }
}

fn listing(paths: &[&str]) -> Vec<String> {
    paths.iter().map(|path| String::from(*path)).collect()
}

fn report_of(groups: Vec<Vec<&str>>) -> DeduplicationReport {
    let groups: Vec<DuplicatesGroup> = groups
        .into_iter()
        .map(|paths| DuplicatesGroup {
            items: paths.into_iter().map(|path| record(path, &[1])).collect(),
        })
        .collect();
    DeduplicationReport {
        metadata: DeduplicationMetadata { directory_path: String::from("src"), threshold: 10 },
        total_duplicates: 0,
        groups,
    }
}

#[test]
fn the_first_member_of_every_group_is_copied_first() {
    let report = report_of(vec![vec!["src/a", "src/c"], vec!["src/b", "src/e", "src/f"]]);
    assert_eq!(canonical_paths(&report), listing(&["src/a", "src/b"]));
}

#[test]
fn a_group_without_members_has_no_canonical_member() {
    let report = report_of(vec![vec![], vec!["src/b", "src/e"], vec![], vec!["src/x"]]);
    assert_eq!(canonical_paths(&report), listing(&["src/b", "src/x"]));
    let excluded = duplicate_paths(&report);
    assert_eq!(excluded.len(), 1);
    assert!(excluded.contains("src/e"));
}

#[test]
fn every_member_but_the_first_is_a_duplicate() {
    let report = report_of(vec![vec!["src/a", "src/c"], vec!["src/b", "src/e", "src/f"]]);
    let excluded = duplicate_paths(&report);
    assert_eq!(excluded.len(), 3);
    assert!(excluded.contains("src/c"));
    assert!(excluded.contains("src/e"));
    assert!(excluded.contains("src/f"));
    assert!(!excluded.contains("src/a"));
    assert!(!excluded.contains("src/b"));
}

#[test]
fn the_entries_that_are_no_duplicates_are_kept_in_their_order() {
    let report = report_of(vec![vec!["src/a", "src/c"], vec!["src/b", "src/e", "src/f"]]);
    let entries = listing(&["src/f", "src/d", "src/b", "src/notes.txt", "src/a", "src/c", "src/e"]);
    assert_eq!(
        retained_entries(&report, &entries),
        listing(&["src/d", "src/b", "src/notes.txt", "src/a"])
    );
}

#[test]
fn the_rebuilt_directory_holds_one_file_for_each_group_and_each_ungrouped_entry() {
    let catalog = vec![
        record("src/a", &[0x00]),
        record("src/b", &[0xFF]),
        record("src/c", &[0x00]),
        record("src/d", &[0x3C]),
        record("src/e", &[0xFF]),
    ];
    let report = run(String::from("src"), catalog, 1);
    assert_eq!(report.groups.len(), 2);
    let entries = listing(&["src/a", "src/b", "src/c", "src/d", "src/e", "src/readme"]);
    let first = canonical_paths(&report);
    let kept = retained_entries(&report, &entries);
    let ungrouped = 2;
    assert_eq!(kept.len(), report.groups.len() + ungrouped);
    assert_eq!(kept, listing(&["src/a", "src/b", "src/d", "src/readme"]));
    for path in &first {
        assert!(kept.contains(path));
    }
}

#[test]
fn a_report_without_groups_keeps_every_entry() {
    let report = report_of(vec![]);
    let entries = listing(&["src/one", "src/two"]);
    assert!(canonical_paths(&report).is_empty());
    assert!(duplicate_paths(&report).is_empty());
    assert_eq!(retained_entries(&report, &entries), entries);
    assert!(retained_entries(&report, &Vec::new()).is_empty());
}

#[test]
fn a_canonical_path_that_is_also_a_duplicate_is_left_out_of_the_listing() {
    let report = report_of(vec![vec!["src/a", "src/b"], vec!["src/b", "src/c"]]);
    assert_eq!(canonical_paths(&report), listing(&["src/a", "src/b"]));
    assert_eq!(
        retained_entries(&report, &listing(&["src/a", "src/b", "src/c"])),
        listing(&["src/a"])
    );
}

#[test]
fn what_was_kept_is_kept_again() {
    let report = report_of(vec![vec!["src/a", "src/c"], vec!["src/b", "src/e", "src/f"]]);
    let entries = listing(&["src/f", "src/d", "src/b", "src/notes.txt", "src/a", "src/c", "src/e"]);
    let kept = retained_entries(&report, &entries);
    assert_eq!(retained_entries(&report, &kept), kept);
}

#[test]
fn the_plan_copies_the_canonical_members_and_then_what_is_kept() {
    let report = report_of(vec![vec!["src/a", "src/c"], vec!["src/b", "src/e", "src/f"]]);
    let entries = listing(&["src/f", "src/d", "src/b", "src/notes.txt", "src/a", "src/c", "src/e"]);
    let copies = idar::removal::run(&report, &entries);
    assert_eq!(
        copies,
        listing(&["src/a", "src/b", "src/d", "src/b", "src/notes.txt", "src/a"])
    );
    let mut files = copies.clone();
    files.sort();
    files.dedup();
    let ungrouped = 2;
    assert_eq!(files.len(), report.groups.len() + ungrouped);
}

#[test]
fn the_plan_names_a_canonical_member_that_is_gone_from_the_listing() {
    let report = report_of(vec![vec!["src/a", "src/c"]]);
    let entries = listing(&["src/c", "src/d"]);
    assert_eq!(idar::removal::run(&report, &entries), listing(&["src/a", "src/d"]));
}
