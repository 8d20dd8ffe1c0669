use rupes::report::{aggregate, duplicates, tally, wasted_space, ReportError};
use rupes::store::{group_records, Group, GroupingStore, Record};

fn record(size: u64, digest: &str, path: &str) -> Record {
    Record { size, digest: digest.to_string(), path: path.to_string() }
}

fn keys_and_paths(groups: &[Group]) -> Vec<(u64, &str, Vec<&str>)> {
    groups
        .iter()
        .map(|g| (g.size, g.digest.as_str(), g.paths.iter().map(|p| p.as_str()).collect()))
        .collect()
}

#[test]
fn wasted_space_is_size_times_surplus_copies() {
    assert_eq!(wasted_space(2, 2), Some(2));
    assert_eq!(wasted_space(10, 4), Some(30));
    assert_eq!(wasted_space(0, 5), Some(0));
    assert_eq!(wasted_space(7, 1), Some(0));
    assert_eq!(wasted_space(7, 0), Some(0));
    assert_eq!(wasted_space(u64::MAX, 2), Some(u64::MAX));
}

#[test]
fn wasted_space_that_does_not_fit() {
    assert_eq!(wasted_space(u64::MAX, 3), None);
    assert_eq!(wasted_space(1 << 63, 3), None);
}

#[test]
fn groups_without_copies_are_left_out() {
    let store = group_records(vec![
        record(1, "a", "one"),
        record(2, "b", "two"),
        record(3, "c", "three"),
    ]);
    let report = aggregate(store).unwrap();
    assert!(report.groups.is_empty());
    assert_eq!(report.total_wasted, 0);
}

#[test]
fn an_empty_store_gives_an_empty_report() {
    let report = aggregate(GroupingStore::new()).unwrap();
    assert!(report.groups.is_empty());
    assert_eq!(report.total_wasted, 0);
}

#[test]
fn groups_come_by_size_then_digest() {
    let store = group_records(vec![
        record(9, "bb", "file-1"),
        record(3, "zz", "file-2"),
        record(9, "aa", "file-3"),
        record(3, "zz", "file-4"),
        record(9, "bb", "file-5"),
        record(9, "aa", "file-6"),
        record(100, "00", "file-7"),
    ]);
    let groups = duplicates(store);
    assert_eq!(
        keys_and_paths(&groups),
        vec![(3, "zz", vec!["file-2", "file-4"]), (9, "aa", vec!["file-3", "file-6"]), (9, "bb", vec!["file-1", "file-5"])]
    );
}

#[test]
fn paths_come_in_byte_order() {
    let store = group_records(vec![
        record(5, "d", "./t/b-file.specialTXT"),
        record(5, "d", "./t/a-file.txt"),
        record(5, "d", "./t/.dot-dir/file-in-dot-dir.txt"),
        record(5, "d", "./t/B"),
    ]);
    let groups = duplicates(store);
    assert_eq!(
        keys_and_paths(&groups),
        vec![(
            5,
            "d",
            vec!["./t/.dot-dir/file-in-dot-dir.txt", "./t/B", "./t/a-file.txt", "./t/b-file.specialTXT"]
        )]
    );
}

#[test]
fn the_report_tallies_each_group_and_the_total() {
    let store = group_records(vec![
        record(10, "x", "a"),
        record(10, "x", "b"),
        record(10, "x", "c"),
        record(4, "y", "d"),
        record(4, "y", "e"),
        record(7, "z", "f"),
    ]);
    let report = aggregate(store).unwrap();
    assert_eq!(report.groups.len(), 2);
    assert_eq!(report.groups[0].size, 4);
    assert_eq!(report.groups[0].digest, "y");
    assert_eq!(report.groups[0].paths, vec!["d", "e"]);
    assert_eq!(report.groups[0].wasted, 4);
    assert_eq!(report.groups[1].size, 10);
    assert_eq!(report.groups[1].digest, "x");
    assert_eq!(report.groups[1].paths, vec!["a", "b", "c"]);
    assert_eq!(report.groups[1].wasted, 20);
    assert_eq!(report.total_wasted, 24);
}

#[test]
fn the_report_does_not_depend_on_the_order_of_arrival() {
    let records = vec![
        record(10, "x", "a"),
        record(4, "y", "d"),
        record(10, "x", "c"),
        record(10, "w", "g"),
        record(4, "y", "e"),
        record(10, "x", "b"),
        record(10, "w", "h"),
    ];
    let expected = keys_and_paths(&duplicates(group_records(records.clone())))
        .into_iter()
        .map(|(s, d, p)| (s, d.to_string(), p.into_iter().map(String::from).collect::<Vec<_>>()))
        .collect::<Vec<_>>();
    let mut shuffled = records.clone();
    for turn in 0..records.len() {
        shuffled.rotate_left(1);
        if turn % 2 == 0 {
            shuffled.reverse();
        }
        let groups = duplicates(group_records(shuffled.clone()));
        let got = keys_and_paths(&groups)
            .into_iter()
            .map(|(s, d, p)| (s, d.to_string(), p.into_iter().map(String::from).collect::<Vec<_>>()))
            .collect::<Vec<_>>();
        assert_eq!(got, expected);
    }
}

#[test]
fn a_total_that_does_not_fit_is_an_error() {
    let store = group_records(vec![
        record(u64::MAX, "x", "a"),
        record(u64::MAX, "x", "b"),
        record(1, "y", "c"),
        record(1, "y", "d"),
    ]);
    assert_eq!(aggregate(store).err(), Some(ReportError::Overflow));
}

#[test]
fn a_group_that_does_not_fit_is_an_error() {
    let store = group_records(vec![
        record(u64::MAX, "x", "a"),
        record(u64::MAX, "x", "b"),
        record(u64::MAX, "x", "c"),
    ]);
    assert_eq!(aggregate(store).err(), Some(ReportError::Overflow));
}

#[test]
fn a_total_that_just_fits() {
    let store = group_records(vec![
        record(u64::MAX - 1, "x", "a"),
        record(u64::MAX - 1, "x", "b"),
        record(1, "y", "c"),
        record(1, "y", "d"),
    ]);
    let report = aggregate(store).unwrap();
    assert_eq!(report.total_wasted, u64::MAX);
}

#[test]
fn tally_keeps_the_groups_as_they_are() {
    let groups = vec![
        Group { size: 3, digest: "b".to_string(), paths: vec!["z".to_string(), "a".to_string()] },
        Group { size: 1, digest: "a".to_string(), paths: vec!["q".to_string()] },
        Group { size: 5, digest: "c".to_string(), paths: Vec::new() },
    ];
    let report = tally(groups).unwrap();
    assert_eq!(report.groups.len(), 3);
    assert_eq!(report.groups[0].paths, vec!["z", "a"]);
    assert_eq!(report.groups[0].wasted, 3);
    assert_eq!(report.groups[1].wasted, 0);
    assert_eq!(report.groups[2].wasted, 0);
    assert_eq!(report.total_wasted, 3);
}

#[test]
fn many_groups_are_sorted() {
    let mut records = Vec::new();
    let mut seed: u64 = 99;
    for n in 0..400u64 {
        seed = seed.wrapping_mul(6_364_136_223_846_793_005).wrapping_add(1_442_695_040_888_963_407);
        let size = (seed >> 33) % 20;
        let digest = format!("{:02x}", (seed >> 20) % 5);
        records.push(record(size, &digest, &format!("f{}", n)));
    }
    let groups = duplicates(group_records(records.clone()));
    for pair in groups.windows(2) {
        assert!((pair[0].size, &pair[0].digest) < (pair[1].size, &pair[1].digest));
    }
    let mut listed = 0;
    for group in &groups {
        assert!(group.paths.len() >= 2);
        for pair in group.paths.windows(2) {
            assert!(pair[0] <= pair[1]);
        }
        let mut expected: Vec<String> = records
            .iter()
            .filter(|r| r.size == group.size && r.digest == group.digest)
            .map(|r| r.path.clone())
            .collect();
        expected.sort();
        assert_eq!(group.paths, expected);
        listed += 1;
    }
    let mut keys: Vec<(u64, String)> = records.iter().map(|r| (r.size, r.digest.clone())).collect();
    keys.sort();
    let mut with_copies = 0;
    let mut at = 0;
    while at < keys.len() {
        let mut end = at;
        while end < keys.len() && keys[end] == keys[at] {
            end += 1;
        }
        if end - at >= 2 {
            with_copies += 1;
        }
        at = end;
    }
    assert_eq!(listed, with_copies);
}
