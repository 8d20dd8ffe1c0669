use rupes::store::{group_records, Group, GroupingStore, Record};

fn record(size: u64, digest: &str, path: &str) -> Record {
    Record { size, digest: digest.to_string(), path: path.to_string() }
}

fn by_key(mut groups: Vec<Group>) -> Vec<(u64, String, Vec<String>)> {
    groups.sort_by(|a, b| (a.size, &a.digest).cmp(&(b.size, &b.digest)));
    groups.into_iter().map(|g| (g.size, g.digest, g.paths)).collect()
}

#[test]
fn a_new_store_is_empty() {
    let store = GroupingStore::new();
    assert!(store.is_empty());
    assert!(store.into_groups().is_empty());
}

#[test]
fn one_file_founds_one_group() {
    let mut store = GroupingStore::new();
    store.upsert(2, "aa".to_string(), "x".to_string());
    assert!(!store.is_empty());
    assert_eq!(by_key(store.into_groups()), vec![(2, "aa".to_string(), vec!["x".to_string()])]);
}

#[test]
fn same_key_joins_the_group_in_order_of_arrival() {
    let mut store = GroupingStore::new();
    store.upsert(2, "aa".to_string(), "z".to_string());
    store.upsert(2, "aa".to_string(), "a".to_string());
    store.upsert(2, "aa".to_string(), "m".to_string());
    assert_eq!(
        by_key(store.into_groups()),
        vec![(2, "aa".to_string(), vec!["z".to_string(), "a".to_string(), "m".to_string()])]
    );
}

#[test]
fn same_size_other_digest_is_another_group() {
    let mut store = GroupingStore::new();
    store.upsert(2, "aa".to_string(), "x".to_string());
    store.upsert(2, "bb".to_string(), "y".to_string());
    assert_eq!(
        by_key(store.into_groups()),
        vec![
            (2, "aa".to_string(), vec!["x".to_string()]),
            (2, "bb".to_string(), vec!["y".to_string()]),
        ]
    );
}

#[test]
fn same_digest_other_size_is_another_group() {
    let mut store = GroupingStore::new();
    store.upsert(2, "aa".to_string(), "x".to_string());
    store.upsert(3, "aa".to_string(), "y".to_string());
    assert_eq!(
        by_key(store.into_groups()),
        vec![
            (2, "aa".to_string(), vec!["x".to_string()]),
            (3, "aa".to_string(), vec!["y".to_string()]),
        ]
    );
}

#[test]
fn no_key_is_held_twice() {
    let mut store = GroupingStore::new();
    for round in 0..50u64 {
        for size in 0..7u64 {
            for digest in ["aa", "bb", "cc"] {
                store.upsert(size, digest.to_string(), format!("{}-{}-{}", round, size, digest));
            }
        }
    }
    let groups = by_key(store.into_groups());
    assert_eq!(groups.len(), 21);
    for pair in groups.windows(2) {
        assert_ne!((pair[0].0, &pair[0].1), (pair[1].0, &pair[1].1));
    }
    for (size, digest, paths) in &groups {
        assert_eq!(paths.len(), 50);
        for (round, path) in paths.iter().enumerate() {
            assert_eq!(path, &format!("{}-{}-{}", round, size, digest));
        }
    }
}

#[test]
fn records_are_filed_in_order() {
    let store = group_records(vec![
        record(2, "aa", "b.txt"),
        record(3, "cc", "c.txt"),
        record(2, "aa", "a.txt"),
    ]);
    assert_eq!(
        by_key(store.into_groups()),
        vec![
            (2, "aa".to_string(), vec!["b.txt".to_string(), "a.txt".to_string()]),
            (3, "cc".to_string(), vec!["c.txt".to_string()]),
        ]
    );
}

#[test]
fn no_records_no_groups() {
    let store = group_records(Vec::new());
    assert!(store.is_empty());
}

#[test]
fn the_same_path_twice_is_listed_twice() {
    let store = group_records(vec![record(1, "d", "p"), record(1, "d", "p")]);
    assert_eq!(
        by_key(store.into_groups()),
        vec![(1, "d".to_string(), vec!["p".to_string(), "p".to_string()])]
    );
}
