use rupes::digest::{digest_hex, Algorithm};
use rupes::filter::{Config, Entry, EntryKind};
use rupes::report::{aggregate, Report};
use rupes::store::{group_records, Record};
use rupes::walk::{join_path, Walk, WalkError};

/// A file system held in memory: every node by its path, so that a linked
/// directory can be listed under the path of the link.
struct Node {
    name: &'static str,
    link: bool,
    content: Option<&'static [u8]>,
    children: Vec<Node>,
}

fn file(name: &'static str, content: &'static [u8]) -> Node {
    Node { name, link: false, content: Some(content), children: Vec::new() }
}

fn dir(name: &'static str, children: Vec<Node>) -> Node {
    Node { name, link: false, content: None, children }
}

fn linked_dir(name: &'static str, children: Vec<Node>) -> Node {
    Node { name, link: true, content: None, children }
}

const SHORT: &[u8] = b"eighteen bytes....";
const LONG: &[u8] = b"nineteen bytes.....";

/// Two groups of three identical files each, the first of 18 bytes and the
/// second of 19, some of them behind dot names, and a linked directory with a
/// copy of the first.
fn example() -> Node {
    dir(
        "test",
        vec![
            file("b-file.specialTXT", SHORT),
            dir(".dot-dir", vec![file("file-in-dot-dir.txt", SHORT)]),
            file("a-file.txt", SHORT),
            dir(
                "a-dir",
                vec![
                    file("d-file.txt", LONG),
                    file(".dot-file", LONG),
                    file("c-file.txt", LONG),
                    file("lonely.txt", b"nothing like it"),
                ],
            ),
            linked_dir("test2", vec![file("1-file.txt", SHORT)]),
        ],
    )
}

fn options() -> Config {
    Config {
        recursive: false,
        exclude_dots: false,
        filter: None,
        follow_symlinks: false,
        min: None,
        max: None,
    }
}

fn find<'a>(root: &'a Node, root_path: &str, path: &str) -> Option<&'a Node> {
    if root_path == path {
        return Some(root);
    }
    for child in &root.children {
        let below = join_path(root_path, child.name);
        if let Some(node) = find(child, &below, path) {
            return Some(node);
        }
    }
    None
}

/// Runs the whole pipeline on the tree. `Ok(None)` is the sign that there was
/// nothing to scan.
fn scan(
    config: Config,
    algorithm: Algorithm,
    root_path: &str,
    tree: Option<&Node>,
) -> Result<Option<Report>, WalkError> {
    let is_directory = match tree {
        Some(node) => node.content.is_none(),
        None => false,
    };
    let mut walk = Walk::start(config, root_path.to_string(), is_directory)?;
    let tree = tree.unwrap();
    while let Some(directory) = walk.next_directory() {
        let node = find(tree, root_path, &directory).unwrap();
        for child in &node.children {
            let entry = Entry {
                name: child.name.to_string(),
                kind: if child.content.is_some() { EntryKind::File } else { EntryKind::Directory },
                size: child.content.map(|c| c.len() as u64).unwrap_or(0),
                is_symlink: child.link,
            };
            walk.offer(entry)?;
        }
    }
    let mut records = Vec::new();
    for candidate in walk.finish() {
        let node = find(tree, root_path, &candidate.path).unwrap();
        let digest = digest_hex(algorithm, node.content.unwrap());
        records.push(Record { size: candidate.size, digest, path: candidate.path });
    }
    let store = group_records(records);
    if store.is_empty() {
        return Ok(None);
    }
    Ok(Some(aggregate(store).unwrap()))
}

fn render(report: &Report, separator: &str) -> String {
    let mut out = String::from("\n");
    for group in &report.groups {
        out.push_str(&group.paths.join(separator));
        out.push_str("\n\n");
    }
    out
}

fn paths(report: &Report) -> Vec<Vec<&str>> {
    report.groups.iter().map(|g| g.paths.iter().map(|p| p.as_str()).collect()).collect()
}

#[test]
fn bad_directory() {
    let outcome = scan(options(), Algorithm::Sha256, "./example_files/notexist", None);
    assert_eq!(outcome.err(), Some(WalkError::RootNotDirectory));
}

#[test]
fn a_file_is_no_root() {
    let node = file("notes.txt", b"text");
    let outcome = scan(options(), Algorithm::Sha256, "./notes.txt", Some(&node));
    assert_eq!(outcome.err(), Some(WalkError::RootNotDirectory));
}

#[test]
fn empty_directory() {
    let tree = dir("empty", Vec::new());
    let outcome = scan(options(), Algorithm::Sha256, "./example_files/empty", Some(&tree));
    assert!(matches!(outcome, Ok(None)));
}

#[test]
fn default_scan() {
    let tree = example();
    let config = Config { recursive: true, ..options() };
    let report = scan(config, Algorithm::Sha256, "./example_files/test", Some(&tree)).unwrap().unwrap();
    assert!(render(&report, "\n")
        .contains("\n./example_files/test/a-file.txt\n./example_files/test/b-file.specialTXT\n"));
}

#[test]
fn flat_scan_reports_children_of_the_root_only() {
    let tree = example();
    let report = scan(options(), Algorithm::Sha256, "./example_files/test", Some(&tree)).unwrap().unwrap();
    assert_eq!(
        paths(&report),
        vec![vec!["./example_files/test/a-file.txt", "./example_files/test/b-file.specialTXT"]]
    );
    assert_eq!(report.groups[0].size, 18);
    assert_eq!(report.groups[0].wasted, 18);
    assert_eq!(report.total_wasted, 18);
}

#[test]
fn recursive_scan() {
    let tree = example();
    let config = Config { recursive: true, ..options() };
    let report = scan(config, Algorithm::Sha256, "./example_files/test", Some(&tree)).unwrap().unwrap();
    let text = render(&report, "\n");
    assert!(text.contains(
        "\n./example_files/test/.dot-dir/file-in-dot-dir.txt\n./example_files/test/a-file.txt\n./example_files/test/b-file.specialTXT\n\n./example_files/test/a-dir/.dot-file\n./example_files/test/a-dir/c-file.txt\n./example_files/test/a-dir/d-file.txt\n"
    ));
    assert!(!text.contains("./example_files/test2/1-file.txt"));
    assert!(!text.contains("1-file.txt"));
    assert!(!text.contains("lonely.txt"));
    assert_eq!(report.groups[0].wasted, 36);
    assert_eq!(report.groups[1].wasted, 38);
    assert_eq!(report.total_wasted, 74);
}

#[test]
fn recursive_scan_md5() {
    let tree = example();
    let config = Config { recursive: true, ..options() };
    let report = scan(config, Algorithm::Md5, "./example_files/test", Some(&tree)).unwrap().unwrap();
    let text = render(&report, "\n");
    assert!(text.contains(
        "\n./example_files/test/.dot-dir/file-in-dot-dir.txt\n./example_files/test/a-file.txt\n./example_files/test/b-file.specialTXT\n\n./example_files/test/a-dir/.dot-file\n./example_files/test/a-dir/c-file.txt\n./example_files/test/a-dir/d-file.txt\n"
    ));
    assert!(!text.contains("./example_files/test2/1-file.txt"));
    for group in &report.groups {
        assert_eq!(group.digest.len(), 32);
    }
}

#[test]
fn dotless_scan() {
    let tree = example();
    let config = Config { recursive: true, exclude_dots: true, ..options() };
    let report = scan(config, Algorithm::Sha256, "./example_files/test", Some(&tree)).unwrap().unwrap();
    let text = render(&report, "\n");
    assert!(text.contains(
        "\n./example_files/test/a-file.txt\n./example_files/test/b-file.specialTXT\n\n./example_files/test/a-dir/c-file.txt\n./example_files/test/a-dir/d-file.txt\n"
    ));
    assert!(!text.contains("/."));
}

#[test]
fn filtered_scan() {
    let tree = example();
    let config = Config { recursive: true, filter: Some("^.+[.]txt$".to_string()), ..options() };
    let report = scan(config, Algorithm::Sha256, "./example_files/test", Some(&tree)).unwrap().unwrap();
    let text = render(&report, "\n");
    assert!(!text.contains("./example_files/test/b-file.specialTXT"));
    assert!(text.contains("./example_files/test/a-file.txt"));
    for group in &report.groups {
        for path in &group.paths {
            assert!(path.ends_with(".txt"));
        }
    }
}

#[test]
fn symlinks_scan() {
    let tree = example();
    let config = Config { recursive: true, follow_symlinks: true, ..options() };
    let report = scan(config, Algorithm::Sha256, "./example_files/test", Some(&tree)).unwrap().unwrap();
    assert!(render(&report, "\n").contains("./example_files/test/test2/1-file.txt"));
    assert_eq!(report.groups[0].paths.len(), 4);
    assert_eq!(report.groups[0].wasted, 54);
}

#[test]
fn max_constrained_scan() {
    let tree = example();
    let config = Config { recursive: true, max: Some(18), ..options() };
    let report = scan(config, Algorithm::Sha256, "./example_files/test", Some(&tree)).unwrap().unwrap();
    let text = render(&report, "\n");
    assert!(text.contains("./example_files/test/.dot-dir/file-in-dot-dir.txt"));
    assert!(!text.contains("./example_files/test/a-dir/.dot-file"));
}

#[test]
fn min_constrained_scan() {
    let tree = example();
    let config = Config { recursive: true, min: Some(19), ..options() };
    let report = scan(config, Algorithm::Sha256, "./example_files/test", Some(&tree)).unwrap().unwrap();
    let text = render(&report, "\n");
    assert!(!text.contains("./example_files/test/.dot-dir/file-in-dot-dir.txt"));
    assert!(text.contains("./example_files/test/a-dir/.dot-file"));
}

#[test]
fn both_bounds_keep_sizes_in_between() {
    let tree = example();
    let config = Config { recursive: true, min: Some(16), max: Some(18), ..options() };
    let report = scan(config, Algorithm::Sha256, "./example_files/test", Some(&tree)).unwrap().unwrap();
    assert_eq!(report.groups.len(), 1);
    for group in &report.groups {
        assert!(16 <= group.size && group.size <= 18);
    }
}

#[test]
fn comma_separated_scan() {
    let tree = example();
    let report = scan(options(), Algorithm::Sha256, "./example_files/test", Some(&tree)).unwrap().unwrap();
    assert!(render(&report, ", ")
        .contains("./example_files/test/a-file.txt, ./example_files/test/b-file.specialTXT"));
}

#[test]
fn two_copies_and_one_other_file() {
    let tree = dir("t", vec![file("a.txt", b"hi"), file("b.txt", b"hi"), file("c.txt", b"bye")]);
    let report = scan(options(), Algorithm::Sha256, "t", Some(&tree)).unwrap().unwrap();
    assert_eq!(paths(&report), vec![vec!["t/a.txt", "t/b.txt"]]);
    assert_eq!(report.groups[0].size, 2);
    assert_eq!(report.groups[0].wasted, 2);
    assert_eq!(report.total_wasted, 2);
}

#[test]
fn no_copies_nothing_reported() {
    let tree = dir(
        "t",
        vec![file("a", b"one"), file("b", b"two"), file("c", b"three"), file("d", b"")],
    );
    let report = scan(options(), Algorithm::Sha256, "t", Some(&tree)).unwrap().unwrap();
    assert!(report.groups.is_empty());
    assert_eq!(report.total_wasted, 0);
}

#[test]
fn same_size_other_content_is_no_copy() {
    let tree = dir("t", vec![file("a", b"abc"), file("b", b"abd"), file("c", b"abc")]);
    let report = scan(options(), Algorithm::Md5, "t", Some(&tree)).unwrap().unwrap();
    assert_eq!(paths(&report), vec![vec!["t/a", "t/c"]]);
}

#[test]
fn empty_files_are_copies_that_waste_nothing() {
    let tree = dir("t", vec![file("a", b""), file("b", b"")]);
    let report = scan(options(), Algorithm::Sha256, "t", Some(&tree)).unwrap().unwrap();
    assert_eq!(paths(&report), vec![vec!["t/a", "t/b"]]);
    assert_eq!(report.total_wasted, 0);
}

#[test]
fn a_scan_twice_gives_the_same_report() {
    let tree = example();
    let config = Config { recursive: true, ..options() };
    let first = scan(config.clone(), Algorithm::Sha256, "./r", Some(&tree)).unwrap().unwrap();
    let second = scan(config, Algorithm::Sha256, "./r", Some(&tree)).unwrap().unwrap();
    assert_eq!(render(&first, "\n"), render(&second, "\n"));
    assert_eq!(first.total_wasted, second.total_wasted);
}
