use rupes::order::{sort, str_lt};

#[test]
fn prefix_comes_first() {
    assert!(str_lt("a", "ab"));
    assert!(!str_lt("ab", "a"));
    assert!(str_lt("", "a"));
    assert!(!str_lt("a", ""));
}

#[test]
fn nothing_comes_before_itself() {
    assert!(!str_lt("", ""));
    assert!(!str_lt("same", "same"));
}

#[test]
fn first_difference_decides() {
    assert!(str_lt("abc", "abd"));
    assert!(!str_lt("abd", "abc"));
    assert!(str_lt("abz", "b"));
}

#[test]
fn order_is_by_byte_not_by_case_folding() {
    assert!(str_lt("Z", "a"));
    assert!(str_lt(".hidden", "a"));
    assert!(str_lt("a-file", "a/file"));
}

#[test]
fn order_on_text_beyond_ascii() {
    assert!(str_lt("z", "é"));
    assert!(str_lt("é", "日"));
    assert!(!str_lt("日", "é"));
}

#[test]
fn order_agrees_with_the_standard_order_on_strings() {
    let words = ["", "a", "ab", "b", "B", "é", "zz", "./x", "日本", "a b"];
    for a in words {
        for b in words {
            assert_eq!(str_lt(a, b), a < b, "{:?} {:?}", a, b);
        }
    }
}

#[test]
fn sort_orders_strings() {
    let items: Vec<String> =
        ["pear", "apple", "fig", "apple", "", "zebra", "Fig"].iter().map(|s| s.to_string()).collect();
    let sorted = sort(items);
    assert_eq!(sorted, vec!["", "Fig", "apple", "apple", "fig", "pear", "zebra"]);
}

#[test]
fn sort_of_nothing_and_of_one() {
    assert_eq!(sort(Vec::<String>::new()), Vec::<String>::new());
    assert_eq!(sort(vec!["one".to_string()]), vec!["one"]);
}

#[test]
fn sort_keeps_every_element() {
    let mut items: Vec<String> = Vec::new();
    let mut seed: u32 = 7;
    for _ in 0..500 {
        seed = seed.wrapping_mul(1_103_515_245).wrapping_add(12_345);
        items.push(format!("{}", seed % 97));
    }
    let mut expected = items.clone();
    expected.sort();
    assert_eq!(sort(items), expected);
}
