use std::collections::HashMap;

use graphify_analyze::cohesion::{below_three_tenths, two_decimal_text};
use graphify_analyze::community::{community_index, community_numbers, sort_ascending};
use graphify_analyze::edge_set::EdgeSet;
use graphify_analyze::ranking::descending_order;
use graphify_analyze::text::{begins_with, decimal_text, has_char, is_call_label, join_text, same_text, split_path};
use graphify_analyze::Ratio;

#[test]
fn paths_are_split_at_slashes() {
    assert_eq!(split_path("a/bc//d"), vec!["a", "bc", "", "d"]);
    assert_eq!(split_path(""), vec![""]);
    assert_eq!(split_path("/"), vec!["", ""]);
}

#[test]
fn joining_the_pieces_gives_the_path_back() {
    for path in ["a/bc//d", "", "/", "x", "é/ü"] {
        assert_eq!(join_text(&split_path(path), "/"), path);
    }
    assert_eq!(join_text(&vec![], ", "), "");
}

#[test]
fn labels_of_calls() {
    assert!(is_call_label("run()"));
    assert!(is_call_label("()"));
    assert!(!is_call_label("run"));
    assert!(!is_call_label(")"));
    assert!(!is_call_label("run() "));
    assert!(begins_with(".x", '.'));
    assert!(!begins_with("x.", '.'));
    assert!(!begins_with("", '.'));
    assert!(has_char("lib.rs", '.'));
    assert!(!has_char("LICENSE", '.'));
    assert!(same_text("é", "é"));
    assert!(!same_text("a", "b"));
}

#[test]
fn decimals_are_written_as_std_writes_them() {
    for n in [0u128, 7, 10, 99, 100, 12345678901234567890, u128::MAX] {
        assert_eq!(decimal_text(n), n.to_string());
    }
}

#[test]
fn small_ratios_are_written_as_doubles_are() {
    for den in 1..=400u128 {
        for num in 0..den {
            if 10 * num < 3 * den {
                let r = Ratio { num, den };
                assert!(below_three_tenths(&r));
                assert_eq!(two_decimal_text(&r), format!("{:.2}", num as f64 / den as f64), "{num}/{den}");
            }
        }
    }
    assert_eq!(two_decimal_text(&Ratio { num: 1, den: 200 }), format!("{:.2}", 0.005));
    assert_eq!(two_decimal_text(&Ratio { num: 29, den: 200 }), format!("{:.2}", 0.145));
}

#[test]
fn three_tenths_is_not_below() {
    assert!(!below_three_tenths(&Ratio { num: 3, den: 10 }));
    assert!(below_three_tenths(&Ratio { num: 29, den: 100 }));
    assert!(!below_three_tenths(&Ratio { num: 1, den: 3 }));
    assert!(!below_three_tenths(&Ratio { num: 2, den: 0 }));
}

#[test]
fn larger_ratios_come_first_and_equal_ones_stay() {
    let keys = vec![
        Ratio { num: 1, den: 3 },
        Ratio { num: 2, den: 4 },
        Ratio { num: 2, den: 6 },
        Ratio { num: 1, den: 1 },
        Ratio { num: 1, den: 2 },
    ];
    assert_eq!(descending_order(&keys), vec![3, 1, 4, 0, 2]);
    assert_eq!(descending_order(&vec![]), Vec::<usize>::new());
}

#[test]
fn communities_are_walked_in_ascending_order() {
    let communities: HashMap<usize, Vec<String>> =
        [(9, vec!["a".into()]), (2, vec!["a".into(), "b".into()]), (4, vec![])].into();
    assert_eq!(community_numbers(&communities), vec![2, 4, 9]);
    let index = community_index(&communities);
    assert_eq!(index.get("a"), Some(&9));
    assert_eq!(index.get("b"), Some(&2));
    assert_eq!(index.get("c"), None);
    assert_eq!(sort_ascending(&vec![5, 1, 3]), vec![1, 3, 5]);
}

#[test]
fn edge_keys_differ_in_all_three_parts() {
    let mut set = EdgeSet::new();
    set.insert("a", "b", "calls");
    set.insert("a", "c", "uses");
    set.insert("a", "b", "calls");
    assert!(set.contains("a", "b", "calls"));
    assert!(set.contains("a", "c", "uses"));
    assert!(!set.contains("a", "b", "uses"));
    assert!(!set.contains("a", "c", "calls"));
    assert!(!set.contains("b", "a", "calls"));
    assert!(!set.contains("a", "x", "calls"));
}
