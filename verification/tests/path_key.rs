use pitagoecsvgen_core::natural_ordered_str::NaturalOrderedStr;
use pitagoecsvgen_core::order::Order;
use pitagoecsvgen_core::path_key::{sort_keys, PathKey};
use std::cmp::Ordering;

fn strings(list: &[&str]) -> Vec<String> {
    list.iter().map(|s| s.to_string()).collect()
}

fn order(dir1: &[&str], name1: &str, dir2: &[&str], name2: &str) -> Order {
    let (dir1, dir2) = (strings(dir1), strings(dir2));
    PathKey::new(&dir1, name1).compare(&PathKey::new(&dir2, name2))
}

fn ordering(dir1: &[&str], name1: &str, dir2: &[&str], name2: &str) -> Ordering {
    let (dir1, dir2) = (strings(dir1), strings(dir2));
    PathKey::new(&dir1, name1).cmp(&PathKey::new(&dir2, name2))
}

#[test]
fn keys_go_by_directory_first() {
    assert_eq!(order(&["a"], "z", &["b"], "a"), Order::Less);
    assert_eq!(order(&["a2"], "z", &["a10"], "a"), Order::Less);
    assert_eq!(order(&["a", "b"], "a", &["a"], "z"), Order::Greater);
    assert_eq!(order(&[], "z", &["a"], "a"), Order::Less);
    assert_eq!(ordering(&["a", "b"], "x", &["a", "c"], "x"), Ordering::Less);
}

#[test]
fn keys_with_equal_directories_go_by_name() {
    assert_eq!(order(&["a"], "x2", &["a"], "x10"), Order::Less);
    assert_eq!(order(&["a01"], "x2", &["a1"], "x002"), Order::Equal);
    assert_eq!(ordering(&["a01"], "x3", &["a1"], "x002"), Ordering::Greater);
    assert_eq!(ordering(&[], "", &[], ""), Ordering::Equal);
}

#[test]
fn sort_keys_keeps_equal_keys_in_place() {
    let paths = [
        (strings(&["b"]), "1"),
        (strings(&["a"]), "02"),
        (strings(&["a"]), "2"),
        (strings(&[]), "9"),
        (strings(&["a"]), "002"),
        (strings(&["a"]), "1"),
    ];
    let keys: Vec<PathKey> = paths.iter().map(|(dir, name)| PathKey::new(dir, name)).collect();
    assert_eq!(sort_keys(&keys), vec![3, 5, 1, 2, 4, 0]);
    assert_eq!(sort_keys(&Vec::new()), Vec::<usize>::new());
}

#[test]
fn partial_cmp_always_has_an_outcome() {
    let a = NaturalOrderedStr::new("a2");
    let b = NaturalOrderedStr::new("a10");
    assert_eq!(a.partial_cmp(&b), Some(Ordering::Less));
    assert_eq!(b.partial_cmp(&a), Some(Ordering::Greater));
    assert_eq!(a.partial_cmp(&a), Some(Ordering::Equal));
}
