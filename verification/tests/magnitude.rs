use pitagoecsvgen_core::magnitude::{is_ascii_digit, Magnitude};
use pitagoecsvgen_core::natural_ordered_str::{NaturalOrderedStr, NaturalOrderedStrItem};
use pitagoecsvgen_core::order::Order;
use std::cmp::Ordering;

#[test]
fn only_ascii_digits_are_digits() {
    for c in '0'..='9' {
        assert!(is_ascii_digit(c));
    }
    assert!(!is_ascii_digit('/'));
    assert!(!is_ascii_digit(':'));
    assert!(!is_ascii_digit('a'));
    assert!(!is_ascii_digit('１'));
    assert!(!is_ascii_digit('٣'));
}

#[test]
fn parse_ignores_leading_zeros() {
    assert_eq!(Magnitude::parse("007"), Some(Magnitude::from_u128(7)));
    assert_eq!(Magnitude::parse("0"), Some(Magnitude::from_u128(0)));
    assert_eq!(Magnitude::parse("000"), Some(Magnitude::from_u128(0)));
    assert_eq!(Magnitude::parse(""), Some(Magnitude::from_u128(0)));
    assert_eq!(Magnitude::parse("1200"), Some(Magnitude::from_u128(1200)));
    assert_eq!(
        Magnitude::parse("340282366920938463463374607431768211455"),
        Some(Magnitude::from_u128(u128::MAX))
    );
    assert_eq!(Magnitude::from_u128(42).clone(), Magnitude::from_u128(42));
}

#[test]
fn parse_refuses_what_is_no_digit() {
    assert_eq!(Magnitude::parse("12a"), None);
    assert_eq!(Magnitude::parse("-1"), None);
    assert_eq!(Magnitude::parse(" 1"), None);
    assert_eq!(Magnitude::parse("１"), None);
}

#[test]
fn magnitudes_compare_as_numbers() {
    let m = |s: &str| Magnitude::parse(s).unwrap();
    assert_eq!(m("2").compare(&m("10")), Order::Less);
    assert_eq!(m("10").compare(&m("2")), Order::Greater);
    assert_eq!(m("10").compare(&m("010")), Order::Equal);
    assert_eq!(m("19").compare(&m("21")), Order::Less);
    assert_eq!(m("123").compare(&m("124")), Order::Less);
    assert_eq!(m("0").compare(&m("")), Order::Equal);
    assert_eq!(m("0").compare(&m("1")), Order::Less);
}

#[test]
fn magnitudes_have_no_upper_bound() {
    // Both numbers are above anything that 128 bits hold.
    let a = "340282366920938463463374607431768211456";
    let b = "340282366920938463463374607431768211457";
    let c = "1000000000000000000000000000000000000000000000000000000000000";
    let m = |s: &str| Magnitude::parse(s).unwrap();
    assert_eq!(m(a).compare(&m(b)), Order::Less);
    assert_eq!(m(b).compare(&m(a)), Order::Greater);
    assert_eq!(m(b).compare(&m(c)), Order::Less);
    assert_eq!(m(a).compare(&m(a)), Order::Equal);
    assert_eq!(Magnitude::from_u128(u128::MAX).compare(&m(a)), Order::Less);
    let x = format!("v{}", a);
    let y = format!("v{}", b);
    assert_eq!(NaturalOrderedStr::new(&x).cmp(&NaturalOrderedStr::new(&y)), Ordering::Less);
    assert_eq!(NaturalOrderedStr::new(&y).cmp(&NaturalOrderedStr::new(&x)), Ordering::Greater);
    let zeros = format!("v000{}", a);
    assert_eq!(NaturalOrderedStr::new(&zeros).cmp(&NaturalOrderedStr::new(&x)), Ordering::Equal);
}

#[test]
fn items_give_their_text_and_number() {
    let key = NaturalOrderedStr::new("ab012");
    let items = key.items();
    assert_eq!(items.len(), 2);
    assert_eq!(items[0].as_str(), "ab");
    assert_eq!(items[0].get_number(), None);
    assert_eq!(items[1].as_str(), "012");
    assert_eq!(items[1].get_number(), Some(&Magnitude::from_u128(12)));
    assert_eq!(items[1], NaturalOrderedStrItem::Number(Magnitude::from_u128(12), "012"));
    // The runs are slices of the string that was decomposed.
    let source = "ab012".to_string();
    let key = NaturalOrderedStr::new(&source);
    assert_eq!(key.items()[1].as_str().as_ptr(), source[2..].as_ptr());
}

#[test]
fn natural_order_scenarios() {
    let order = |a: &str, b: &str| NaturalOrderedStr::new(a).compare(&NaturalOrderedStr::new(b));
    assert_eq!(order("2", "10"), Order::Less);
    assert_eq!(order("007", "7"), Order::Equal);
    assert_eq!(order("a1b2c", "a1b2c3"), Order::Less);
    assert_eq!(order("", "a"), Order::Less);
    assert_eq!(order("abc1_", "abc10_"), Order::Less);
    assert_eq!("abc1_".cmp("abc10_"), Ordering::Greater);
    // A character that is no digit goes by its code point, against a digit
    // too.
    assert_eq!(order("a.", "a1"), Order::Less);
    assert_eq!(order("a_", "a1"), Order::Greater);
    assert_eq!(order("a1", "ab"), Order::Less);
    assert_eq!(order("x007y", "x7z"), Order::Less);
    assert_eq!(order("x007", "x7y"), Order::Less);
    assert_eq!(order("あ2", "あ10"), Order::Less);
}

#[test]
fn natural_order_is_a_total_order_on_samples() {
    let samples = [
        "", "a", "ab", "a1", "a01", "a1b", "a2", "a10", "1", "01", "10", "9", "_", ".", "a.", "a_",
        "b", "あ", "a1b2", "a1b10", "a01b2",
    ];
    let order = |a: &str, b: &str| NaturalOrderedStr::new(a).compare(&NaturalOrderedStr::new(b));
    let reverse = |o: Order| match o {
        Order::Less => Order::Greater,
        Order::Equal => Order::Equal,
        Order::Greater => Order::Less,
    };
    for a in samples {
        assert_eq!(order(a, a), Order::Equal);
        for b in samples {
            assert_eq!(order(b, a), reverse(order(a, b)));
            for c in samples {
                if order(a, b) != Order::Greater && order(b, c) != Order::Greater {
                    assert_ne!(order(a, c), Order::Greater);
                    if order(a, b) == Order::Less || order(b, c) == Order::Less {
                        assert_eq!(order(a, c), Order::Less);
                    }
                }
            }
        }
    }
}
