use pitagoecsvgen_core::magnitude::Magnitude;
use pitagoecsvgen_core::natural_ordered_str::{NaturalOrderedStr, NaturalOrderedStrItem};
use std::cmp::Ordering;

fn number(n: u128, s: &str) -> NaturalOrderedStrItem<'_> {
    NaturalOrderedStrItem::Number(Magnitude::from_u128(n), s)
}

#[test]
fn test_natural_ordered_str_new() {
    assert_eq!(NaturalOrderedStr::new("").items(), &vec![]);
    assert_eq!(NaturalOrderedStr::new("abc").items(), &vec![NaturalOrderedStrItem::String("abc")]);
    assert_eq!(
        NaturalOrderedStr::new("あいう").items(),
        &vec![NaturalOrderedStrItem::String("あいう")]
    );
    assert_eq!(
        NaturalOrderedStr::new("123abc").items(),
        &vec![number(123, "123"), NaturalOrderedStrItem::String("abc")]
    );
    assert_eq!(
        NaturalOrderedStr::new("abc123").items(),
        &vec![NaturalOrderedStrItem::String("abc"), number(123, "123")]
    );
    assert_eq!(
        NaturalOrderedStr::new("a1b2c3").items(),
        &vec![
            NaturalOrderedStrItem::String("a"),
            number(1, "1"),
            NaturalOrderedStrItem::String("b"),
            number(2, "2"),
            NaturalOrderedStrItem::String("c"),
            number(3, "3")
        ]
    );
    assert_eq!(
        NaturalOrderedStr::new("123あいう").items(),
        &vec![number(123, "123"), NaturalOrderedStrItem::String("あいう")]
    );
}

#[test]
fn test_natural_ordered_str_ordering() {
    assert_eq!("".cmp(""), Ordering::Equal);
    assert_eq!("a".cmp(""), Ordering::Greater);
    assert_eq!("".cmp("a"), Ordering::Less);
    assert_eq!(NaturalOrderedStr::new("").cmp(&NaturalOrderedStr::new("")), Ordering::Equal);
    assert_eq!(NaturalOrderedStr::new("a").cmp(&NaturalOrderedStr::new("")), Ordering::Greater);
    assert_eq!(NaturalOrderedStr::new("").cmp(&NaturalOrderedStr::new("a")), Ordering::Less);
    assert_eq!(NaturalOrderedStr::new("abc").cmp(&NaturalOrderedStr::new("abc")), Ordering::Equal);
    assert_eq!(NaturalOrderedStr::new("abc").cmp(&NaturalOrderedStr::new("ab")), Ordering::Greater);
    assert_eq!(NaturalOrderedStr::new("ab").cmp(&NaturalOrderedStr::new("abc")), Ordering::Less);
    assert_eq!(NaturalOrderedStr::new("a1b2c3").cmp(&NaturalOrderedStr::new("a1b2c3")), Ordering::Equal);
    assert_eq!(NaturalOrderedStr::new("a1b2c3").cmp(&NaturalOrderedStr::new("a1b2c")), Ordering::Greater);
    assert_eq!(NaturalOrderedStr::new("a1b2c").cmp(&NaturalOrderedStr::new("a1b2c3")), Ordering::Less);
    assert_eq!("10_abc".cmp("10_abc"), Ordering::Equal);
    assert_eq!("10_abc".cmp("1_abc"), Ordering::Less);
    assert_eq!("1_abc".cmp("10_abc"), Ordering::Greater);
    assert_eq!("abc10_".cmp("abc10_"), Ordering::Equal);
    assert_eq!("abc10_".cmp("abc1_"), Ordering::Less);
    assert_eq!("abc1_".cmp("abc10_"), Ordering::Greater);
    assert_eq!(NaturalOrderedStr::new("10_abc").cmp(&NaturalOrderedStr::new("10_abc")), Ordering::Equal);
    assert_eq!(NaturalOrderedStr::new("10_abc").cmp(&NaturalOrderedStr::new("1_abc")), Ordering::Greater);
    assert_eq!(NaturalOrderedStr::new("1_abc").cmp(&NaturalOrderedStr::new("10_abc")), Ordering::Less);
    assert_eq!(NaturalOrderedStr::new("abc10_").cmp(&NaturalOrderedStr::new("abc10_")), Ordering::Equal);
    assert_eq!(NaturalOrderedStr::new("abc10_").cmp(&NaturalOrderedStr::new("abc1_")), Ordering::Greater);
    assert_eq!(NaturalOrderedStr::new("abc1_").cmp(&NaturalOrderedStr::new("abc10_")), Ordering::Less);
}
