use streaker::error::PatternError;
use streaker::pattern::{strip_padding, PatternRange};
use streaker::range::Body;

#[test]
fn test_patternrange_from_pattern_frame() {
    let range = PatternRange::from_pattern(&String::from("1"));
    assert!(range.is_ok());
    let range = range.unwrap();
    assert_eq!(*range.start(), 1);
    assert_eq!(*range.stop(), 1);
    assert_eq!(*range.body(), Body::Fill);
    assert_eq!(*range.step(), 1);
}

#[test]
fn test_patternrange_from_pattern_range() {
    let range = PatternRange::from_pattern(&String::from("1-10"));
    assert!(range.is_ok());
    let range = range.unwrap();
    assert_eq!(*range.start(), 1);
    assert_eq!(*range.stop(), 10);
    assert_eq!(*range.body(), Body::Fill);
    assert_eq!(*range.step(), 1);
}

#[test]
fn test_patternrange_from_pattern_full() {
    let range = PatternRange::from_pattern(&String::from("1-10x2"));
    assert!(range.is_ok());
    let range = range.unwrap();
    assert_eq!(*range.start(), 1);
    assert_eq!(*range.stop(), 10);
    assert_eq!(*range.body(), Body::Fill);
    assert_eq!(*range.step(), 2);

    let range = PatternRange::from_pattern(&String::from("5-15y3"));
    assert!(range.is_ok());
    let range = range.unwrap();
    assert_eq!(*range.start(), 5);
    assert_eq!(*range.stop(), 15);
    assert_eq!(*range.body(), Body::Inverse);
    assert_eq!(*range.step(), 3);
}

#[test]
fn test_patternrange_new() {
    assert!(PatternRange::new(1, 5, 1, Body::Fill).is_ok());
    assert!(PatternRange::new(3, 3, 1, Body::Fill).is_ok());
    assert!(PatternRange::new(5, 1, 1, Body::Fill).is_err());
}

#[test]
fn test_patternrange_get_begin() {
    let range = PatternRange::new(1, 10, 1, Body::Fill).unwrap();
    assert_eq!(*range.start(), 1);
}

#[test]
fn test_patternrange_get_end() {
    let range = PatternRange::new(1, 10, 1, Body::Fill).unwrap();
    assert_eq!(*range.stop(), 10);
}

#[test]
fn test_patternrange_get_skip() {
    let pattern = PatternRange::new(1, 10, 2, Body::Fill).unwrap();
    assert_eq!(pattern.step(), &2);
}

#[test]
fn test_patternrange_get_body() {
    let pattern = PatternRange::new(1, 10, 2, Body::Fill).unwrap();
    assert_eq!(*pattern.body(), Body::Fill);
    let pattern = PatternRange::new(1, 10, 2, Body::Inverse).unwrap();
    assert_eq!(*pattern.body(), Body::Inverse);
}

#[test]
fn pattern_test_strip_padding() {
    let mut stripped = String::from("#");
    strip_padding(&mut stripped);
    assert_eq!(stripped, "");
    let mut stripped = String::from("@");
    strip_padding(&mut stripped);
    assert_eq!(stripped, "");
    let mut stripped = String::from("##");
    strip_padding(&mut stripped);
    assert_eq!(stripped, "");
    let mut stripped = String::from("@@");
    strip_padding(&mut stripped);
    assert_eq!(stripped, "");
    let mut stripped = String::from("#@");
    strip_padding(&mut stripped);
    assert_eq!(stripped, "");
    let mut stripped = String::from("@#");
    strip_padding(&mut stripped);
    assert_eq!(stripped, "");
    let mut stripped = String::from("");
    strip_padding(&mut stripped);
    assert_eq!(stripped, "");
    let mut stripped = String::from("asd");
    strip_padding(&mut stripped);
    assert_eq!(stripped, "asd");
    let mut stripped = String::from("#1-2");
    strip_padding(&mut stripped);
    assert_eq!(stripped, "1-2");
    let mut stripped = String::from("#1,3,7");
    strip_padding(&mut stripped);
    assert_eq!(stripped, "1,3,7");
}

#[test]
fn patternrange_with_padding_and_errors() {
    let range = PatternRange::from_pattern(&String::from("##1-10y3")).unwrap();
    assert_eq!(*range.start(), 1);
    assert_eq!(*range.stop(), 10);
    assert_eq!(*range.body(), Body::Inverse);
    assert_eq!(*range.step(), 3);
    let err = |s: &str| PatternRange::from_pattern(&String::from(s)).err();
    assert_eq!(err("@9-2"), Some(PatternError::InvertedRange));
    assert_eq!(err("@2-9y0"), Some(PatternError::InvalidStep));
    assert_eq!(err("@two"), Some(PatternError::MalformedPattern));
    assert_eq!(PatternRange::new(1, 5, 0, Body::Fill).err(), Some(PatternError::InvalidStep));
}

#[test]
fn strip_padding_keeps_other_characters_in_order() {
    let mut s = String::from("a#b@c é#");
    strip_padding(&mut s);
    assert_eq!(s, "abc é");
}
