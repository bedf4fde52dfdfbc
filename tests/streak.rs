use streaker::error::PatternError;
use streaker::frames::Frames;
use streaker::pattern::strip_padding;
use streaker::range::{Body, Range};
use streaker::streak::{consume, parse_padding, to_pattern, Streak};

#[test]
fn streak_test_consume_fill_ones() {
    let range = Range::new(1, 10, 1, Body::Fill).unwrap();
    let frames: Vec<u32> = vec![1, 2, 3, 4, 5, 6, 7, 8, 9];
    assert_eq!(consume(&range).frames(), &frames);
}

#[test]
fn streak_test_consume_fill_skip() {
    let range = Range::new(1, 10, 3, Body::Fill).unwrap();
    let frames: Vec<u32> = vec![1, 4, 7];
    assert_eq!(consume(&range).frames(), &frames);
}

#[test]
fn streak_test_consume_inverse_skip() {
    let range = Range::new(1, 10, 3, Body::Inverse).unwrap();
    let frames: Vec<u32> = vec![2, 3, 5, 6, 8, 9];
    assert_eq!(consume(&range).frames(), &frames);
}

#[test]
fn streak_test_streak_from_pattern_one() {
    let streak = Streak::from_pattern(&String::from("#3")).unwrap();
    let frames: Vec<u32> = vec![3];
    assert_eq!(streak.frames().frames(), &frames);
    assert_eq!(streak.padding(), 4);

    let streak = Streak::from_pattern(&String::from("@3")).unwrap();
    let frames: Vec<u32> = vec![3];
    assert_eq!(streak.frames().frames(), &frames);
    assert_eq!(streak.padding(), 1);
}

#[test]
fn streak_test_streak_from_pattern_range() {
    let streak = Streak::from_pattern(&String::from("#1-10")).unwrap();
    let frames: Vec<u32> = (1..10).collect();
    assert_eq!(streak.frames().frames(), &frames);
    assert_eq!(streak.padding(), 4);

    let streak = Streak::from_pattern(&String::from("@1-10")).unwrap();
    let frames: Vec<u32> = (1..10).collect();
    assert_eq!(streak.frames().frames(), &frames);
    assert_eq!(streak.padding(), 1);
}

#[test]
fn streak_test_streak_from_frames() {
    let frames: Vec<u32> = (1..10).collect();
    let padding: u32 = 4;
    let streak = Streak::from_frames(Frames::new(&frames), padding);
    assert_eq!(streak.frames().frames(), &frames);
    assert_eq!(streak.padding(), 4);
}

#[test]
fn streak_test_strip_padding() {
    let mut stripped = String::from("#");
    strip_padding(&mut stripped);
    assert_eq!(stripped, "");
    let mut stripped = String::from("@");
    strip_padding(&mut stripped);
    assert_eq!(stripped, "");
    let mut stripped = String::from("##");
    strip_padding(&mut stripped);
    assert_eq!(stripped, "");
    let mut stripped = String::from("@@");
    strip_padding(&mut stripped);
    assert_eq!(stripped, "");
    let mut stripped = String::from("#@");
    strip_padding(&mut stripped);
    assert_eq!(stripped, "");
    let mut stripped = String::from("@#");
    strip_padding(&mut stripped);
    assert_eq!(stripped, "");
    let mut stripped = String::from("");
    strip_padding(&mut stripped);
    assert_eq!(stripped, "");
    let mut stripped = String::from("asd");
    strip_padding(&mut stripped);
    assert_eq!(stripped, "asd");
    let mut stripped = String::from("#1-2");
    strip_padding(&mut stripped);
    assert_eq!(stripped, "1-2");
    let mut stripped = String::from("#1,3,7");
    strip_padding(&mut stripped);
    assert_eq!(stripped, "1,3,7");
}

#[test]
fn streak_test_to_pattern() {
    let frames: Vec<u32> = (1..10).collect();
    // Nine consecutive frames render as a plain range.
    assert_eq!(to_pattern(&Frames::new(&frames)), "1-9");
}

#[test]
fn decode_examples() {
    let frames = |p: &str| Streak::from_pattern(&String::from(p)).unwrap().frames().frames().clone();
    assert_eq!(frames("1-10"), vec![1, 2, 3, 4, 5, 6, 7, 8, 9]);
    assert_eq!(frames("1-10x3"), vec![1, 4, 7]);
    assert_eq!(frames("1-10y3"), vec![2, 3, 5, 6, 8, 9]);
    assert_eq!(frames("#1,3,7"), vec![1, 3, 7]);
    assert_eq!(frames("@7,3,3"), vec![3, 7]);
    assert_eq!(frames("@5-5x9"), vec![5]);
    assert_eq!(frames("@#"), Vec::<u32>::new());
    assert_eq!(frames(""), Vec::<u32>::new());
    let streak = Streak::from_pattern(&String::from("12")).unwrap();
    assert_eq!(streak.padding(), 0);
    assert_eq!(streak.name(), "");
    assert_eq!(streak.ext(), "");
}

#[test]
fn decode_errors() {
    let err = |p: &str| Streak::from_pattern(&String::from(p)).err();
    assert_eq!(err("@1-"), Some(PatternError::MalformedPattern));
    assert_eq!(err("@1,"), Some(PatternError::MalformedPattern));
    assert_eq!(err("@1,,2"), Some(PatternError::MalformedPattern));
    assert_eq!(err("1#"), Some(PatternError::MalformedPattern));
    assert_eq!(err("@a"), Some(PatternError::MalformedPattern));
    assert_eq!(err("@10-1"), Some(PatternError::InvertedRange));
    assert_eq!(err("@1-10y0"), Some(PatternError::InvalidStep));
}

#[test]
fn parse_padding_counts_every_marker() {
    assert_eq!(parse_padding(&String::from("#@1-10")), 5);
    assert_eq!(parse_padding(&String::from("1-10")), 0);
    assert_eq!(parse_padding(&String::from("##")), 8);
    assert_eq!(parse_padding(&String::from("1#")), 4);
    assert_eq!(parse_padding(&String::from("@1-1#0@")), 6);
}

#[test]
fn pattern_and_full_name() {
    let streak = Streak::new(
        String::from("shot"),
        String::from("png"),
        3,
        Frames::new(&[1, 2, 3]),
    );
    assert_eq!(streak.pattern(), "@@@1-3");
    assert_eq!(streak.full_name(), "shot.@@@1-3.png");
    let streak = Streak::from_frames(Frames::new(&[]), 4);
    assert_eq!(streak.pattern(), "#");
    let streak = Streak::from_frames(Frames::new(&[10, 20, 40]), 5);
    assert_eq!(streak.pattern(), "@#10,20,40");
}

#[test]
fn round_trip_list_and_single() {
    for (width, frames) in [(3u32, vec![0u32, 1, 3]), (4, vec![5]), (9, vec![2, 3, 5, 8, 13])] {
        let streak = Streak::from_frames(Frames::new(&frames), width);
        let back = Streak::from_pattern(&streak.pattern()).unwrap();
        assert_eq!(back.padding(), width);
        assert_eq!(back.frames().frames(), &frames);
    }
}

#[test]
fn streak_setters_and_matching() {
    let mut streak = Streak::new(String::from("a"), String::from("exr"), 2, Frames::new(&[4]));
    assert!(streak.is_match(&String::from("a"), &String::from("exr"), 2));
    assert!(streak.is_match(&String::from("a"), &String::from("exr"), 5));
    assert!(!streak.is_match(&String::from("a"), &String::from("exr"), 1));
    assert!(!streak.is_match(&String::from("b"), &String::from("exr"), 2));
    streak.frames_mut().insert(6);
    assert_eq!(streak.frames().frames(), &vec![4, 6]);
    streak.set_padding(1);
    assert_eq!(streak.padding(), 1);
    let wider = Streak::new(String::from("a"), String::from("exr"), 3, Frames::new(&[]));
    assert!(streak == wider);
    assert!(!(wider == streak));
}
