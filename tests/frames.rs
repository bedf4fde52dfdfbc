use streaker::frames::{Body, Frames};

#[test]
fn frames_test_new() {
    assert_eq!(Frames::new(&[0, 1, 2]).count(), 3);
}

#[test]
fn test_body() {
    assert_eq!(Frames::new(&[]).body(), Body::Contiguous);
    assert_eq!(Frames::new(&[1]).body(), Body::Contiguous);
    assert_eq!(Frames::new(&[0, 1]).body(), Body::Contiguous);
    assert_eq!(Frames::new(&[0, 3]).body(), Body::Contiguous);
    assert_eq!(Frames::new(&[2, 4]).body(), Body::Contiguous);
    assert_eq!(Frames::new(&[0, 1, 3]).body(), Body::Indirect);
    assert_eq!(Frames::new(&[0, 3, 7]).body(), Body::Indirect);
}

#[test]
fn test_skip() {
    assert_eq!(Frames::new(&[0]).skip(), Some(1));
    assert_eq!(Frames::new(&[1]).skip(), Some(1));
    assert_eq!(Frames::new(&[0, 1]).skip(), Some(1));
    assert_eq!(Frames::new(&[1, 2]).skip(), Some(1));
    assert_eq!(Frames::new(&[0, 2]).skip(), Some(2));
    assert_eq!(Frames::new(&[1, 4]).skip(), Some(3));
    assert_eq!(Frames::new(&[10, 20, 30]).skip(), Some(10));
    assert_eq!(Frames::new(&[]).skip(), None);
    assert_eq!(Frames::new(&[0, 1, 3]).skip(), None);
    assert_eq!(Frames::new(&[2, 4, 7]).skip(), None);
}

#[test]
fn test_first() {
    assert_eq!(Frames::new(&[]).first(), None);
    assert_eq!(Frames::new(&[0]).first(), Some(0));
    assert_eq!(Frames::new(&[0, 1]).first(), Some(0));
}

#[test]
fn test_last() {
    assert_eq!(Frames::new(&[]).last(), None);
    assert_eq!(Frames::new(&[0]).last(), Some(0));
    assert_eq!(Frames::new(&[0, 1]).last(), Some(1));
}

#[test]
fn frames_test_token() {
    assert_eq!(Frames::new(&[0]).token(), "0");
    assert_eq!(Frames::new(&[0, 1]).token(), "0-1");
    assert_eq!(Frames::new(&[2, 4]).count(), 2);
    // An evenly spaced set with a step above one carries its step.
    assert_eq!(Frames::new(&[2, 4]).token(), "2-4x2");
    assert_eq!(Frames::new(&[0, 1, 3]).token(), "0,1,3");
    assert_eq!(Frames::new(&[0, 1, 4, 8, 13]).token(), "0,1,4,8,13");
}

#[test]
fn frames_token_examples() {
    assert_eq!(Frames::new(&[5]).token(), "5");
    assert_eq!(Frames::new(&[2, 4]).skip(), Some(2));
    assert_eq!(Frames::new(&[2, 4]).token(), "2-4x2");
    assert_eq!(Frames::new(&[0, 1, 3]).token(), "0,1,3");
    assert_eq!(Frames::new(&[]).token(), "");
    assert_eq!(Frames::new(&[10, 20, 30]).token(), "10-30x10");
    assert_eq!(Frames::new(&[7, 8, 9]).token(), "7-9");
    assert_eq!(Frames::new(&[4294967295]).token(), "4294967295");
}

#[test]
fn frames_keep_ascending_order_without_repeats() {
    let frames = Frames::new(&[9, 3, 5, 3, 1]);
    assert_eq!(frames.frames(), &vec![1, 3, 5, 9]);
    assert!(frames.contains(5));
    assert!(!frames.contains(4));
}

#[test]
fn frames_insert_twice_keeps_size() {
    let mut frames = Frames::new(&[1, 2]);
    frames.insert(7);
    assert_eq!(frames.count(), 3);
    frames.insert(7);
    assert_eq!(frames.count(), 3);
    assert_eq!(frames.frames(), &vec![1, 2, 7]);
    frames.insert(0);
    assert_eq!(frames.frames(), &vec![0, 1, 2, 7]);
}
