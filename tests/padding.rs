use streaker::error::PatternError;
use streaker::padding::Padding;

#[test]
fn padding_test_new() {
    assert_eq!(Padding::new(0).value(), 0);
    assert_eq!(Padding::new(1).value(), 1);
}

#[test]
fn test_try_from() {
    // Good
    let padding = Padding::try_from("");
    assert!(padding.is_ok());
    assert_eq!(padding.unwrap().value(), 0);
    let padding = Padding::try_from("@");
    assert!(padding.is_ok());
    assert_eq!(padding.unwrap().value(), 1);
    let padding = Padding::try_from("#");
    assert!(padding.is_ok());
    assert_eq!(padding.unwrap().value(), 4);
    let padding = Padding::try_from("@#");
    assert!(padding.is_ok());
    assert_eq!(padding.unwrap().value(), 5);

    // Bad
    assert!(Padding::try_from("asd").is_err());
    assert!(Padding::try_from("1234").is_err());
    assert!(Padding::try_from("#d").is_err());
    assert!(Padding::try_from("@d").is_err());
    assert!(Padding::try_from("@#dasd_1").is_err());
}

#[test]
fn padding_test_token() {
    assert_eq!(Padding::new(1).token(), "@");
    assert_eq!(Padding::new(2).token(), "@@");
    assert_eq!(Padding::new(3).token(), "@@@");
    assert_eq!(Padding::new(4).token(), "#");
    assert_eq!(Padding::new(5).token(), "@#");
    assert_eq!(Padding::new(8).token(), "##");
    assert_eq!(Padding::new(9).token(), "@##");
    assert_eq!(Padding::new(0).token(), "@");
}

#[test]
fn padding_encode_examples() {
    assert_eq!(Padding::new(0).token(), "@");
    assert_eq!(Padding::new(4).token(), "#");
    assert_eq!(Padding::new(5).token(), "@#");
    assert_eq!(Padding::new(8).token(), "##");
    assert_eq!(Padding::new(7).token(), "@@@#");
    assert_eq!(Padding::new(12).token(), "###");
}

#[test]
fn padding_decode_empty_and_foreign() {
    assert_eq!(Padding::try_from("").unwrap().value(), 0);
    assert_eq!(Padding::try_from("asd").err(), Some(PatternError::InvalidToken));
    assert_eq!(Padding::try_from("##@@").unwrap().value(), 10);
    assert_eq!(Padding::try_from("é").err(), Some(PatternError::InvalidToken));
}

#[test]
fn padding_token_decodes_to_its_width() {
    for w in 1..40u32 {
        let token = Padding::new(w).token();
        assert_eq!(Padding::try_from(token.as_str()).unwrap().value(), w);
    }
}
