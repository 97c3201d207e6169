use addlists::aggregate::validation::{encode, truncate, validate};

#[test]
fn validation_test_decode_no_change() {
    assert_eq!("www.rust-lang.org", encode("www.rust-lang.org"));
}

#[test]
fn validation_test_encode() {
    assert_eq!(
        "www.xn--mller-brombel-rmb4fg.de",
        encode("www.müller-büromöbel.de")
    );
}

#[test]
fn validation_test_not_truncated() {
    assert_eq!(
        "www.rust-lang.org",
        truncate("www.rust-lang.org".to_owned()),
        "The should not be any changes!"
    );
}

#[test]
fn validation_test_truncate_port() {
    assert_eq!(
        "www.rust-lang.org",
        truncate("www.rust-lang.org:443".to_owned()),
        "The port was not cut off!"
    );
}

#[test]
fn validation_test_truncate_uri() {
    assert_eq!(
        "www.rust-lang.org",
        truncate("www.rust-lang.org/community".to_owned()),
        "The request uri was not cut off!"
    );
}

#[test]
fn validation_test_validate_valid() {
    assert_eq!(
        validate("rfc-1035.ietf.org"),
        Some("rfc-1035.ietf.org".to_owned()),
        "Rejected vaid domain!"
    );
}

#[test]
fn validation_test_validate_letter_or_digit() {
    assert_eq!(
        validate("rfc1035-.ietf.org"),
        None,
        "At least one label does not end with a letter or a digit!"
    );
}

#[test]
fn validation_test_validate_letter() {
    assert_eq!(
        validate("1035.ietf.org"),
        None,
        "Domain must start with a letter!"
    );
}

#[test]
fn validation_test_validate_letter1() {
    assert_eq!(
        validate("-1035.ietf.org"),
        None,
        "Domain must start with a letter!"
    );
}

#[test]
fn validation_test_validate_valid_chars() {
    assert_eq!(
        validate("rfc1035.?itf.org"),
        None,
        "Domain must only contain letters digits or hivens!"
    );
}

#[test]
fn validation_test_validate_short() {
    assert_eq!(
        validate(".org"),
        None,
        "Domains must be longer than 1 character!"
    );
}

#[test]
fn validation_test_validate_long() {
    assert_eq!(
        validate("rfc---------------------------------------------------------1035.ietf.org"),
        None,
        "Domains must be shorter than 64 character!"
    );
}
