use mail_codec_core::{HeaderName, HeaderNameError};

#[test]
fn valide_header_names() {
    let valid_cases = &[
        "Date",
        "Some-Header",
        "33",
        "Some34",
        "-33-",
        "---",
        "<3+Who-Cares&44",
        "(3*4=12)^[{~}]",
    ];
    for case in valid_cases.iter() {
        assert!(HeaderName::validate_name(case).is_ok(), "{}", case);
    }
}

#[test]
fn invalide_header_names() {
    let invalid_cases = &[
        "ID",
        "DaD",
        "ans",
        "all-lower-calse",
        "ALL-UPPER-CASE",
        "",
        "a:b",
        ":",
        "-:-",
        "Message Id",
        " Leading-Ws",
        "Message\tId",
        "Null\0Msg",
    ];
    for case in invalid_cases.iter() {
        assert!(HeaderName::validate_name(case).is_err(), "{}", case);
    }
}

#[test]
fn header_name_error_kinds() {
    assert_eq!(
        HeaderName::validate_name(""),
        Err(HeaderNameError::InvalidHeaderName(String::new()))
    );
    assert_eq!(
        HeaderName::validate_name("Message Id"),
        Err(HeaderNameError::InvalidHeaderName("Message Id".to_owned()))
    );
    assert_eq!(
        HeaderName::validate_name("Message-ID"),
        Err(HeaderNameError::RejectedHeaderNameSchema("Message-ID".to_owned()))
    );
    // the first flaw decides: the schema breaks before the space
    assert_eq!(
        HeaderName::validate_name("ab c"),
        Err(HeaderNameError::RejectedHeaderNameSchema("ab c".to_owned()))
    );
}

#[test]
fn header_name_new_and_as_str() {
    let name = HeaderName::new("Message-Id").unwrap();
    assert_eq!(name.as_str(), "Message-Id");
    assert!(HeaderName::new("message-id").is_err());
    assert_eq!(HeaderName::from_ascii_unchecked("X-ANY").as_str(), "X-ANY");
}
