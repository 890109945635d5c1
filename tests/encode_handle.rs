use mail_codec_core::{
    ConditionalWriteResult, EncodingError, EncodingErrorKind, Encoder, MailType, Section,
    VecBodyBuf,
};

fn header_text(section: Section<VecBodyBuf>) -> String {
    String::from_utf8(section.unwrap_header()).unwrap()
}

#[test]
fn undo_does_undo() {
    let mut encoder = Encoder::<VecBodyBuf>::new(MailType::Ascii);
    {
        let mut handle = encoder.encode_handle();
        assert!(handle.write_str("Header-One: 12").is_ok());
        handle.undo_header();
    }
    let mut sections = encoder.into_sections();
    assert_eq!(sections.len(), 1);
    let last = header_text(sections.pop().unwrap());
    assert_eq!(last, String::from(""));
}

#[test]
fn undo_does_not_undo_to_much() {
    let mut encoder = Encoder::<VecBodyBuf>::new(MailType::Ascii);
    {
        let mut handle = encoder.encode_handle();
        assert!(handle.write_str("Header-One: 12").is_ok());
        handle.finish_header();
        assert!(handle.write_str("ups: sa").is_ok());
        handle.undo_header();
    }
    let mut sections = encoder.into_sections();
    assert_eq!(sections.len(), 1);
    let last = header_text(sections.pop().unwrap());
    assert_eq!(last, String::from("Header-One: 12\r\n"));
}

#[test]
fn finish_adds_crlf_if_needed() {
    let mut encoder = Encoder::<VecBodyBuf>::new(MailType::Ascii);
    {
        let mut handle = encoder.encode_handle();
        assert!(handle.write_str("Header-One: 12").is_ok());
        handle.finish_header();
    }
    let mut sections = encoder.into_sections();
    assert_eq!(sections.len(), 1);
    let last = header_text(sections.pop().unwrap());
    assert_eq!(last, String::from("Header-One: 12\r\n"));
}

#[test]
fn finish_does_not_add_crlf_if_not_needed() {
    let mut encoder = Encoder::<VecBodyBuf>::new(MailType::Ascii);
    {
        let mut handle = encoder.encode_handle();
        assert!(handle.write_str("Header-One: 12\r\n").is_ok());
        handle.finish_header();
    }
    let mut sections = encoder.into_sections();
    assert_eq!(sections.len(), 1);
    let last = header_text(sections.pop().unwrap());
    assert_eq!(last, String::from("Header-One: 12\r\n"));
}

#[test]
fn finish_does_truncat_if_needed() {
    let mut encoder = Encoder::<VecBodyBuf>::new(MailType::Ascii);
    {
        let mut handle = encoder.encode_handle();
        assert!(handle.write_str("Header-One: 12\r\n   ").is_ok());
        handle.finish_header();
    }
    let mut sections = encoder.into_sections();
    assert_eq!(sections.len(), 1);
    let last = header_text(sections.pop().unwrap());
    assert_eq!(last, String::from("Header-One: 12\r\n"));
}

#[test]
fn finish_can_handle_fws() {
    let mut encoder = Encoder::<VecBodyBuf>::new(MailType::Ascii);
    {
        let mut handle = encoder.encode_handle();
        assert!(handle.write_str("Header-One: 12 +\r\n 4").is_ok());
        handle.finish_header();
    }
    let mut sections = encoder.into_sections();
    assert_eq!(sections.len(), 1);
    let last = header_text(sections.pop().unwrap());
    assert_eq!(last, String::from("Header-One: 12 +\r\n 4\r\n"));
}

#[test]
fn finish_only_truncats_if_needed() {
    let mut encoder = Encoder::<VecBodyBuf>::new(MailType::Ascii);
    {
        let mut handle = encoder.encode_handle();
        assert!(handle.write_str("Header-One: 12 +\r\n 4  ").is_ok());
        handle.finish_header();
    }
    let mut sections = encoder.into_sections();
    assert_eq!(sections.len(), 1);
    let last = header_text(sections.pop().unwrap());
    assert_eq!(last, String::from("Header-One: 12 +\r\n 4  \r\n"));
}

#[test]
fn orphan_lf_error() {
    let mut encoder = Encoder::<VecBodyBuf>::new(MailType::Ascii);
    {
        let mut handle = encoder.encode_handle();
        assert!(handle.write_str("H: \na").is_err());
        handle.undo_header()
    }
}

#[test]
fn orphan_cr_error() {
    let mut encoder = Encoder::<VecBodyBuf>::new(MailType::Ascii);
    {
        let mut handle = encoder.encode_handle();
        assert!(handle.write_str("H: \ra").is_err());
        handle.undo_header()
    }
}

#[test]
fn orphan_trailing_lf() {
    let mut encoder = Encoder::<VecBodyBuf>::new(MailType::Ascii);
    {
        let mut handle = encoder.encode_handle();
        assert!(handle.write_str("H: a\n").is_err());
        handle.undo_header();
    }
}

#[test]
fn orphan_trailing_cr() {
    let mut encoder = Encoder::<VecBodyBuf>::new(MailType::Ascii);
    {
        let mut handle = encoder.encode_handle();
        assert!(handle.write_str("H: a\r").is_ok());
        handle.finish_header();
    }
    let mut sections = encoder.into_sections();
    assert_eq!(sections.len(), 1);
    let last = header_text(sections.pop().unwrap());
    assert_eq!(last, String::from("H: a\r\n"));
}

#[test]
fn break_line_on_fws() {
    let mut encoder = Encoder::<VecBodyBuf>::new(MailType::Ascii);
    {
        let mut handle = encoder.encode_handle();
        assert!(handle.write_str("A23456789:").is_ok());
        handle.mark_fws_pos();
        assert!(handle
            .write_str("20_345678930_345678940_345678950_345678960_345678970_345678912345678XX")
            .is_ok());
        handle.finish_header();
    }
    let mut sections = encoder.into_sections();
    assert_eq!(sections.len(), 1);
    let last = header_text(sections.pop().unwrap());
    assert_eq!(
        &*last,
        "A23456789:\r\n 20_345678930_345678940_345678950_345678960_345678970_345678912345678XX\r\n"
    );
}

#[test]
fn break_line_on_fws_does_not_insert_unessesary_space() {
    let mut encoder = Encoder::<VecBodyBuf>::new(MailType::Ascii);
    {
        let mut handle = encoder.encode_handle();
        assert!(handle.write_str("A23456789:").is_ok());
        handle.mark_fws_pos();
        assert!(handle
            .write_str("\t20_345678930_345678940_345678950_345678960_345678970_345678912345678XX")
            .is_ok());
        handle.finish_header();
    }
    let mut sections = encoder.into_sections();
    assert_eq!(sections.len(), 1);
    let last = header_text(sections.pop().unwrap());
    assert_eq!(
        &*last,
        "A23456789:\r\n\t20_345678930_345678940_345678950_345678960_345678970_345678912345678XX\r\n"
    );
}

#[test]
fn to_long_unbreakable_line() {
    let mut encoder = Encoder::<VecBodyBuf>::new(MailType::Ascii);
    {
        let mut handle = encoder.encode_handle();
        assert!(handle.write_str("A23456789:").is_ok());
        handle.mark_fws_pos();
        assert!(handle
            .write_str("10_345678920_345678930_345678940_345678950_345678960_345678970_345678980_345678990_345678900_3456789")
            .is_ok());
        handle.finish_header();
    }
    let mut sections = encoder.into_sections();
    assert_eq!(sections.len(), 1);
    let last = header_text(sections.pop().unwrap());
    assert_eq!(
        &*last,
        "A23456789:\r\n 10_345678920_345678930_345678940_345678950_345678960_345678970_345678980_345678990_345678900_3456789\r\n"
    );
}

#[test]
fn multiple_lines_breaks() {
    let mut encoder = Encoder::<VecBodyBuf>::new(MailType::Ascii);
    {
        let mut handle = encoder.encode_handle();
        assert!(handle.write_str("A23456789:").is_ok());
        handle.mark_fws_pos();
        assert!(handle
            .write_str("10_345678920_345678930_345678940_345678950_345678960_345678970_3456789")
            .is_ok());
        handle.mark_fws_pos();
        assert!(handle
            .write_str("10_345678920_345678930_345678940_3456789")
            .is_ok());
        handle.finish_header();
    }
    let mut sections = encoder.into_sections();
    assert_eq!(sections.len(), 1);
    let last = header_text(sections.pop().unwrap());
    assert_eq!(
        &*last,
        "A23456789:\r\n 10_345678920_345678930_345678940_345678950_345678960_345678970_3456789\r\n 10_345678920_345678930_345678940_3456789\r\n"
    );
}

#[test]
fn hard_line_limit() {
    let mut encoder = Encoder::<VecBodyBuf>::new(MailType::Ascii);
    {
        let mut handle = encoder.encode_handle();
        for x in 0..998 {
            if let Err(_) = handle.write_char('X') {
                panic!("error when writing char nr.: {:?}", x + 1)
            }
        }
        let res = &[
            handle.write_char('X').is_err(),
            handle.write_char('X').is_err(),
            handle.write_char('X').is_err(),
            handle.write_char('X').is_err(),
        ];
        assert_eq!(res, &[true, true, true, true]);
        handle.undo_header();
    }
}

#[test]
fn write_utf8_fail_on_ascii_mail() {
    let mut encoder = Encoder::<VecBodyBuf>::new(MailType::Ascii);
    {
        let mut handle = encoder.encode_handle();
        assert!(handle.write_utf8("↓").is_err());
        handle.undo_header();
    }
}

#[test]
fn write_utf8_ascii_string_fail_on_ascii_mail() {
    let mut encoder = Encoder::<VecBodyBuf>::new(MailType::Ascii);
    {
        let mut handle = encoder.encode_handle();
        assert!(handle.write_utf8("just_ascii").is_err());
        handle.undo_header();
    }
}

#[test]
fn write_utf8_ok_on_internationalized_mail() {
    let mut encoder = Encoder::<VecBodyBuf>::new(MailType::Internationalized);
    {
        let mut handle = encoder.encode_handle();
        assert!(handle.write_utf8("❤").is_ok());
        handle.finish_header();
    }
    let mut sections = encoder.into_sections();
    assert_eq!(sections.len(), 1);
    let last = header_text(sections.pop().unwrap());
    assert_eq!(last, String::from("❤\r\n"));
}

#[test]
fn try_write_atext_ascii() {
    let mut encoder = Encoder::<VecBodyBuf>::new(MailType::Ascii);
    {
        let mut handle = encoder.encode_handle();
        assert!(handle
            .write_if_atext("hoho")
            .handle_condition_failure(|| panic!("no condition failur expected"))
            .is_ok());
        let mut had_cond_failure = false;
        assert!(handle
            .write_if_atext("a(b")
            .handle_condition_failure(|| {
                had_cond_failure = true;
                Ok(())
            })
            .is_ok());
        assert!(had_cond_failure);
        assert!(handle
            .write_if_atext("")
            .handle_condition_failure(|| panic!("no condition failur expected"))
            .is_ok());
        handle.finish_header();
    }
    let mut sections = encoder.into_sections();
    assert_eq!(sections.len(), 1);
    let last = header_text(sections.pop().unwrap());
    assert_eq!(last, String::from("hoho\r\n"));
}

#[test]
fn try_write_atext_internationalized() {
    let mut encoder = Encoder::<VecBodyBuf>::new(MailType::Internationalized);
    {
        let mut handle = encoder.encode_handle();
        assert!(handle
            .write_if_atext("hoho")
            .handle_condition_failure(|| panic!("no condition failur expected"))
            .is_ok());
        let mut had_cond_failure = false;
        assert!(handle
            .write_if_atext("a(b")
            .handle_condition_failure(|| {
                had_cond_failure = true;
                Ok(())
            })
            .is_ok());
        assert!(had_cond_failure);
        assert!(handle
            .write_if_atext("❤")
            .handle_condition_failure(|| panic!("no condition failur expected"))
            .is_ok());
        handle.finish_header();
    }
    let mut sections = encoder.into_sections();
    assert_eq!(sections.len(), 1);
    let last = header_text(sections.pop().unwrap());
    assert_eq!(last, String::from("hoho❤\r\n"));
}

#[test]
fn multiple_finish_calls_are_ok() {
    let mut encoder = Encoder::<VecBodyBuf>::new(MailType::Internationalized);
    {
        let mut handle = encoder.encode_handle();
        assert!(handle
            .write_if_atext("hoho")
            .handle_condition_failure(|| panic!("no condition failur expected"))
            .is_ok());
        let mut had_cond_failure = false;
        assert!(handle
            .write_if_atext("a(b")
            .handle_condition_failure(|| {
                had_cond_failure = true;
                Ok(())
            })
            .is_ok());
        assert!(had_cond_failure);
        assert!(handle
            .write_if_atext("❤")
            .handle_condition_failure(|| panic!("no condition failur expected"))
            .is_ok());
        handle.finish_header();
        handle.finish_header();
        handle.finish_header();
        handle.finish_header();
    }
    let mut sections = encoder.into_sections();
    assert_eq!(sections.len(), 1);
    let last = header_text(sections.pop().unwrap());
    assert_eq!(last, String::from("hoho❤\r\n"));
}

#[test]
fn multiple_finish_and_undo_calls() {
    let mut encoder = Encoder::<VecBodyBuf>::new(MailType::Internationalized);
    {
        let mut handle = encoder.encode_handle();
        assert!(handle
            .write_if_atext("hoho")
            .handle_condition_failure(|| panic!("no condition failur expected"))
            .is_ok());
        handle.undo_header();
        handle.finish_header();
        handle.undo_header();
        handle.undo_header();
    }
    let mut sections = encoder.into_sections();
    assert_eq!(sections.len(), 1);
    let last = header_text(sections.pop().unwrap());
    assert_eq!(last, String::from(""));
}

#[test]
fn header_body_header() {
    let mut encoder = Encoder::<VecBodyBuf>::new(MailType::Internationalized);
    {
        let mut handle = encoder.encode_handle();
        assert!(handle.write_utf8("H: yay").is_ok());
        handle.finish_header();
    }
    let body = VecBodyBuf((0..3u8).collect());
    encoder.add_body(body.clone());
    {
        let mut handle = encoder.encode_handle();
        assert!(handle.write_utf8("❤").is_ok());
        handle.finish_header();
    }
    let mut sections = encoder.into_sections();
    assert_eq!(sections.len(), 3);
    let last = header_text(sections.pop().unwrap());
    assert_eq!(last, String::from("❤\r\n"));
    let last = sections.pop().unwrap().unwrap_body();
    assert_eq!(last, body);
    let last = header_text(sections.pop().unwrap());
    assert_eq!(last, String::from("H: yay\r\n"));
}

#[test]
fn has_unfinished_parts() {
    let mut encoder = Encoder::<VecBodyBuf>::new(MailType::Internationalized);
    {
        let mut handle = encoder.encode_handle();
        assert!(handle.write_utf8("Abc:").is_ok());
        assert!(handle.has_unfinished_parts());
        handle.undo_header();
        assert!(!handle.has_unfinished_parts());
        assert!(handle.write_utf8("Abc: c").is_ok());
        assert!(handle.has_unfinished_parts());
        handle.finish_header();
        assert!(!handle.has_unfinished_parts());
    }
}

#[test]
fn drop_without_write_is_ok() {
    let mut encoder = Encoder::<VecBodyBuf>::new(MailType::Ascii);
    let handle = encoder.encode_handle();
    std::mem::drop(handle)
}

#[test]
fn drop_after_undo_is_ok() {
    let mut encoder = Encoder::<VecBodyBuf>::new(MailType::Ascii);
    let mut handle = encoder.encode_handle();
    assert!(handle.write_str("Header-One").is_ok());
    handle.undo_header();
    std::mem::drop(handle);
}

#[test]
fn drop_after_finish_is_ok() {
    let mut encoder = Encoder::<VecBodyBuf>::new(MailType::Ascii);
    let mut handle = encoder.encode_handle();
    assert!(handle.write_str("Header-One: 12").is_ok());
    handle.finish_header();
    std::mem::drop(handle);
}

#[test]
fn douple_write_fws() {
    let mut encoder = Encoder::<VecBodyBuf>::new(MailType::Internationalized);
    let res = encoder.write_header_line(|hdl| {
        hdl.write_fws();
        hdl.write_fws();
        Ok(())
    });
    assert!(res.is_ok());
    assert_eq!(encoder.into_sections(), vec![Section::Text("".to_owned().into_bytes())])
}

#[test]
fn douple_write_fws_then_long_line() {
    let long_line = "10_345678920_345678930_345678940_345678950_345678960_345678970_345678980_3456789";
    let mut encoder = Encoder::<VecBodyBuf>::new(MailType::Internationalized);
    let res = encoder.write_header_line(|hdl| {
        hdl.write_fws();
        hdl.write_fws();
        hdl.write_utf8(long_line)?;
        Ok(())
    });
    assert!(res.is_ok());
    assert_eq!(
        encoder.into_sections(),
        vec![Section::Text(format!("  {}\r\n", long_line).into_bytes())]
    )
}

#[test]
fn with_handle_on_error() {
    let mut encoder = Encoder::<VecBodyBuf>::new(MailType::Internationalized);
    let res = encoder.write_header_line(|hdl| {
        hdl.write_utf8("some partial writes")?;
        Err(EncodingErrorKind::Other { kind: "error ;=)" }.into())
    });
    assert!(res.is_err());
    assert_eq!(encoder.into_sections(), vec![Section::Text("".to_owned().into_bytes())]);
}

#[test]
fn with_handle_partial_writes() {
    let mut encoder = Encoder::<VecBodyBuf>::new(MailType::Internationalized);
    let res = encoder.write_header_line(|hdl| hdl.write_utf8("X-A: 12"));
    assert!(res.is_ok());
    assert_eq!(encoder.into_sections(), vec![Section::Text("X-A: 12\r\n".to_owned().into_bytes())])
}

#[test]
fn with_handle_ok() {
    let mut encoder = Encoder::<VecBodyBuf>::new(MailType::Internationalized);
    let res = encoder.write_header_line(|hdl| {
        hdl.write_utf8("X-A: 12")?;
        hdl.finish_header();
        Ok(())
    });
    assert!(res.is_ok());
    assert_eq!(encoder.into_sections(), vec![Section::Text("X-A: 12\r\n".to_owned().into_bytes())])
}

#[test]
fn write_if_utf8_needs_internationalized_mail() {
    let mut encoder = Encoder::<VecBodyBuf>::new(MailType::Mime8BitEnabled);
    {
        let mut handle = encoder.encode_handle();
        let res = handle.write_if_utf8("é");
        assert!(matches!(res, ConditionalWriteResult::ConditionFailure));
        assert!(!handle.has_unfinished_parts());
    }
    let mut encoder = Encoder::<VecBodyBuf>::new(MailType::Internationalized);
    {
        let mut handle = encoder.encode_handle();
        let res = handle.write_if_utf8("é");
        assert!(matches!(res, ConditionalWriteResult::Success));
        handle.finish_header();
    }
    assert_eq!(encoder.to_string().unwrap(), "é\r\n");
}

#[test]
fn write_if_follows_condition() {
    let mut encoder = Encoder::<VecBodyBuf>::new(MailType::Ascii);
    {
        let mut handle = encoder.encode_handle();
        assert!(matches!(handle.write_if("abc", |s| s.len() == 3), ConditionalWriteResult::Success));
        assert!(matches!(
            handle.write_if("abcd", |s| s.len() == 3),
            ConditionalWriteResult::ConditionFailure
        ));
        let res = handle.write_if("\nx", |_| true);
        match res {
            ConditionalWriteResult::GeneralFailure(e) => {
                assert_eq!(e.kind(), EncodingErrorKind::Malformed)
            }
            _ => panic!("expected a general failure"),
        }
        handle.finish_header();
    }
    assert_eq!(encoder.to_vec().unwrap(), b"abc\r\n".to_vec());
}

#[test]
fn condition_failure_runs_fallback_general_failure_passes_error() {
    let mut ran = false;
    let res = ConditionalWriteResult::ConditionFailure.handle_condition_failure(|| {
        ran = true;
        Err(EncodingError::from(EncodingErrorKind::Other { kind: "fallback" }))
    });
    assert!(ran);
    assert_eq!(res.unwrap_err().kind(), EncodingErrorKind::Other { kind: "fallback" });
    let res = ConditionalWriteResult::GeneralFailure(EncodingError::from(
        EncodingErrorKind::HardLineLengthLimitBreached,
    ))
    .handle_condition_failure(|| panic!("fallback must not run"));
    assert_eq!(res.unwrap_err().kind(), EncodingErrorKind::HardLineLengthLimitBreached);
}
