use std::rc::Rc;

use mail_codec_core::{InnerAscii, InnerUtf8};

#[test]
fn inner_ascii_item_eq() {
    let a = InnerAscii::Owned(String::from("same"));
    let b = InnerAscii::Shared(Rc::new(String::from("same")));
    assert_eq!(a, b);
}

#[test]
fn inner_ascii_item_neq() {
    let a = InnerAscii::Owned(String::from("same"));
    let b = InnerAscii::Shared(Rc::new(String::from("not same")));
    assert_ne!(a, b);
}

#[test]
fn inner_utf8_item_eq() {
    let a = InnerUtf8::Owned(String::from("same"));
    let b = InnerUtf8::Shared(Rc::new(String::from("same")));
    assert_eq!(a, b);
}

#[test]
fn inner_utf8_item_neq() {
    let a = InnerUtf8::Owned(String::from("same"));
    let b = InnerUtf8::Shared(Rc::new(String::from("not same")));
    assert_ne!(a, b);
}

#[test]
fn has_as_str() {
    assert_eq!("hy", InnerAscii::Owned("hy".to_owned()).as_str());
    assert_eq!("hy", InnerUtf8::Owned("hy".into()).as_str());
}

#[test]
fn shared_items_keep_their_text() {
    let a = InnerUtf8::new("Grüße".to_owned()).into_shared();
    assert!(matches!(a, InnerUtf8::Shared(_)));
    assert_eq!(a.as_str(), "Grüße");
    assert_eq!(a.clone().into_string(), "Grüße");
    let b = InnerAscii::new("atom".to_owned()).into_shared().into_shared();
    assert_eq!(b.into_string(), "atom");
}
