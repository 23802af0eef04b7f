use append_only_bytes::{AppendOnlyBytes, BytesSlice};
use loro_internal::string_slice::StringSlice;

#[test]
fn window_shows_its_text() {
    let mut bytes = AppendOnlyBytes::new();
    bytes.push_str("héllo wörld");
    let s = StringSlice::new(bytes.slice(0..6));
    assert_eq!(s.as_str(), "héllo");
    assert_eq!(s.to_string(), "héllo");
    assert_eq!(s.len_bytes(), 6);
    assert_eq!(s.len_unicode(), 5);
    assert_eq!(s.length(), 5);
    assert!(!s.is_empty());
    assert!(StringSlice::new(BytesSlice::empty()).is_empty());
    assert!(s.same_text(&StringSlice::from_str("héllo")));
    assert!(!s.same_text(&StringSlice::from_str("hello")));
    assert_eq!(s.clone_slice().as_str(), "héllo");
}

#[test]
fn window_on_invalid_utf8_is_refused() {
    assert!(StringSlice::try_new(BytesSlice::from_bytes(&[0x68, 0xff, 0x69])).is_none());
    assert!(StringSlice::try_new(BytesSlice::from_bytes(&[0xc3])).is_none());
    assert_eq!(StringSlice::try_new(BytesSlice::from_bytes("ok".as_bytes())).unwrap().as_str(), "ok");
}

#[test]
fn owned_text_takes_any_text_in() {
    let mut s = StringSlice::from_string(String::from("ab"));
    assert!(s.value_extend(StringSlice::from_str("cd")).is_ok());
    assert!(s.value_extend(StringSlice::new(BytesSlice::from_bytes("é".as_bytes()))).is_ok());
    assert_eq!(s.as_str(), "abcdé");
    assert_eq!(s.len_bytes(), 6);
    assert_eq!(s.len_unicode(), 5);
}

#[test]
fn window_takes_in_only_the_window_that_follows_it() {
    let mut bytes = AppendOnlyBytes::new();
    bytes.push_str("abcdef");
    let mut s = StringSlice::new(bytes.slice(0..2));
    assert!(s.value_extend(StringSlice::new(bytes.slice(2..4))).is_ok());
    assert_eq!(s.as_str(), "abcd");
    // not adjacent
    let back = s.value_extend(StringSlice::new(bytes.slice(5..6))).unwrap_err();
    assert_eq!(back.as_str(), "f");
    assert_eq!(s.as_str(), "abcd");
    // other shared bytes
    let back = s.value_extend(StringSlice::new(BytesSlice::from_bytes("ef".as_bytes()))).unwrap_err();
    assert_eq!(back.as_str(), "ef");
    // owned text
    let back = s.value_extend(StringSlice::from_str("ef")).unwrap_err();
    assert_eq!(back.as_str(), "ef");
    assert_eq!(s.as_str(), "abcd");
}

#[test]
fn take_cuts_between_characters() {
    let mut bytes = AppendOnlyBytes::new();
    bytes.push_str("aé😀z");
    let mut s = StringSlice::new(bytes.slice(..));
    let first = s.take(2);
    assert_eq!(first.as_str(), "aé");
    assert_eq!(s.as_str(), "😀z");
    assert_eq!(s.len_bytes(), 5);
    // the parts are still windows on the same bytes: they merge again
    let mut joined = first;
    assert!(joined.value_extend(s).is_ok());
    assert_eq!(joined.as_str(), "aé😀z");

    let mut owned = StringSlice::from_str("aé😀z");
    let first = owned.take(3);
    assert_eq!(first.as_str(), "aé😀");
    assert_eq!(owned.as_str(), "z");
    let none = owned.take(0);
    assert_eq!(none.as_str(), "");
    let all = owned.take(1);
    assert_eq!(all.as_str(), "z");
    assert!(owned.is_empty());
}

#[test]
fn take_of_a_window_gives_windows() {
    let mut bytes = AppendOnlyBytes::new();
    bytes.push_str("aé😀z");
    let mut s = StringSlice::new(bytes.slice(..));
    let mut first = s.take(3);
    assert_eq!(first.as_str(), "aé😀");
    assert_eq!(first.len_bytes(), 7);
    assert_eq!(s.as_str(), "z");
    // a window takes no text of its own in, so both parts are windows
    assert!(first.value_extend(StringSlice::from_str("x")).is_err());
    assert!(s.value_extend(StringSlice::from_str("x")).is_err());
    // at both ends of the text
    let mut whole = StringSlice::new(bytes.slice(..));
    let mut none = whole.take(0);
    assert!(none.is_empty());
    assert!(none.value_extend(StringSlice::from_str("x")).is_err());
    assert!(none.value_extend(whole.clone_slice()).is_ok());
    assert_eq!(none.as_str(), "aé😀z");
    let all = whole.take(4);
    assert_eq!(all.as_str(), "aé😀z");
    assert!(whole.is_empty());
    assert!(whole.value_extend(StringSlice::from_str("x")).is_err());
}

#[test]
fn utf8_of_a_window_is_tested() {
    assert!(StringSlice::is_valid_utf8(&BytesSlice::from_bytes("aé😀".as_bytes())));
    assert!(StringSlice::is_valid_utf8(&BytesSlice::empty()));
    assert!(!StringSlice::is_valid_utf8(&BytesSlice::from_bytes(&[0x61, 0xc3])));
    assert!(!StringSlice::is_valid_utf8(&BytesSlice::from_bytes(&[0xed, 0xa0, 0x80])));
    let mut bytes = AppendOnlyBytes::new();
    bytes.push_str("é");
    assert!(!StringSlice::is_valid_utf8(&bytes.slice(0..1)));
    assert!(StringSlice::is_valid_utf8(&bytes.slice(0..2)));
}
