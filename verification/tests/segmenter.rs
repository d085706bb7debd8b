use ginkou::segment::sentences;
use ginkou::segment::SentenceError;

#[test]
fn sentences_works_correctly() {
    let string = "A。\n  B。\n\n XXC。";
    let mut iter = sentences(string.as_bytes().to_vec());
    let a = iter.next();
    assert_eq!(String::from("A。"), a.unwrap().unwrap());
    let b = iter.next();
    assert_eq!(String::from("B。"), b.unwrap().unwrap());
    let c = iter.next();
    assert_eq!(String::from("XXC。"), c.unwrap().unwrap());
}

#[test]
fn sentences_without_interleaved_whitespace() {
    let string = "A。B。XXC。";
    let mut iter = sentences(string.as_bytes().to_vec());
    assert_eq!(String::from("A。"), iter.next().unwrap().unwrap());
    assert_eq!(String::from("B。"), iter.next().unwrap().unwrap());
    assert_eq!(String::from("XXC。"), iter.next().unwrap().unwrap());
    assert!(iter.next().is_none());
}

#[test]
fn trailing_partial_is_dropped() {
    let string = "A。leftover without delimiter";
    let mut iter = sentences(string.as_bytes().to_vec());
    assert_eq!(String::from("A。"), iter.next().unwrap().unwrap());
    assert!(iter.next().is_none());
    assert!(iter.next().is_none());
}

#[test]
fn whitespace_only_trailing_partial_is_dropped() {
    let string = "A。B。 \n\t ";
    let mut iter = sentences(string.as_bytes().to_vec());
    assert_eq!(String::from("A。"), iter.next().unwrap().unwrap());
    assert_eq!(String::from("B。"), iter.next().unwrap().unwrap());
    assert!(iter.next().is_none());
}

#[test]
fn consecutive_delimiters_yield_two_sentences() {
    let string = "A。。";
    let mut iter = sentences(string.as_bytes().to_vec());
    assert_eq!(String::from("A。"), iter.next().unwrap().unwrap());
    assert_eq!(String::from("。"), iter.next().unwrap().unwrap());
    assert!(iter.next().is_none());
}

#[test]
fn whitespace_before_first_delimiter_yields_bare_delimiter() {
    let string = " \n\u{3000} 。";
    let mut iter = sentences(string.as_bytes().to_vec());
    assert_eq!(String::from("。"), iter.next().unwrap().unwrap());
    assert!(iter.next().is_none());
}

#[test]
fn interior_unicode_whitespace_is_stripped() {
    let string = "A\u{00A0}\t B\u{3000}C。";
    let mut iter = sentences(string.as_bytes().to_vec());
    assert_eq!(String::from("ABC。"), iter.next().unwrap().unwrap());
    assert!(iter.next().is_none());
}

#[test]
fn empty_stream_yields_nothing() {
    let mut iter = sentences(Vec::new());
    assert!(iter.next().is_none());
}

#[test]
fn invalid_utf8_unit_is_reported_and_stream_goes_on() {
    let mut bytes: Vec<u8> = vec![0xFF, 0xFE];
    bytes.extend_from_slice("。B。".as_bytes());
    let mut iter = sentences(bytes);
    let first = iter.next().unwrap();
    assert_eq!(Err(SentenceError::Utf8), first);
    assert_eq!(String::from("B。"), iter.next().unwrap().unwrap());
    assert!(iter.next().is_none());
}

#[test]
fn mismatched_delimiter_prefix_restarts_matching() {
    // The first delimiter byte twice: the second occurrence resets the
    // matcher to zero, it does not restart it at one.
    let mut bytes: Vec<u8> = vec![0xE3, 0xE3, 0x80, 0x82];
    bytes.extend_from_slice("A。".as_bytes());
    let mut iter = sentences(bytes);
    let first = iter.next().unwrap();
    assert!(first.is_err());
    assert!(iter.next().is_none());
}
