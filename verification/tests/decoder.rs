use xmlpull::decoder::{eq_ignore_case, Decoder};
use xmlpull::errors::Error;

#[test]
fn utf8_is_decoded() {
    let decoder = Decoder::utf8();
    assert!(decoder.is_supported());
    assert_eq!(decoder.decode(b""), Ok(String::new()));
    assert_eq!(decoder.decode(b"plain"), Ok(format!("plain")));
    assert_eq!(decoder.decode(b"caf\xc3\xa9 \xe2\x82\xac \xf0\x9f\x98\x80"), Ok(format!("caf\u{e9} \u{20ac} \u{1f600}")));
    assert_eq!(decoder.decode(b"caf\xc3\xa9").unwrap().chars().count(), 4);
}

#[test]
fn bytes_that_are_not_utf8_are_an_error() {
    let decoder = Decoder::utf8();
    for bytes in [&b"\xff"[..], &b"a\xc3"[..], &b"\xed\xa0\x80"[..], &b"\xc0\x80"[..], &b"\xf4\x90\x80\x80"[..]] {
        assert_eq!(decoder.decode(bytes), Err(Error::UnsupportedEncoding), "{:?}", bytes);
    }
}

#[test]
fn encoding_labels() {
    for label in [&b"UTF-8"[..], b"utf-8", b"Utf8", b"us-ascii", b"ASCII"] {
        assert!(Decoder::for_label(label).is_supported(), "{:?}", label);
    }
    for label in [&b"ISO-8859-1"[..], b"UTF-16", b"", b"utf-8 ", b"utf_8"] {
        let decoder = Decoder::for_label(label);
        assert!(!decoder.is_supported(), "{:?}", label);
        assert_eq!(decoder.decode(b"x"), Err(Error::UnsupportedEncoding));
    }
}

#[test]
fn comparison_up_to_case() {
    assert!(eq_ignore_case(b"DocType", b"DOCTYPE"));
    assert!(eq_ignore_case(b"", b""));
    assert!(!eq_ignore_case(b"a", b"ab"));
    assert!(!eq_ignore_case(b"[", b"{"));
    assert!(!eq_ignore_case(b"@", b"`"));
}
