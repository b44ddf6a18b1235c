use std::borrow::Cow;
use xmlpull::errors::Error;
use xmlpull::escape::{escape, unescape};
use xmlpull::events::Event;
use xmlpull::reader::Reader;

#[test]
fn text_without_ampersand_is_borrowed_as_it_is() {
    let input = b"plain <text> with ; and # but no reference";
    match unescape(input) {
        Ok(Cow::Borrowed(b)) => {
            assert_eq!(b, input);
            assert_eq!(b.as_ptr(), input.as_ptr());
        }
        other => panic!("unexpected {:?}", other),
    }
    assert!(matches!(unescape(b""), Ok(Cow::Borrowed(_))));
}

#[test]
fn text_with_a_reference_is_owned() {
    assert!(matches!(unescape(b"a&amp;b"), Ok(Cow::Owned(_))));
}

#[test]
fn the_five_predefined_entities() {
    assert_eq!(&*unescape(b"&lt;&gt;&amp;&apos;&quot;").unwrap(), b"<>&'\"");
    assert_eq!(&*unescape(b"a &lt; b &amp;&amp; c &gt; d").unwrap(), b"a < b && c > d");
}

#[test]
fn numeric_character_references() {
    assert_eq!(&*unescape(b"&#65;").unwrap(), b"A");
    assert_eq!(&*unescape(b"&#x41;&#x4a;&#x4A;").unwrap(), b"AJJ");
    assert_eq!(&*unescape(b"&#0065;").unwrap(), b"A");
    assert_eq!(&*unescape(b"&#233;").unwrap(), "\u{e9}".as_bytes());
    assert_eq!(&*unescape(b"&#x20AC;").unwrap(), "\u{20ac}".as_bytes());
    assert_eq!(&*unescape(b"&#x1F600;").unwrap(), "\u{1f600}".as_bytes());
    assert_eq!(&*unescape(b"&#x10FFFF;").unwrap(), "\u{10ffff}".as_bytes());
    assert_eq!(&*unescape(b"&#xD7FF;&#xE000;").unwrap(), "\u{d7ff}\u{e000}".as_bytes());
    assert_eq!(&*unescape(b"&#0;").unwrap(), b"\0");
}

#[test]
fn invalid_references() {
    for input in [
        &b"&unknown;"[..],
        &b"&amp"[..],
        &b"a & b"[..],
        &b"&;"[..],
        &b"&#;"[..],
        &b"&#x;"[..],
        &b"&#X41;"[..],
        &b"&#12a;"[..],
        &b"&#xD800;"[..],
        &b"&#xDFFF;"[..],
        &b"&#x110000;"[..],
        &b"&#99999999999999999999;"[..],
        &b"&LT;"[..],
        &b"ok &lt; then &nope;"[..],
    ] {
        assert_eq!(unescape(input), Err(Error::InvalidEscape), "{:?}", input);
    }
}

#[test]
fn escape_writes_the_five_special_bytes_as_entities() {
    assert_eq!(&*escape(b"<a href=\"x\">T&C's</a>"), &b"&lt;a href=&quot;x&quot;&gt;T&amp;C&apos;s&lt;/a&gt;"[..]);
    assert!(matches!(escape(b"nothing special"), Cow::Borrowed(_)));
    assert!(matches!(escape(b"a<b"), Cow::Owned(_)));
}

#[test]
fn unescape_undoes_escape() {
    let samples: [&[u8]; 7] = [
        b"",
        b"plain",
        b"<>&'\"",
        b"&amp; is not &lt;",
        b"a;b&#65;c",
        "caf\u{e9} \u{20ac} \u{1f600}".as_bytes(),
        b"\x00\xff\xfe&;",
    ];
    for s in samples {
        let escaped = escape(s).into_owned();
        assert_eq!(&*unescape(&escaped).unwrap(), s);
    }
    let all: Vec<u8> = (0u8..=255).collect();
    let escaped = escape(&all).into_owned();
    assert_eq!(unescape(&escaped).unwrap().into_owned(), all);
}

#[test]
fn references_at_the_edges_of_each_utf8_width() {
    for c in ['\0', 'A', '\u{7f}', '\u{80}', '\u{7ff}', '\u{800}', '\u{ffff}', '\u{10000}', '\u{10ffff}'] {
        let decimal = format!(">&#{};<", c as u32);
        let hex = format!(">&#x{:x};<", c as u32);
        let expected = format!(">{}<", c);
        assert_eq!(&*unescape(decimal.as_bytes()).unwrap(), expected.as_bytes());
        assert_eq!(&*unescape(hex.as_bytes()).unwrap(), expected.as_bytes());
    }
}

#[test]
fn unescaped_text_of_an_element() {
    let mut reader = Reader::from_bytes(b"<a>&amp;&#65;</a>");
    let mut scratch = Vec::new();
    assert!(matches!(reader.read_event(&mut scratch), Ok(Event::Start(_))));
    let decoder = reader.decoder();
    match reader.read_event(&mut scratch) {
        Ok(event) => {
            assert!(matches!(event, Event::Text(_)));
            assert_eq!(event.raw(), b"&amp;&#65;");
            assert_eq!(&*event.unescaped().unwrap(), b"&A");
            assert_eq!(event.unescape_and_decode(&decoder), Ok(format!("&A")));
        }
        other => panic!("unexpected {:?}", other),
    }
}

#[test]
fn unescape_errors_reach_the_event_accessors() {
    let mut reader = Reader::from_bytes(b"&bogus;");
    let mut scratch = Vec::new();
    let decoder = reader.decoder();
    let event = reader.read_event(&mut scratch).unwrap();
    assert_eq!(event.unescaped(), Err(Error::InvalidEscape));
    assert_eq!(event.unescape_and_decode(&decoder), Err(Error::InvalidEscape));
}
