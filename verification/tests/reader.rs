use xmlpull::errors::Error;
use xmlpull::events::Event;
use xmlpull::reader::{is_blank_text, Reader};

fn show(event: &Event) -> String {
    let text = |b: &[u8]| String::from_utf8_lossy(b).into_owned();
    match event {
        Event::Start(e) => format!("Start({})", text(e.name())),
        Event::End(e) => format!("End({})", text(e.name())),
        Event::Empty(e) => format!("Empty({})", text(e.name())),
        Event::Text(e) => format!("Text({})", text(e.raw())),
        Event::CData(e) => format!("CData({})", text(e.raw())),
        Event::Comment(e) => format!("Comment({})", text(e.raw())),
        Event::ProcessingInstruction(e) => format!("PI({})", text(e.raw())),
        Event::DocTypeDecl(e) => format!("DocType({})", text(e.raw())),
        Event::Eof => format!("Eof"),
    }
}

fn drain(reader: &mut Reader) -> (Vec<String>, Option<Error>) {
    let mut scratch = Vec::new();
    let mut seen = Vec::new();
    loop {
        match reader.read_event(&mut scratch) {
            Ok(event) => {
                seen.push(show(&event));
                if event == Event::Eof {
                    return (seen, None);
                }
            }
            Err(e) => return (seen, Some(e)),
        }
    }
}

fn events(input: &[u8]) -> Vec<String> {
    let mut reader = Reader::from_bytes(input);
    let (seen, error) = drain(&mut reader);
    assert_eq!(error, None);
    seen
}

#[test]
fn nested_elements_with_text_and_attribute() {
    let input = b"<a x=\"1\"><b>hi</b></a>";
    assert_eq!(events(input), vec!["Start(a)", "Start(b)", "Text(hi)", "End(b)", "End(a)", "Eof"]);

    let mut reader = Reader::from_bytes(input);
    let mut scratch = Vec::new();
    match reader.read_event(&mut scratch) {
        Ok(Event::Start(e)) => {
            assert_eq!(e.name(), b"a");
            assert_eq!(e.raw(), b"a x=\"1\"");
            let mut attrs = e.attributes();
            let first = attrs.next().unwrap().unwrap();
            assert_eq!(first.key, b"x");
            assert_eq!(first.value, b"1");
            assert!(attrs.next().is_none());
        }
        other => panic!("unexpected {:?}", other),
    }
}

#[test]
fn self_closing_tag_plain_and_expanded() {
    let mut plain = Reader::from_bytes(b"<a/>");
    plain.expand_empty_elements(false);
    assert_eq!(drain(&mut plain), (vec![format!("Empty(a)"), format!("Eof")], None));

    let mut expanded = Reader::from_bytes(b"<a/>");
    expanded.expand_empty_elements(true);
    assert_eq!(
        drain(&mut expanded),
        (vec![format!("Start(a)"), format!("End(a)"), format!("Eof")], None)
    );
}

#[test]
fn expanded_tag_keeps_its_attributes_and_depth() {
    let mut reader = Reader::from_bytes(b"<r><a k='v'/></r>");
    reader.expand_empty_elements(true);
    let mut scratch = Vec::new();
    assert!(matches!(reader.read_event(&mut scratch), Ok(Event::Start(_))));
    match reader.read_event(&mut scratch) {
        Ok(Event::Start(e)) => {
            assert_eq!(e.name(), b"a");
            assert_eq!(e.try_get_attribute(b"k").unwrap().unwrap().value, b"v");
        }
        other => panic!("unexpected {:?}", other),
    }
    assert_eq!(reader.depth(), 2);
    match reader.read_event(&mut scratch) {
        Ok(Event::End(e)) => assert_eq!(e.name(), b"a"),
        other => panic!("unexpected {:?}", other),
    }
    assert_eq!(reader.depth(), 1);
}

#[test]
fn mismatched_end_tag_is_reported_where_it_stands() {
    let mut reader = Reader::from_bytes(b"<a><b></a>");
    reader.check_end_names(true);
    let mut scratch = Vec::new();
    assert!(matches!(reader.read_event(&mut scratch), Ok(Event::Start(_))));
    assert!(matches!(reader.read_event(&mut scratch), Ok(Event::Start(_))));
    assert_eq!(reader.read_event(&mut scratch), Err(Error::TagMismatch));
    assert_eq!(reader.buffer_position(), 6);
    assert_eq!(reader.read_event(&mut scratch), Err(Error::TagMismatch));
    assert_eq!(reader.buffer_position(), 6);
}

#[test]
fn mismatched_end_tag_unchecked_reports_the_open_name() {
    let mut reader = Reader::from_bytes(b"<a><b></a>");
    reader.check_end_names(false);
    let mut scratch = Vec::new();
    assert!(matches!(reader.read_event(&mut scratch), Ok(Event::Start(_))));
    assert!(matches!(reader.read_event(&mut scratch), Ok(Event::Start(_))));
    match reader.read_event(&mut scratch) {
        Ok(Event::End(e)) => assert_eq!(e.name(), b"b"),
        other => panic!("unexpected {:?}", other),
    }
    assert_eq!(reader.depth(), 1);
    assert_eq!(reader.read_event(&mut scratch), Ok(Event::Eof));
}

#[test]
fn end_tag_without_open_element() {
    let mut checked = Reader::from_bytes(b"</a>");
    assert_eq!(drain(&mut checked), (vec![], Some(Error::TagMismatch)));

    let mut unchecked = Reader::from_bytes(b"</a>");
    unchecked.check_end_names(false);
    assert_eq!(drain(&mut unchecked), (vec![format!("End(a)"), format!("Eof")], None));
}

#[test]
fn end_tag_may_hold_white_space_behind_the_name() {
    assert_eq!(events(b"<a></a \n>"), vec!["Start(a)", "End(a)", "Eof"]);
}

#[test]
fn every_start_has_its_end_at_the_same_depth() {
    let mut reader = Reader::from_bytes(b"<a><b><c/></b><b>t</b></a>");
    let mut scratch = Vec::new();
    let mut stack: Vec<Vec<u8>> = Vec::new();
    loop {
        match reader.read_event(&mut scratch).unwrap() {
            Event::Start(e) => stack.push(e.name().to_vec()),
            Event::End(e) => assert_eq!(stack.pop().unwrap(), e.name()),
            Event::Eof => break,
            _ => {}
        }
        assert_eq!(stack.len(), reader.depth());
    }
    assert!(stack.is_empty());
}

#[test]
fn trim_text_leaves_out_blank_text_only() {
    let input = b"<a> \n <b/>\t x </a>";
    assert_eq!(
        events(input),
        vec!["Start(a)", "Text( \n )", "Empty(b)", "Text(\t x )", "End(a)", "Eof"]
    );
    let mut reader = Reader::from_bytes(input);
    reader.trim_text(true);
    assert_eq!(
        drain(&mut reader).0,
        vec!["Start(a)", "Empty(b)", "Text(\t x )", "End(a)", "Eof"]
    );
}

#[test]
fn trim_text_never_leaves_out_character_data() {
    let mut reader = Reader::from_bytes(b"<a>  <![CDATA[  ]]>  </a>  ");
    reader.trim_text(true);
    assert_eq!(drain(&mut reader), (vec![
        format!("Start(a)"),
        format!("CData(  )"),
        format!("End(a)"),
        format!("Eof"),
    ], None));
}

#[test]
fn line_ends_are_normalized_into_the_scratch_buffer() {
    let mut reader = Reader::from_bytes(b"<a>x\r\ny\rz\n</a>");
    let mut scratch = Vec::new();
    assert!(matches!(reader.read_event(&mut scratch), Ok(Event::Start(_))));
    match reader.read_event(&mut scratch) {
        Ok(Event::Text(t)) => assert_eq!(t.raw(), b"x\ny\nz\n"),
        other => panic!("unexpected {:?}", other),
    }
    assert_eq!(scratch, b"x\ny\nz\n");
}

#[test]
fn lone_carriage_return_at_the_end_of_text() {
    let mut reader = Reader::from_bytes(b"a\r<b/>");
    let mut scratch = Vec::new();
    match reader.read_event(&mut scratch) {
        Ok(Event::Text(t)) => assert_eq!(t.raw(), b"a\n"),
        other => panic!("unexpected {:?}", other),
    }
}

#[test]
fn text_without_carriage_return_leaves_scratch_alone() {
    let mut reader = Reader::from_bytes(b"plain<a/>");
    let mut scratch = vec![1u8, 2, 3];
    match reader.read_event(&mut scratch) {
        Ok(Event::Text(t)) => assert_eq!(t.raw(), b"plain"),
        other => panic!("unexpected {:?}", other),
    }
    assert_eq!(scratch, vec![1u8, 2, 3]);
}

#[test]
fn comments_and_the_double_hyphen() {
    assert_eq!(events(b"<!-- a - b -->"), vec!["Comment( a - b )", "Eof"]);
    assert_eq!(events(b"<!---->"), vec!["Comment()", "Eof"]);

    let mut strict = Reader::from_bytes(b"<!-- a -- b -->");
    assert_eq!(drain(&mut strict), (vec![], Some(Error::InvalidComment)));

    let mut dash_before_end = Reader::from_bytes(b"<!--a--->");
    assert_eq!(drain(&mut dash_before_end), (vec![], Some(Error::InvalidComment)));

    let mut relaxed = Reader::from_bytes(b"<!-- a -- b -->");
    relaxed.check_comments(false);
    assert_eq!(drain(&mut relaxed), (vec![format!("Comment( a -- b )"), format!("Eof")], None));
}

#[test]
fn character_data_is_literal() {
    assert_eq!(events(b"<a><![CDATA[<x>&amp;]]></a>"), vec![
        "Start(a)",
        "CData(<x>&amp;)",
        "End(a)",
        "Eof"
    ]);
    let mut reader = Reader::from_bytes(b"<![CDATA[&amp;]]>");
    let mut scratch = Vec::new();
    let event = reader.read_event(&mut scratch).unwrap();
    assert_eq!(&*event.unescaped().unwrap(), b"&amp;");
}

#[test]
fn processing_instruction_and_document_type() {
    assert_eq!(
        events(b"<?xml version=\"1.0\"?><!DOCTYPE a [<!ELEMENT a (#PCDATA)>]><a/>"),
        vec!["PI(xml version=\"1.0\")", "DocType( a [<!ELEMENT a (#PCDATA)>])", "Empty(a)", "Eof"]
    );
    assert_eq!(events(b"<!doctype html>"), vec!["DocType( html)", "Eof"]);
}

#[test]
fn quoted_angle_bracket_does_not_end_a_tag() {
    let mut reader = Reader::from_bytes(b"<a x=\">\" y='/>'/>");
    let mut scratch = Vec::new();
    match reader.read_event(&mut scratch) {
        Ok(Event::Empty(e)) => {
            assert_eq!(e.name(), b"a");
            assert_eq!(e.try_get_attribute(b"x").unwrap().unwrap().value, b">");
            assert_eq!(e.try_get_attribute(b"y").unwrap().unwrap().value, b"/>");
            assert_eq!(e.try_get_attribute(b"z"), Ok(None));
        }
        other => panic!("unexpected {:?}", other),
    }
    assert_eq!(reader.read_event(&mut scratch), Ok(Event::Eof));
}

#[test]
fn unterminated_constructs_are_malformed() {
    for input in [
        &b"<a"[..],
        &b"<a x=\">"[..],
        &b"</a"[..],
        &b"<!-- x"[..],
        &b"<![CDATA[x]]"[..],
        &b"<?xml"[..],
        &b"<!DOCTYPE a [<!ELEMENT a>"[..],
        &b"<!FOO>"[..],
    ] {
        let mut reader = Reader::from_bytes(input);
        assert_eq!(drain(&mut reader), (vec![], Some(Error::MalformedMarkup)), "{:?}", input);
        assert_eq!(reader.buffer_position(), 0);
    }
}

#[test]
fn error_after_events_ends_the_stream() {
    let mut reader = Reader::from_bytes(b"<a>text<b");
    let (seen, error) = drain(&mut reader);
    assert_eq!(seen, vec!["Start(a)", "Text(text)"]);
    assert_eq!(error, Some(Error::MalformedMarkup));
    assert_eq!(reader.buffer_position(), 7);
    let mut scratch = Vec::new();
    assert_eq!(reader.read_event(&mut scratch), Err(Error::MalformedMarkup));
}

#[test]
fn end_of_document_is_reported_again() {
    let mut reader = Reader::from_bytes(b"");
    let mut scratch = Vec::new();
    assert_eq!(reader.read_event(&mut scratch), Ok(Event::Eof));
    assert_eq!(reader.read_event(&mut scratch), Ok(Event::Eof));
}

#[test]
fn events_borrow_and_can_be_made_owned() {
    let input = b"<a k=\"v\">t</a>".to_vec();
    let owned: Vec<Event<'static>> = {
        let mut reader = Reader::from_bytes(&input);
        let mut scratch = Vec::new();
        let mut all = Vec::new();
        loop {
            let event = reader.read_event(&mut scratch).unwrap().into_owned();
            let done = event == Event::Eof;
            all.push(event);
            if done {
                break;
            }
        }
        all
    };
    drop(input);
    let shown: Vec<String> = owned.iter().map(show).collect();
    assert_eq!(shown, vec!["Start(a)", "Text(t)", "End(a)", "Eof"]);
    assert_eq!(owned[0].clone(), owned[0]);
}

#[test]
fn read_to_end_skips_the_innermost_open_element() {
    let mut reader = Reader::from_bytes(b"<a><b><c/></b>text<a>again</a></a><d/>");
    let mut scratch = Vec::new();
    assert!(matches!(reader.read_event(&mut scratch), Ok(Event::Start(_))));
    assert_eq!(reader.read_to_end(&mut scratch), Ok(()));
    assert_eq!(reader.depth(), 0);
    match reader.read_event(&mut scratch) {
        Ok(Event::Empty(e)) => assert_eq!(e.name(), b"d"),
        other => panic!("unexpected {:?}", other),
    }
}

#[test]
fn read_to_end_needs_an_end() {
    let mut reader = Reader::from_bytes(b"<a><b></b>");
    let mut scratch = Vec::new();
    assert!(matches!(reader.read_event(&mut scratch), Ok(Event::Start(_))));
    assert_eq!(reader.read_to_end(&mut scratch), Err(Error::MalformedMarkup));
}

#[test]
fn declared_encoding_decides_the_decoder() {
    let mut utf8 = Reader::from_str("<?xml version=\"1.0\" encoding=\"utf-8\"?><a/>");
    let mut scratch = Vec::new();
    assert!(utf8.decoder().is_supported());
    assert!(matches!(utf8.read_event(&mut scratch), Ok(Event::ProcessingInstruction(_))));
    assert!(utf8.decoder().is_supported());
    assert_eq!(utf8.decoder().decode(b"caf\xc3\xa9"), Ok(format!("caf\u{e9}")));

    let mut latin = Reader::from_bytes(b"<?xml version='1.0' encoding='ISO-8859-1'?><a>x</a>");
    assert!(matches!(latin.read_event(&mut scratch), Ok(Event::ProcessingInstruction(_))));
    assert!(!latin.decoder().is_supported());
    assert_eq!(latin.decoder().decode(b"x"), Err(Error::UnsupportedEncoding));

    let mut other = Reader::from_bytes(b"<?xml-stylesheet encoding='ISO-8859-1'?>");
    assert!(matches!(other.read_event(&mut scratch), Ok(Event::ProcessingInstruction(_))));
    assert!(other.decoder().is_supported());
}

#[test]
fn fluent_configuration() {
    let mut reader = Reader::from_bytes(b" <a/> <!-- -- --></b>");
    reader.trim_text(true).expand_empty_elements(true).check_comments(false).check_end_names(false);
    assert_eq!(drain(&mut reader).0, vec!["Start(a)", "End(a)", "Comment( -- )", "End(b)", "Eof"]);
}

#[test]
fn trim_text_goes_by_what_the_text_stands_for() {
    let input = b"<a> &#32;&#x9; </a><b> &bogus; </b><c>&#32;x</c><d>\r\n</d>";
    let mut reader = Reader::from_bytes(input);
    reader.trim_text(true);
    assert_eq!(drain(&mut reader).0, vec![
        "Start(a)",
        "End(a)",
        "Start(b)",
        "Text( &bogus; )",
        "End(b)",
        "Start(c)",
        "Text(&#32;x)",
        "End(c)",
        "Start(d)",
        "End(d)",
        "Eof"
    ]);
    let mut untrimmed = Reader::from_bytes(b"<a> &#32; </a>");
    assert_eq!(drain(&mut untrimmed).0, vec!["Start(a)", "Text( &#32; )", "End(a)", "Eof"]);
}

#[test]
fn blank_text_is_told_from_text() {
    assert!(is_blank_text(b""));
    assert!(is_blank_text(b" \t\r\n"));
    assert!(is_blank_text(b"&#x20;&#10;"));
    assert!(!is_blank_text(b" x "));
    assert!(!is_blank_text(b"&amp;"));
    assert!(!is_blank_text(b" & "));
    assert!(!is_blank_text(b"\xc2\xa0"));
}
