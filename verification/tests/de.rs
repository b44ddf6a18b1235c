use xmlpull::de::map::{FieldValue, MapAccess};
use xmlpull::de::seq::SeqAccess;
use xmlpull::de::var::EnumAccess;
use xmlpull::de::{inner_value, Deserializer, Shape};
use xmlpull::errors::Error;
use xmlpull::events::{BytesStart, Event};
use xmlpull::reader::Reader;

fn text(de: &mut Deserializer) -> Result<String, Error> {
    let bytes = de.next_text()?;
    de.decoder().decode(&bytes)
}

#[derive(Debug, PartialEq)]
struct Person {
    id: i32,
    name: String,
}

fn read_person(de: &mut Deserializer) -> Result<Person, Error> {
    let start = de.next_start()?.ok_or(Error::UnexpectedEvent)?;
    de.set_has_value_field(false);
    let mut map = MapAccess::new(de, start)?;
    let mut id = None;
    let mut name = None;
    while let Some(key) = map.next_key()? {
        let value = match map.next_value()? {
            FieldValue::Text(s) => s,
            FieldValue::Events => text(map.deserializer())?,
        };
        match key.as_str() {
            "id" => id = Some(value.parse::<i32>().map_err(|_| Error::UnexpectedEvent)?),
            "name" => name = Some(value),
            _ => {}
        }
    }
    map.deserializer().read_to_end()?;
    match (id, name) {
        (Some(id), Some(name)) => Ok(Person { id, name }),
        _ => Err(Error::UnexpectedEvent),
    }
}

#[test]
fn record_from_child_elements() {
    let mut de = Deserializer::from_bytes(b"<p><id>7</id><name>x</name></p>");
    assert_eq!(read_person(&mut de), Ok(Person { id: 7, name: format!("x") }));
    assert_eq!(de.next(), Ok(Event::Eof));
}

#[test]
fn record_from_attributes_and_children() {
    let mut de = Deserializer::from_bytes(
        b"<?xml version=\"1.0\"?>\n<!-- who -->\n<p id=\"42\">\n  <name>A &amp; B</name>\n</p>",
    );
    assert_eq!(read_person(&mut de), Ok(Person { id: 42, name: format!("A & B") }));
}

#[test]
fn a_comment_or_an_instruction_ends_the_record() {
    for input in [
        &b"<p id=\"42\"><!-- who --><name>x</name></p><q/>"[..],
        &b"<p id=\"42\"><?pi?><name>x</name></p><q/>"[..],
        &b"<p id=\"42\"><![CDATA[c]]><name>x</name></p><q/>"[..],
    ] {
        let mut de = Deserializer::from_bytes(input);
        let start = de.next_start().unwrap().unwrap();
        let mut map = MapAccess::new(&mut de, start).unwrap();
        assert_eq!(map.next_key(), Ok(Some(format!("id"))));
        assert!(matches!(map.next_value(), Ok(FieldValue::Text(s)) if s == "42"));
        assert_eq!(map.next_key(), Ok(None));
        assert_eq!(map.next_key(), Ok(None));
        assert!(matches!(map.next_value(), Err(Error::EndOfAttributes)));
        assert!(matches!(
            map.deserializer().peek(),
            Ok(Event::Comment(_)) | Ok(Event::ProcessingInstruction(_)) | Ok(Event::CData(_))
        ));
        assert_eq!(de.read_to_end(), Ok(()));
        assert_eq!(de.next_start().unwrap().unwrap().name(), b"q");
    }
    let mut de = Deserializer::from_bytes(b"<p id=\"42\"><!-- who --><name>x</name></p>");
    assert_eq!(read_person(&mut de), Err(Error::UnexpectedEvent));
}

#[test]
fn a_self_closing_tag_ends_the_record_and_stays_in_place() {
    let mut reader = Reader::from_bytes(b"<r a='1'><e/><s>t</s></r><z/>");
    reader.expand_empty_elements(false);
    let mut de = Deserializer::new(reader);
    let start = de.next_start().unwrap().unwrap();
    let mut map = MapAccess::new(&mut de, start).unwrap();
    assert_eq!(map.next_key(), Ok(Some(format!("a"))));
    assert!(matches!(map.next_value(), Ok(FieldValue::Text(s)) if s == "1"));
    assert_eq!(map.next_key(), Ok(None));
    assert!(matches!(map.next_value(), Err(Error::EndOfAttributes)));
    match map.deserializer().peek() {
        Ok(Event::Empty(e)) => assert_eq!(e.name(), b"e"),
        other => panic!("unexpected {:?}", other),
    }
    match de.next() {
        Ok(Event::Empty(e)) => assert_eq!(e.name(), b"e"),
        other => panic!("unexpected {:?}", other),
    }
    match de.next() {
        Ok(Event::Start(e)) => assert_eq!(e.name(), b"s"),
        other => panic!("unexpected {:?}", other),
    }
    assert_eq!(de.read_to_end(), Ok(()));
    assert_eq!(de.read_to_end(), Ok(()));
    match de.next() {
        Ok(Event::Empty(e)) => assert_eq!(e.name(), b"z"),
        other => panic!("unexpected {:?}", other),
    }
}

#[test]
fn self_closing_tags_where_values_are_read() {
    let mut reader = Reader::from_bytes(b"<a/><b/><c/><d/><e/>");
    reader.expand_empty_elements(false);
    let mut de = Deserializer::new(reader);
    assert_eq!(de.next_start(), Err(Error::UnexpectedEvent));
    assert_eq!(text(&mut de), Ok(String::new()));
    assert_eq!(de.skip_unit(), Ok(()));
    assert_eq!(de.skip_value(), Ok(()));
    assert_eq!(de.shape(), Ok(Shape::Text));
    assert_eq!(de.is_absent(), Ok(false));
    match de.next() {
        Ok(Event::Empty(e)) => assert_eq!(e.name(), b"e"),
        other => panic!("unexpected {:?}", other),
    }
    assert_eq!(de.next(), Ok(Event::Eof));
}

#[test]
fn self_closing_tags_name_unit_variants() {
    let mut reader = Reader::from_bytes(b"<r><A/><B x='1'/><A/><C/></r>");
    reader.expand_empty_elements(false);
    let mut de = Deserializer::new(reader);
    de.next_start().unwrap().unwrap();
    let mut variants = Vec::new();
    loop {
        let mut access = EnumAccess::new(&mut de);
        match access.variant() {
            Ok(name) => variants.push(name),
            Err(e) => {
                assert_eq!(e, Error::UnexpectedEvent);
                break;
            }
        }
        assert_eq!(access.unit_variant(), Ok(()));
    }
    assert_eq!(variants, vec!["A", "B", "A", "C"]);
    assert!(matches!(de.next(), Ok(Event::End(_))));
}

#[test]
fn sequence_of_self_closing_siblings_with_one_name() {
    let mut reader = Reader::from_bytes(b"<r><i/><i/><j/></r>");
    reader.expand_empty_elements(false);
    let mut de = Deserializer::new(reader);
    de.next_start().unwrap().unwrap();
    let mut seq = SeqAccess::new(&mut de, None).unwrap();
    let mut count = 0;
    while seq.next_element().unwrap() {
        seq.deserializer().skip_value().unwrap();
        count += 1;
    }
    assert_eq!(count, 2);
    match de.next() {
        Ok(Event::Empty(e)) => assert_eq!(e.name(), b"j"),
        other => panic!("unexpected {:?}", other),
    }
}

#[test]
fn every_event_of_the_tokenizer_reaches_the_bridge() {
    let mut de = Deserializer::from_bytes(b"<?xml version='1.0'?><!DOCTYPE a><!-- c --><a/>");
    assert!(matches!(de.next(), Ok(Event::ProcessingInstruction(_))));
    assert!(matches!(de.peek(), Ok(Event::DocTypeDecl(_))));
    assert!(matches!(de.next(), Ok(Event::DocTypeDecl(_))));
    assert!(matches!(de.next(), Ok(Event::Comment(_))));
    assert!(matches!(de.next(), Ok(Event::Start(_))));
    assert!(matches!(de.next(), Ok(Event::End(_))));
    assert_eq!(de.next(), Ok(Event::Eof));
}

#[test]
fn attribute_only_field_is_not_found_among_children() {
    let mut de = Deserializer::from_bytes(b"<p><id>7</id><name>x</name></p>");
    let start = de.next_start().unwrap().unwrap();
    let mut map = MapAccess::new(&mut de, start).unwrap();
    assert_eq!(map.next_attr(), Ok(None));
    assert!(matches!(map.next_value(), Err(Error::EndOfAttributes)));
}

#[test]
fn value_before_key_is_out_of_order() {
    let mut de = Deserializer::from_bytes(b"<p a=\"1\"/>");
    let start = de.next_start().unwrap().unwrap();
    let mut map = MapAccess::new(&mut de, start).unwrap();
    assert!(matches!(map.next_value(), Err(Error::EndOfAttributes)));
    assert_eq!(map.next_key(), Ok(Some(format!("a"))));
    assert!(matches!(map.next_value(), Ok(FieldValue::Text(s)) if s == "1"));
    assert!(matches!(map.next_value(), Err(Error::EndOfAttributes)));
}

#[test]
fn next_attr_walks_the_start_tag() {
    let mut de = Deserializer::from_bytes(b"");
    let start = BytesStart::borrowed(b"item a=\"1\" b='&lt;' c", 4);
    let mut map = MapAccess::new(&mut de, start).unwrap();
    assert_eq!(map.next_attr(), Ok(Some((b"a".to_vec(), b"1".to_vec()))));
    assert_eq!(map.next_attr(), Ok(Some((b"b".to_vec(), b"&lt;".to_vec()))));
    assert_eq!(map.next_attr(), Err(Error::MalformedMarkup));
    assert_eq!(map.next_attr(), Err(Error::MalformedMarkup));
}

#[test]
fn next_attr_ends_with_none() {
    let mut de = Deserializer::from_bytes(b"");
    let start = BytesStart::borrowed(b"item a=\"1\" ", 4);
    let mut map = MapAccess::new(&mut de, start).unwrap();
    assert_eq!(map.next_attr(), Ok(Some((b"a".to_vec(), b"1".to_vec()))));
    assert_eq!(map.next_attr(), Ok(None));
    assert_eq!(map.next_attr(), Ok(None));
}

#[test]
fn keys_name_attributes_then_children_then_text() {
    let mut de = Deserializer::from_bytes(b"<r k=\"v &gt; w\"><ns:child/>tail</r>");
    let start = de.next_start().unwrap().unwrap();
    let mut map = MapAccess::new(&mut de, start).unwrap();
    assert_eq!(map.next_key(), Ok(Some(format!("k"))));
    assert!(matches!(map.next_value(), Ok(FieldValue::Text(s)) if s == "v > w"));
    assert_eq!(map.next_key(), Ok(Some(format!("child"))));
    assert!(matches!(map.next_value(), Ok(FieldValue::Events)));
    assert_eq!(text(map.deserializer()), Ok(String::new()));
    assert_eq!(map.next_key(), Ok(Some(format!("$value"))));
    assert_eq!(map.next_key(), Ok(Some(inner_value())));
    assert!(matches!(map.next_value(), Ok(FieldValue::Events)));
    assert_eq!(text(map.deserializer()), Ok(format!("tail")));
    assert_eq!(map.next_key(), Ok(None));
    assert_eq!(map.next_key(), Ok(None));
    assert!(matches!(map.next_value(), Err(Error::EndOfAttributes)));
}

#[test]
fn children_are_the_inner_value_where_the_record_has_that_field() {
    let mut de = Deserializer::from_bytes(b"<root><A/><B/></root>");
    let start = de.next_start().unwrap().unwrap();
    de.set_has_value_field(true);
    assert!(de.has_value_field());
    let mut map = MapAccess::new(&mut de, start).unwrap();
    assert_eq!(map.next_key(), Ok(Some(format!("$value"))));
    assert!(matches!(map.next_value(), Ok(FieldValue::Events)));

    let mut seq = SeqAccess::new(map.deserializer(), None).unwrap();
    let mut variants = Vec::new();
    while seq.next_element().unwrap() {
        let mut variant = EnumAccess::new(seq.deserializer());
        variants.push(variant.variant().unwrap());
        variant.unit_variant().unwrap();
    }
    assert_eq!(variants, vec!["A", "B"]);
    assert_eq!(map.next_key(), Ok(None));
}

#[test]
fn invalid_escape_in_an_attribute_value() {
    let mut de = Deserializer::from_bytes(b"<r k=\"&nope;\"/>");
    let start = de.next_start().unwrap().unwrap();
    let mut map = MapAccess::new(&mut de, start).unwrap();
    assert_eq!(map.next_key(), Ok(Some(format!("k"))));
    assert!(matches!(map.next_value(), Err(Error::InvalidEscape)));
}

#[test]
fn names_that_cannot_be_decoded() {
    let mut de = Deserializer::from_bytes(b"<r \xff=\"1\"><\xfe/></r>");
    let start = de.next_start().unwrap().unwrap();
    let mut map = MapAccess::new(&mut de, start).unwrap();
    assert_eq!(map.next_key(), Err(Error::UnsupportedEncoding));
    assert!(matches!(map.next_value(), Ok(FieldValue::Text(s)) if s == "1"));
    assert_eq!(map.next_key(), Err(Error::UnsupportedEncoding));
    assert!(matches!(map.next_value(), Ok(FieldValue::Events)));
}

#[test]
fn tokenizer_errors_pass_through_the_accessor() {
    let mut de = Deserializer::from_bytes(b"<r><a></b></r>");
    let start = de.next_start().unwrap().unwrap();
    let mut map = MapAccess::new(&mut de, start).unwrap();
    assert_eq!(map.next_key(), Ok(Some(format!("a"))));
    assert!(matches!(map.next_value(), Ok(FieldValue::Events)));
    assert_eq!(text(map.deserializer()), Err(Error::TagMismatch));
}

#[test]
fn sequence_of_siblings_with_one_name() {
    let mut de = Deserializer::from_bytes(b"<r><i>1</i><i>2</i><i>3</i><other/></r>");
    de.next_start().unwrap().unwrap();
    let mut seq = SeqAccess::new(&mut de, None).unwrap();
    let mut items = Vec::new();
    while seq.next_element().unwrap() {
        items.push(text(seq.deserializer()).unwrap());
    }
    assert_eq!(items, vec!["1", "2", "3"]);
    match de.next() {
        Ok(Event::Start(e)) => assert_eq!(e.name(), b"other"),
        other => panic!("unexpected {:?}", other),
    }
}

#[test]
fn sequence_with_a_bound() {
    let mut de = Deserializer::from_bytes(b"<i>1</i><i>2</i><i>3</i>");
    let mut seq = SeqAccess::new(&mut de, Some(2)).unwrap();
    assert_eq!(seq.next_element(), Ok(true));
    assert_eq!(text(seq.deserializer()), Ok(format!("1")));
    assert_eq!(seq.next_element(), Ok(true));
    assert_eq!(text(seq.deserializer()), Ok(format!("2")));
    assert_eq!(seq.next_element(), Ok(false));
    assert_eq!(seq.next_element(), Ok(false));
    assert_eq!(text(&mut de), Ok(format!("3")));
}

#[test]
fn sequence_ends_with_the_enclosing_element_or_the_document() {
    let mut de = Deserializer::from_bytes(b"<r></r>");
    de.next_start().unwrap().unwrap();
    let mut seq = SeqAccess::new(&mut de, None).unwrap();
    assert_eq!(seq.next_element(), Ok(false));
    assert!(matches!(de.next(), Ok(Event::End(_))));
    let mut seq = SeqAccess::new(&mut de, None).unwrap();
    assert_eq!(seq.next_element(), Ok(false));
    assert_eq!(de.next(), Ok(Event::Eof));
}

#[test]
fn sequence_of_text() {
    let mut de = Deserializer::from_bytes(b"one<x/>");
    let mut seq = SeqAccess::new(&mut de, None).unwrap();
    assert_eq!(seq.next_element(), Ok(true));
    assert_eq!(text(seq.deserializer()), Ok(format!("one")));
    assert_eq!(seq.next_element(), Ok(true));
}

#[test]
fn variant_named_by_tag_or_text() {
    let mut de = Deserializer::from_bytes(b"<Circle r=\"1\"><x/></Circle>Square&amp;<!-- c -->");
    let mut access = EnumAccess::new(&mut de);
    assert_eq!(access.variant(), Ok(format!("Circle")));
    assert_eq!(access.unit_variant(), Ok(()));
    assert_eq!(access.variant(), Ok(format!("Square&")));
    assert_eq!(access.unit_variant(), Ok(()));
    assert_eq!(access.variant(), Err(Error::UnexpectedEvent));
    assert_eq!(access.unit_variant(), Err(Error::UnexpectedEvent));
    assert_eq!(access.deserializer().next(), Ok(Event::Eof));
}

#[test]
fn peek_does_not_take() {
    let mut de = Deserializer::from_bytes(b"<!-- seen --><a/>");
    assert!(matches!(de.peek(), Ok(Event::Comment(_))));
    assert!(matches!(de.peek(), Ok(Event::Comment(_))));
    assert!(matches!(de.next(), Ok(Event::Comment(_))));
    assert!(matches!(de.peek(), Ok(Event::Start(_))));
    assert!(matches!(de.peek(), Ok(Event::Start(_))));
    assert!(matches!(de.next(), Ok(Event::Start(_))));
    assert!(matches!(de.peek(), Ok(Event::End(_))));
    assert!(matches!(de.next(), Ok(Event::End(_))));
    assert_eq!(de.next(), Ok(Event::Eof));
    assert_eq!(de.next(), Ok(Event::Eof));
}

#[test]
fn next_start_passes_text_and_refuses_an_end() {
    let mut de = Deserializer::from_bytes(b"text<a>more</a>");
    assert_eq!(de.next_start().unwrap().unwrap().name(), b"a");
    assert_eq!(de.next_start(), Err(Error::UnexpectedEvent));
    assert_eq!(de.next_start(), Ok(None));
}

#[test]
fn text_values() {
    let mut de = Deserializer::from_bytes(
        b"<a>1 &lt; 2</a><b><![CDATA[<raw>&amp;]]></b><c></c><d>t<e/>u</d><f><g/></f>",
    );
    assert_eq!(text(&mut de), Ok(format!("1 < 2")));
    assert_eq!(text(&mut de), Ok(format!("<raw>&amp;")));
    assert_eq!(text(&mut de), Ok(String::new()));
    assert_eq!(text(&mut de), Ok(format!("t")));
    assert_eq!(text(&mut de), Err(Error::UnexpectedEvent));
}

#[test]
fn text_before_an_end_is_empty_and_leaves_the_end() {
    let mut de = Deserializer::from_bytes(b"<a></a>");
    de.next_start().unwrap().unwrap();
    assert_eq!(text(&mut de), Ok(String::new()));
    assert!(matches!(de.next(), Ok(Event::End(_))));
    assert_eq!(text(&mut de), Err(Error::UnexpectedEvent));
}

#[test]
fn read_to_end_skips_children() {
    let mut de = Deserializer::from_bytes(b"<a><b><c/></b>t<d/></a><z/>");
    de.next_start().unwrap().unwrap();
    assert_eq!(de.read_to_end(), Ok(()));
    assert_eq!(de.next_start().unwrap().unwrap().name(), b"z");

    let mut peeked = Deserializer::from_bytes(b"<a><b><c/></b>t<d/></a><z/>");
    peeked.next_start().unwrap().unwrap();
    assert!(matches!(peeked.peek(), Ok(Event::Start(_))));
    assert_eq!(peeked.read_to_end(), Ok(()));
    assert_eq!(peeked.next_start().unwrap().unwrap().name(), b"z");

    let mut open = Deserializer::from_bytes(b"<a><b>");
    open.next_start().unwrap().unwrap();
    assert_eq!(open.read_to_end(), Err(Error::MalformedMarkup));
}

#[test]
fn a_start_tag_is_expected() {
    let mut de = Deserializer::from_bytes(b"text<a/>");
    assert_eq!(de.expect_start().unwrap().name(), b"a");
    assert_eq!(de.expect_start(), Err(Error::UnexpectedEvent));
    assert_eq!(de.expect_start(), Err(Error::UnexpectedEvent));
    let mut broken = Deserializer::from_bytes(b"<a");
    assert_eq!(broken.expect_start(), Err(Error::MalformedMarkup));
}

#[test]
fn shape_of_an_unknown_value() {
    let mut de = Deserializer::from_bytes(b"<a>t<![CDATA[c]]></a>");
    assert_eq!(de.shape(), Ok(Shape::Record));
    assert_eq!(de.shape(), Ok(Shape::Record));
    de.next().unwrap();
    assert_eq!(de.shape(), Ok(Shape::Text));
    de.next().unwrap();
    assert_eq!(de.shape(), Ok(Shape::Text));
    de.next().unwrap();
    assert_eq!(de.shape(), Ok(Shape::Unit));
    de.next().unwrap();
    assert_eq!(de.shape(), Ok(Shape::Text));
    assert_eq!(de.next(), Ok(Event::Eof));
}

#[test]
fn absent_optional_values() {
    let mut de = Deserializer::from_bytes(b"<a></a>x");
    assert_eq!(de.is_absent(), Ok(false));
    de.next().unwrap();
    assert_eq!(de.is_absent(), Ok(false));
    de.next().unwrap();
    assert_eq!(de.is_absent(), Ok(false));
    de.next().unwrap();
    assert_eq!(de.is_absent(), Ok(true));
    let mut broken = Deserializer::from_bytes(b"<!-- ");
    assert_eq!(broken.is_absent(), Err(Error::MalformedMarkup));
}

#[test]
fn values_that_hold_nothing_and_values_that_nobody_reads() {
    let mut de = Deserializer::from_bytes(b"<a><b/>t</a>text<c></c>");
    assert_eq!(de.skip_unit(), Ok(()));
    assert_eq!(de.skip_unit(), Ok(()));
    assert!(matches!(de.next(), Ok(Event::Start(_))));
    assert_eq!(de.skip_unit(), Err(Error::UnexpectedEvent));
    assert_eq!(de.skip_unit(), Err(Error::UnexpectedEvent));
    assert_eq!(de.skip_value(), Ok(()));

    let mut de = Deserializer::from_bytes(b"<a><b/>t</a>text<c></c>");
    assert_eq!(de.skip_value(), Ok(()));
    assert_eq!(de.skip_value(), Ok(()));
    assert!(matches!(de.next(), Ok(Event::Start(_))));
    assert_eq!(de.skip_value(), Err(Error::UnexpectedEvent));
    assert_eq!(de.skip_value(), Ok(()));
}
