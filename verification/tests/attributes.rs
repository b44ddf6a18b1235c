use xmlpull::attributes::{Attribute, Attributes};
use xmlpull::errors::Error;
use xmlpull::events::BytesStart;

fn collect(bytes: &[u8], from: usize) -> (Vec<(Vec<u8>, Vec<u8>)>, Option<Error>) {
    let mut cursor = Attributes::new(bytes, from);
    let mut all = Vec::new();
    loop {
        match cursor.next() {
            None => return (all, None),
            Some(Err(e)) => return (all, Some(e)),
            Some(Ok(a)) => all.push((a.key.to_vec(), a.value.to_vec())),
        }
    }
}

fn pair(k: &str, v: &str) -> (Vec<u8>, Vec<u8>) {
    (k.as_bytes().to_vec(), v.as_bytes().to_vec())
}

#[test]
fn attributes_come_in_document_order() {
    let tag = b"a one=\"1\" two='2'  three = \"3\"\n four\t=\t'4'";
    assert_eq!(
        collect(tag, 1),
        (vec![pair("one", "1"), pair("two", "2"), pair("three", "3"), pair("four", "4")], None)
    );
}

#[test]
fn driving_again_yields_the_same() {
    let tag = b"x a=\"1\" b=\"2\" a=\"3\"";
    assert_eq!(collect(tag, 1), collect(tag, 1));
    assert_eq!(collect(tag, 1).0, vec![pair("a", "1"), pair("b", "2"), pair("a", "3")]);
}

#[test]
fn resuming_from_a_saved_position_yields_the_rest() {
    let tag = b"x a=\"1\" b=\"2\" c=\"3\"";
    let all = collect(tag, 1).0;
    let mut cursor = Attributes::new(tag, 1);
    let mut seen = 0;
    loop {
        let saved = cursor.position;
        assert_eq!(collect(tag, saved).0, all[seen..].to_vec());
        if cursor.next().is_none() {
            break;
        }
        seen += 1;
    }
    assert_eq!(seen, 3);
    assert_eq!(cursor.position, tag.len());
}

#[test]
fn positions_after_each_step() {
    let tag = b"t k=\"v\" q='w'";
    let mut cursor = Attributes::new(tag, 1);
    assert_eq!(cursor.next(), Some(Ok(Attribute { key: b"k", value: b"v" })));
    assert_eq!(cursor.position, 7);
    assert_eq!(cursor.next(), Some(Ok(Attribute { key: b"q", value: b"w" })));
    assert_eq!(cursor.position, 13);
    assert_eq!(cursor.next(), None);
    assert_eq!(cursor.position, 13);
}

#[test]
fn values_are_kept_escaped_and_may_hold_the_other_quote() {
    assert_eq!(
        collect(b" a=\"it's &lt;\" b='say \"hi\"' c=\"\"", 0).0,
        vec![pair("a", "it's &lt;"), pair("b", "say \"hi\""), pair("c", "")]
    );
}

#[test]
fn malformed_attributes() {
    for tag in [
        &b" a=1"[..],
        &b" a"[..],
        &b" a b=\"1\""[..],
        &b" a=\"1"[..],
        &b" a='1\""[..],
        &b" =\"1\""[..],
        &b" a="[..],
        &b" a= "[..],
    ] {
        assert_eq!(collect(tag, 0), (vec![], Some(Error::MalformedMarkup)), "{:?}", tag);
    }
    assert_eq!(
        collect(b" ok=\"1\" bad", 0),
        (vec![pair("ok", "1")], Some(Error::MalformedMarkup))
    );
}

#[test]
fn a_malformed_attribute_is_reported_once() {
    let tag = b" a=1 b=\"2\"";
    let mut cursor = Attributes::new(tag, 0);
    assert_eq!(cursor.next(), Some(Err(Error::MalformedMarkup)));
    assert_eq!(cursor.position, tag.len());
    assert_eq!(cursor.next(), None);
}

#[test]
fn a_position_behind_the_end_is_exhausted() {
    let mut cursor = Attributes::new(b" a=\"1\"", 99);
    assert_eq!(cursor.next(), None);
    assert_eq!(cursor.position, 6);
}

#[test]
fn only_white_space_is_exhausted() {
    assert_eq!(collect(b"name  \t\r\n ", 4), (vec![], None));
    assert_eq!(collect(b"", 0), (vec![], None));
}

#[test]
fn lookup_by_key() {
    let start = BytesStart::borrowed(b"a x=\"1\" y=\"2\" x=\"3\"", 1);
    assert_eq!(start.try_get_attribute(b"x"), Ok(Some(Attribute { key: b"x", value: b"1" })));
    assert_eq!(start.try_get_attribute(b"y"), Ok(Some(Attribute { key: b"y", value: b"2" })));
    assert_eq!(start.try_get_attribute(b"z"), Ok(None));
    let broken = BytesStart::borrowed(b"a x=\"1\" oops y=\"2\"", 1);
    assert_eq!(broken.try_get_attribute(b"x"), Ok(Some(Attribute { key: b"x", value: b"1" })));
    assert_eq!(broken.try_get_attribute(b"y"), Err(Error::MalformedMarkup));

    let mut cursor = Attributes::new(b" a='1' b='2' c='3'", 0);
    assert_eq!(cursor.find(b"b"), Ok(Some(Attribute { key: b"b", value: b"2" })));
    assert_eq!(cursor.next(), Some(Ok(Attribute { key: b"c", value: b"3" })));
}

#[test]
fn names_of_tags() {
    let start = BytesStart::borrowed(b"ns:item k=\"v\"", 7);
    assert_eq!(start.name(), b"ns:item");
    assert_eq!(start.local_name(), b"item");
    assert_eq!(start.raw(), b"ns:item k=\"v\"");
    let plain = BytesStart::borrowed_name(b"item");
    assert_eq!(plain.name(), b"item");
    assert_eq!(plain.local_name(), b"item");
    assert!(plain.attributes().next().is_none());
    let owned = BytesStart::owned(b"a:b:c".to_vec(), 5);
    assert_eq!(owned.local_name(), b"b:c");
    assert_eq!(owned.clone().into_owned(), owned);
}
