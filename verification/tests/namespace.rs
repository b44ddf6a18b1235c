use xmlpull::events::{BytesStart, Event};
use xmlpull::namespace::NamespaceResolver;
use xmlpull::reader::Reader;

fn next(reader: &mut Reader) -> (Option<Vec<u8>>, String) {
    let mut scratch = Vec::new();
    let mut ns_scratch = Vec::new();
    let (ns, event) = reader.read_namespaced_event(&mut scratch, &mut ns_scratch).unwrap();
    let shown = match &event {
        Event::Start(e) => format!("Start({})", String::from_utf8_lossy(e.name())),
        Event::End(e) => format!("End({})", String::from_utf8_lossy(e.name())),
        Event::Empty(e) => format!("Empty({})", String::from_utf8_lossy(e.name())),
        Event::Text(e) => format!("Text({})", String::from_utf8_lossy(e.raw())),
        Event::Eof => format!("Eof"),
        other => format!("{:?}", other),
    };
    (ns.map(|n| n.to_vec()), shown)
}

fn some(uri: &str) -> Option<Vec<u8>> {
    Some(uri.as_bytes().to_vec())
}

#[test]
fn namespaces_are_resolved_by_scope() {
    let mut reader = Reader::from_bytes(
        b"<a xmlns=\"urn:d\" xmlns:p=\"urn:p\"><p:b q=\"1\"/><c xmlns=\"\"><d/></c><e xmlns:p=\"urn:inner\"><p:f/></e>t</a>",
    );
    assert_eq!(reader.bound_namespaces(), 0);
    assert_eq!(next(&mut reader), (some("urn:d"), format!("Start(a)")));
    assert_eq!(reader.bound_namespaces(), 2);
    assert_eq!(reader.resolve_attribute(b"p:q"), Some(&b"urn:p"[..]));
    assert_eq!(reader.resolve_attribute(b"q"), None);
    assert_eq!(reader.resolve_element(b"q"), Some(&b"urn:d"[..]));
    assert_eq!(reader.resolve_element(b"x:q"), None);
    assert_eq!(next(&mut reader), (some("urn:p"), format!("Empty(p:b)")));
    assert_eq!(reader.bound_namespaces(), 2);
    assert_eq!(next(&mut reader), (None, format!("Start(c)")));
    assert_eq!(reader.bound_namespaces(), 3);
    assert_eq!(next(&mut reader), (None, format!("Empty(d)")));
    assert_eq!(next(&mut reader), (None, format!("End(c)")));
    assert_eq!(reader.bound_namespaces(), 2);
    assert_eq!(next(&mut reader), (some("urn:d"), format!("Start(e)")));
    assert_eq!(next(&mut reader), (some("urn:inner"), format!("Empty(p:f)")));
    assert_eq!(next(&mut reader), (some("urn:d"), format!("End(e)")));
    assert_eq!(reader.resolve_element(b"p:f"), Some(&b"urn:p"[..]));
    assert_eq!(next(&mut reader), (None, format!("Text(t)")));
    assert_eq!(next(&mut reader), (some("urn:d"), format!("End(a)")));
    assert_eq!(reader.bound_namespaces(), 0);
    assert_eq!(next(&mut reader), (None, format!("Eof")));
    assert_eq!(reader.bound_namespaces(), 0);
}

#[test]
fn self_closing_tag_binds_and_releases_at_once() {
    let mut reader = Reader::from_bytes(b"<p:a xmlns:p=\"urn:p\"/><p:b/>");
    assert_eq!(next(&mut reader), (some("urn:p"), format!("Empty(p:a)")));
    assert_eq!(reader.bound_namespaces(), 0);
    assert_eq!(next(&mut reader), (None, format!("Empty(p:b)")));
}

#[test]
fn expanded_self_closing_tag_keeps_its_bindings_until_its_end() {
    let mut reader = Reader::from_bytes(b"<p:a xmlns:p=\"urn:p\"/>");
    reader.expand_empty_elements(true);
    assert_eq!(next(&mut reader), (some("urn:p"), format!("Start(p:a)")));
    assert_eq!(reader.bound_namespaces(), 1);
    assert_eq!(next(&mut reader), (some("urn:p"), format!("End(p:a)")));
    assert_eq!(reader.bound_namespaces(), 0);
    assert_eq!(next(&mut reader), (None, format!("Eof")));
}

#[test]
fn no_binding_is_left_at_the_end_of_a_nested_document() {
    let mut reader = Reader::from_bytes(
        b"<a xmlns:a=\"1\"><b xmlns:b=\"2\"><c xmlns:c=\"3\" xmlns=\"4\"/></b><b xmlns:b=\"5\">x</b></a>",
    );
    let mut deepest = 0;
    loop {
        let (_, shown) = next(&mut reader);
        deepest = deepest.max(reader.bound_namespaces());
        if shown == "Eof" {
            break;
        }
    }
    assert_eq!(deepest, 2);
    assert_eq!(reader.bound_namespaces(), 0);
    assert_eq!(reader.depth(), 0);
}

#[test]
fn resolver_on_its_own() {
    let mut resolver = NamespaceResolver::new();
    assert_eq!(resolver.len(), 0);
    assert_eq!(resolver.resolve(b"a", true), None);
    let outer = BytesStart::borrowed(b"a xmlns='urn:d' xmlns:x='urn:x' other='xmlns'", 1);
    resolver.declare(&outer, 1);
    assert_eq!(resolver.len(), 2);
    let inner = BytesStart::borrowed(b"b xmlns:x='urn:y' xmlns:z='urn:z'", 1);
    resolver.declare(&inner, 2);
    assert_eq!(resolver.len(), 4);
    assert_eq!(resolver.resolve(b"x:n", true), Some(&b"urn:y"[..]));
    assert_eq!(resolver.resolve(b"z:n", false), Some(&b"urn:z"[..]));
    assert_eq!(resolver.resolve(b"n", true), Some(&b"urn:d"[..]));
    assert_eq!(resolver.resolve(b"n", false), None);
    assert_eq!(resolver.lookup(b"x"), Some(&b"urn:y"[..]));
    assert_eq!(resolver.lookup(b""), Some(&b"urn:d"[..]));
    resolver.release(1);
    assert_eq!(resolver.len(), 2);
    assert_eq!(resolver.resolve(b"x:n", true), Some(&b"urn:x"[..]));
    assert_eq!(resolver.resolve(b"z:n", true), None);
    resolver.release(0);
    assert_eq!(resolver.len(), 0);
}

#[test]
fn declarations_stop_at_a_malformed_attribute() {
    let mut resolver = NamespaceResolver::new();
    let tag = BytesStart::borrowed(b"a xmlns:x='urn:x' broken xmlns:y='urn:y'", 1);
    resolver.declare(&tag, 1);
    assert_eq!(resolver.len(), 1);
    assert_eq!(resolver.lookup(b"x"), Some(&b"urn:x"[..]));
    assert_eq!(resolver.lookup(b"y"), None);
}
