//! The events that the tokenizer produces.
//!
//! Every event that carries bytes either borrows them or owns a copy. What
//! the tokenizer hands out is always borrowed; `into_owned` makes an event
//! that outlives the buffers it was read from.

use vstd::prelude::*;
use std::borrow::Cow;
use crate::attributes::{lookup, Attribute, Attributes, Lookup};
use crate::decoder::{decoded, is_decoded, Decoder};
use crate::errors::Error;
use crate::escape::{unescape, unescaped};
use crate::scan::{find, scan, to_vec, ByteClass, AMP, COLON};

verus! {

/// The local part of a qualified name: what follows the first `:`, or the
/// whole name where there is none.
pub open spec fn local_part(name: Seq<u8>) -> Seq<u8> {
    let colon = find(name, 0, ByteClass::Is(COLON));
    if colon < name.len() {
        name.subrange(colon + 1, name.len() as int)
    } else {
        name
    }
}

/// The prefix of a qualified name: what stands before the first `:`.
pub open spec fn prefix_part(name: Seq<u8>) -> Option<Seq<u8>> {
    let colon = find(name, 0, ByteClass::Is(COLON));
    if colon < name.len() {
        Some(name.subrange(0, colon))
    } else {
        None
    }
}

/// The local part of a qualified name.
pub fn local_name_of<'x>(name: &'x [u8]) -> (r: &'x [u8])
    ensures
        r@ == local_part(name@),
{
    let colon = scan(name, 0, ByteClass::Is(COLON));
    if colon < name.len() {
        &name[colon + 1..name.len()]
    } else {
        name
    }
}

/// A start tag as a value: everything between `<` and `>` (without the `/`
/// of a self-closing tag), and how much of it is the name.
pub struct StartView {
    pub buf: Seq<u8>,
    pub name_len: int,
}

impl StartView {
    /// The qualified name.
    pub open spec fn name(self) -> Seq<u8> {
        self.buf.subrange(0, self.name_len)
    }
}

/// The length of a name of `name_len` bytes at the start of `buf`: no more
/// than `buf` holds.
pub open spec fn name_within(buf: Seq<u8>, name_len: usize) -> int {
    if name_len <= buf.len() {
        name_len as int
    } else {
        buf.len() as int
    }
}

/// An event as a value.
pub enum EventView {
    Start(StartView),
    End(Seq<u8>),
    Empty(StartView),
    Text(Seq<u8>),
    CData(Seq<u8>),
    Comment(Seq<u8>),
    ProcessingInstruction(Seq<u8>),
    DocTypeDecl(Seq<u8>),
    Eof,
}

impl EventView {
    /// The bytes that the event carries, as they stand in the document.
    pub open spec fn raw(self) -> Seq<u8> {
        match self {
            EventView::Start(e) => e.buf,
            EventView::Empty(e) => e.buf,
            EventView::End(name) => name,
            EventView::Text(t) => t,
            EventView::CData(t) => t,
            EventView::Comment(t) => t,
            EventView::ProcessingInstruction(t) => t,
            EventView::DocTypeDecl(t) => t,
            EventView::Eof => Seq::empty(),
        }
    }

    /// The bytes that the event stands for: character data is literal, in
    /// everything else entity references are resolved.
    pub open spec fn text(self) -> Option<Seq<u8>> {
        match self {
            EventView::CData(t) => Some(t),
            _ => unescaped(self.raw()),
        }
    }
}

/// The bytes that a borrowed or owned span holds.
pub fn bytes_of<'x>(c: &'x Cow<'_, [u8]>) -> (r: &'x [u8])
    ensures
        r@ == c@,
{
    match c {
        Cow::Borrowed(b) => b,
        Cow::Owned(v) => v.as_slice(),
    }
}

fn owned_of(c: Cow<'_, [u8]>) -> (r: Cow<'static, [u8]>)
    ensures
        r@ == c@,
        r is Owned,
{
    match c {
        Cow::Borrowed(b) => Cow::Owned(to_vec(b)),
        Cow::Owned(v) => Cow::Owned(v),
    }
}

fn copy_of<'a>(c: &Cow<'a, [u8]>) -> (r: Cow<'a, [u8]>)
    ensures
        r@ == c@,
        r is Borrowed == c is Borrowed,
{
    match c {
        Cow::Borrowed(b) => Cow::Borrowed(b),
        Cow::Owned(v) => Cow::Owned(v.clone()),
    }
}

/// A start tag, or a self-closing tag: its name and its attributes.
///
/// The attributes are kept as bytes and parsed on demand.
#[derive(Debug, PartialEq, Eq)]
pub struct BytesStart<'a> {
    buf: Cow<'a, [u8]>,
    name_len: usize,
}

impl<'a> View for BytesStart<'a> {
    type V = StartView;

    closed spec fn view(&self) -> StartView {
        StartView { buf: self.buf@, name_len: self.name_len as int }
    }
}

impl<'a> Clone for BytesStart<'a> {
    fn clone(&self) -> (r: Self)
        ensures
            r@ == self@,
            r.is_borrowed() == self.is_borrowed(),
    {
        proof {
            use_type_invariant(self);
        }
        BytesStart { buf: copy_of(&self.buf), name_len: self.name_len }
    }
}

impl<'a> BytesStart<'a> {
    #[verifier::type_invariant]
    spec fn well_formed(self) -> bool {
        self.name_len <= self.buf@.len()
    }

    /// Whether the tag borrows its bytes.
    pub closed spec fn is_borrowed(&self) -> bool {
        self.buf is Borrowed
    }

    /// A tag that borrows `buf`, of which the first `name_len` bytes are
    /// the name; all of it, if it is shorter.
    pub fn borrowed(buf: &'a [u8], name_len: usize) -> (r: Self)
        ensures
            r@ == (StartView { buf: buf@, name_len: name_within(buf@, name_len) }),
            r.is_borrowed(),
    {
        let name_len = if name_len <= buf.len() {
            name_len
        } else {
            buf.len()
        };
        BytesStart { buf: Cow::Borrowed(buf), name_len }
    }

    /// A tag that owns `buf`, of which the first `name_len` bytes are the
    /// name; all of it, if it is shorter.
    pub fn owned(buf: Vec<u8>, name_len: usize) -> (r: BytesStart<'static>)
        ensures
            r@ == (StartView { buf: buf@, name_len: name_within(buf@, name_len) }),
            !r.is_borrowed(),
    {
        let name_len = if name_len <= buf.len() {
            name_len
        } else {
            buf.len()
        };
        BytesStart { buf: Cow::Owned(buf), name_len }
    }

    /// A tag without attributes.
    pub fn borrowed_name(name: &'a [u8]) -> (r: Self)
        ensures
            r@ == (StartView { buf: name@, name_len: name@.len() as int }),
            r.is_borrowed(),
    {
        BytesStart { buf: Cow::Borrowed(name), name_len: name.len() }
    }

    /// Everything between the angle brackets, as it stands in the document.
    pub fn raw(&self) -> (r: &[u8])
        ensures
            r@ == self@.buf,
            0 <= self@.name_len <= self@.buf.len(),
    {
        proof {
            use_type_invariant(self);
        }
        bytes_of(&self.buf)
    }

    /// The qualified name.
    pub fn name(&self) -> (r: &[u8])
        ensures
            r@ == self@.name(),
    {
        proof {
            use_type_invariant(self);
        }
        let buf = bytes_of(&self.buf);
        &buf[0..self.name_len]
    }

    /// The name without its namespace prefix.
    pub fn local_name(&self) -> (r: &[u8])
        ensures
            r@ == local_part(self@.name()),
    {
        local_name_of(self.name())
    }

    /// A cursor over the attributes, standing behind the name.
    pub fn attributes<'s>(&'s self) -> (r: Attributes<'s>)
        ensures
            r.bytes@ == self@.buf,
            r.position == self@.name_len,
            r.position <= r.bytes@.len(),
    {
        proof {
            use_type_invariant(self);
        }
        Attributes::new(bytes_of(&self.buf), self.name_len)
    }

    /// The first attribute whose key is `key`, if there is one.
    pub fn try_get_attribute<'s>(&'s self, key: &[u8]) -> (r: Result<Option<Attribute<'s>>, Error>)
        ensures
            match lookup(self@.buf, self@.name_len, key@) {
                Lookup::Missing => r == Ok::<Option<Attribute<'s>>, Error>(None),
                Lookup::Malformed => r == Err::<Option<Attribute<'s>>, Error>(
                    Error::MalformedMarkup,
                ),
                Lookup::At(a) => r matches Ok(Some(attr)) && attr.key@ == key@ && attr.value@
                    == a.value(self@.buf),
            },
    {
        let mut cursor = self.attributes();
        cursor.find(key)
    }

    /// The same tag, owning its bytes.
    pub fn into_owned(self) -> (r: BytesStart<'static>)
        ensures
            r@ == self@,
            !r.is_borrowed(),
    {
        proof {
            use_type_invariant(&self);
        }
        BytesStart { buf: owned_of(self.buf), name_len: self.name_len }
    }
}

/// An end tag: its name.
#[derive(Debug, PartialEq, Eq)]
pub struct BytesEnd<'a> {
    name: Cow<'a, [u8]>,
}

impl<'a> View for BytesEnd<'a> {
    type V = Seq<u8>;

    closed spec fn view(&self) -> Seq<u8> {
        self.name@
    }
}

impl<'a> Clone for BytesEnd<'a> {
    fn clone(&self) -> (r: Self)
        ensures
            r@ == self@,
            r.is_borrowed() == self.is_borrowed(),
    {
        BytesEnd { name: copy_of(&self.name) }
    }
}

impl<'a> BytesEnd<'a> {
    /// Whether the tag borrows its bytes.
    pub closed spec fn is_borrowed(&self) -> bool {
        self.name is Borrowed
    }

    /// An end tag that borrows its name.
    pub fn borrowed(name: &'a [u8]) -> (r: Self)
        ensures
            r@ == name@,
            r.is_borrowed(),
    {
        BytesEnd { name: Cow::Borrowed(name) }
    }

    /// An end tag that owns its name.
    pub fn owned(name: Vec<u8>) -> (r: BytesEnd<'static>)
        ensures
            r@ == name@,
            !r.is_borrowed(),
    {
        BytesEnd { name: Cow::Owned(name) }
    }

    /// The qualified name.
    pub fn name(&self) -> (r: &[u8])
        ensures
            r@ == self@,
    {
        bytes_of(&self.name)
    }

    /// The name without its namespace prefix.
    pub fn local_name(&self) -> (r: &[u8])
        ensures
            r@ == local_part(self@),
    {
        local_name_of(self.name())
    }

    /// The same tag, owning its bytes.
    pub fn into_owned(self) -> (r: BytesEnd<'static>)
        ensures
            r@ == self@,
            !r.is_borrowed(),
    {
        BytesEnd { name: owned_of(self.name) }
    }
}

/// Character data, or the body of a comment, a processing instruction or a
/// document type declaration.
#[derive(Debug, PartialEq, Eq)]
pub struct BytesText<'a> {
    content: Cow<'a, [u8]>,
}

impl<'a> View for BytesText<'a> {
    type V = Seq<u8>;

    closed spec fn view(&self) -> Seq<u8> {
        self.content@
    }
}

impl<'a> Clone for BytesText<'a> {
    fn clone(&self) -> (r: Self)
        ensures
            r@ == self@,
            r.is_borrowed() == self.is_borrowed(),
    {
        BytesText { content: copy_of(&self.content) }
    }
}

impl<'a> BytesText<'a> {
    /// Whether the text borrows its bytes.
    pub closed spec fn is_borrowed(&self) -> bool {
        self.content is Borrowed
    }

    /// Text that borrows its bytes, which are still escaped.
    pub fn borrowed(content: &'a [u8]) -> (r: Self)
        ensures
            r@ == content@,
            r.is_borrowed(),
    {
        BytesText { content: Cow::Borrowed(content) }
    }

    /// Text that owns its bytes, which are still escaped.
    pub fn owned(content: Vec<u8>) -> (r: BytesText<'static>)
        ensures
            r@ == content@,
            !r.is_borrowed(),
    {
        BytesText { content: Cow::Owned(content) }
    }

    /// The bytes as they stand in the document, still escaped.
    pub fn raw(&self) -> (r: &[u8])
        ensures
            r@ == self@,
    {
        bytes_of(&self.content)
    }

    /// The bytes with every entity reference resolved; borrowed, if there
    /// is none.
    pub fn unescaped(&self) -> (r: Result<Cow<'_, [u8]>, Error>)
        ensures
            match unescaped(self@) {
                Some(text) => r matches Ok(c) && c@ == text,
                None => r == Err::<Cow<'_, [u8]>, Error>(Error::InvalidEscape),
            },
            !self@.contains(AMP) ==> r matches Ok(Cow::Borrowed(_)),
            self@.contains(AMP) ==> !(r matches Ok(Cow::Borrowed(_))),
    {
        unescape(bytes_of(&self.content))
    }

    /// The same text, owning its bytes.
    pub fn into_owned(self) -> (r: BytesText<'static>)
        ensures
            r@ == self@,
            !r.is_borrowed(),
    {
        BytesText { content: owned_of(self.content) }
    }
}

/// One unit of markup.
#[derive(Debug, PartialEq, Eq)]
pub enum Event<'a> {
    /// A start tag `<name attributes>`.
    Start(BytesStart<'a>),
    /// An end tag `</name>`.
    End(BytesEnd<'a>),
    /// A self-closing tag `<name attributes/>`.
    Empty(BytesStart<'a>),
    /// Character data between tags, still escaped.
    Text(BytesText<'a>),
    /// The content of a `<![CDATA[` section, which is never escaped.
    CData(BytesText<'a>),
    /// The body of a comment.
    Comment(BytesText<'a>),
    /// The body of a processing instruction or of the XML declaration.
    ProcessingInstruction(BytesText<'a>),
    /// The body of a document type declaration.
    DocTypeDecl(BytesText<'a>),
    /// The end of the document.
    Eof,
}

impl<'a> View for Event<'a> {
    type V = EventView;

    open spec fn view(&self) -> EventView {
        match self {
            Event::Start(e) => EventView::Start(e@),
            Event::End(e) => EventView::End(e@),
            Event::Empty(e) => EventView::Empty(e@),
            Event::Text(e) => EventView::Text(e@),
            Event::CData(e) => EventView::CData(e@),
            Event::Comment(e) => EventView::Comment(e@),
            Event::ProcessingInstruction(e) => EventView::ProcessingInstruction(e@),
            Event::DocTypeDecl(e) => EventView::DocTypeDecl(e@),
            Event::Eof => EventView::Eof,
        }
    }
}

impl<'a> Clone for Event<'a> {
    fn clone(&self) -> (r: Self)
        ensures
            r@ == self@,
            r.is_borrowed() == self.is_borrowed(),
    {
        match self {
            Event::Start(e) => Event::Start(e.clone()),
            Event::End(e) => Event::End(e.clone()),
            Event::Empty(e) => Event::Empty(e.clone()),
            Event::Text(e) => Event::Text(e.clone()),
            Event::CData(e) => Event::CData(e.clone()),
            Event::Comment(e) => Event::Comment(e.clone()),
            Event::ProcessingInstruction(e) => Event::ProcessingInstruction(e.clone()),
            Event::DocTypeDecl(e) => Event::DocTypeDecl(e.clone()),
            Event::Eof => Event::Eof,
        }
    }
}

impl<'a> Event<'a> {
    /// Whether the event borrows the bytes it carries. An event without
    /// bytes borrows nothing and counts as borrowed.
    pub open spec fn is_borrowed(&self) -> bool {
        match self {
            Event::Start(e) => e.is_borrowed(),
            Event::End(e) => e.is_borrowed(),
            Event::Empty(e) => e.is_borrowed(),
            Event::Text(e) => e.is_borrowed(),
            Event::CData(e) => e.is_borrowed(),
            Event::Comment(e) => e.is_borrowed(),
            Event::ProcessingInstruction(e) => e.is_borrowed(),
            Event::DocTypeDecl(e) => e.is_borrowed(),
            Event::Eof => true,
        }
    }

    /// The bytes that the event carries, as they stand in the document.
    pub fn raw(&self) -> (r: &[u8])
        ensures
            r@ == self@.raw(),
    {
        match self {
            Event::Start(e) => e.raw(),
            Event::End(e) => e.name(),
            Event::Empty(e) => e.raw(),
            Event::Text(e) => e.raw(),
            Event::CData(e) => e.raw(),
            Event::Comment(e) => e.raw(),
            Event::ProcessingInstruction(e) => e.raw(),
            Event::DocTypeDecl(e) => e.raw(),
            Event::Eof => {
                let nothing: &[u8] = &[];
                assert(nothing@ =~= Seq::<u8>::empty());
                nothing
            },
        }
    }

    /// The bytes that the event stands for: character data as it is,
    /// everything else with its entity references resolved. The result is
    /// borrowed unless a reference had to be resolved.
    pub fn unescaped(&self) -> (r: Result<Cow<'_, [u8]>, Error>)
        ensures
            match self@.text() {
                Some(text) => r matches Ok(c) && c@ == text,
                None => r == Err::<Cow<'_, [u8]>, Error>(Error::InvalidEscape),
            },
            self@ is CData || !self@.raw().contains(AMP) ==> r matches Ok(Cow::Borrowed(_)),
            !(self@ is CData) && self@.raw().contains(AMP) ==> !(r matches Ok(Cow::Borrowed(_))),
    {
        match self {
            Event::CData(e) => Ok(Cow::Borrowed(e.raw())),
            _ => unescape(self.raw()),
        }
    }

    /// The text that the event stands for: unescaped, then decoded.
    pub fn unescape_and_decode(&self, decoder: &Decoder) -> (r: Result<String, Error>)
        ensures
            match self@.text() {
                Some(text) => is_decoded(r, decoded(decoder.supported(), text)),
                None => r == Err::<String, Error>(Error::InvalidEscape),
            },
    {
        match self.unescaped() {
            Ok(bytes) => decoder.decode(bytes_of(&bytes)),
            Err(e) => Err(e),
        }
    }

    /// The same event, owning its bytes.
    pub fn into_owned(self) -> (r: Event<'static>)
        ensures
            r@ == self@,
            r@ is Eof || !r.is_borrowed(),
    {
        match self {
            Event::Start(e) => Event::Start(e.into_owned()),
            Event::End(e) => Event::End(e.into_owned()),
            Event::Empty(e) => Event::Empty(e.into_owned()),
            Event::Text(e) => Event::Text(e.into_owned()),
            Event::CData(e) => Event::CData(e.into_owned()),
            Event::Comment(e) => Event::Comment(e.into_owned()),
            Event::ProcessingInstruction(e) => Event::ProcessingInstruction(e.into_owned()),
            Event::DocTypeDecl(e) => Event::DocTypeDecl(e.into_owned()),
            Event::Eof => Event::Eof,
        }
    }
}

} // verus!
