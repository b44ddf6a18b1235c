//! The accessor for the fields of a record.
//!
//! A record is decoded from one element. Its fields come from three places:
//! the attributes of the start tag, the child elements, and the text inside
//! the element. The accessor names the next field and remembers where its
//! value is to be read from.

use vstd::prelude::*;
use crate::attributes::{attr_step, AttrStep};
use crate::decoder::decoded;
use crate::de::{inner_value, inner_value_name, look, DeView, Deserializer};
use crate::errors::Error;
use crate::escape::{unescape, unescaped};
use crate::events::{bytes_of, local_part, BytesStart, Event, EventView, StartView};
use crate::scan::to_vec;

verus! {

/// Where the value of the field that was named last is to be read from.
pub enum MapValue {
    /// No field has been named, or its value has been read.
    Empty,
    /// The field is an attribute, and this is its value, still escaped.
    Attribute { value: Vec<u8> },
    /// The field is the child element that begins next.
    Nested,
    /// The field is the reserved inner value: the text that comes next, or
    /// the children that are left.
    InnerValue,
}

/// `MapValue` as a value.
pub enum Pending {
    Empty,
    Attribute(Seq<u8>),
    Nested,
    InnerValue,
}

impl View for MapValue {
    type V = Pending;

    open spec fn view(&self) -> Pending {
        match self {
            MapValue::Empty => Pending::Empty,
            MapValue::Attribute { value } => Pending::Attribute(value@),
            MapValue::Nested => Pending::Nested,
            MapValue::InnerValue => Pending::InnerValue,
        }
    }
}

/// The name of a field.
pub enum FieldName {
    /// A name that stands in the document, as bytes.
    Bytes(Seq<u8>),
    /// The reserved inner-value name.
    InnerValue,
}

/// The field that an event begins, and where its value is to be read from,
/// once the attributes are exhausted: text is the inner value; a start tag
/// is the inner value too if the record has a field for it, and otherwise
/// the field that its local name names; anything else ends the record.
pub open spec fn field_of(event: EventView, has_value_field: bool) -> Option<(FieldName, Pending)> {
    match event {
        EventView::Text(_) => Some((FieldName::InnerValue, Pending::InnerValue)),
        EventView::Start(tag) => if has_value_field {
            Some((FieldName::InnerValue, Pending::InnerValue))
        } else {
            Some((FieldName::Bytes(local_part(tag.name())), Pending::Nested))
        },
        _ => None,
    }
}

/// Whether `r` is the field name that `expected` describes, decoded.
pub open spec fn is_field_name(
    r: Result<Option<String>, Error>,
    expected: FieldName,
    decodable: bool,
) -> bool {
    match expected {
        FieldName::InnerValue => r matches Ok(Some(s)) && s@ == inner_value_name(),
        FieldName::Bytes(b) => match decoded(decodable, b) {
            Ok(text) => r matches Ok(Some(s)) && s@ == text,
            Err(e) => r matches Err(x) && x == e,
        },
    }
}

/// What a value is read from.
pub enum FieldValue {
    /// The value is this text: an attribute's value, unescaped and decoded.
    Text(String),
    /// The value is read from the events that come next, through the
    /// deserializer.
    Events,
}

/// The accessor as a value.
pub struct MapView {
    pub start: StartView,
    pub position: int,
    pub value: Pending,
    pub de: DeView,
}

/// An accessor for the fields of the record that one element holds.
pub struct MapAccess<'de, 'a> {
    /// The start tag, which owns the attributes.
    start: BytesStart<'de>,
    de: &'a mut Deserializer<'de>,
    /// The offset in the tag's bytes at which the next attribute is looked
    /// for. The attribute cursor is built anew from it for every step.
    position: usize,
    value: MapValue,
}

impl<'de, 'a> View for MapAccess<'de, 'a> {
    type V = MapView;

    closed spec fn view(&self) -> MapView {
        MapView {
            start: self.start@,
            position: self.position as int,
            value: self.value@,
            de: (*self.de)@,
        }
    }
}

impl<'de, 'a> MapAccess<'de, 'a> {
    /// Whether the accessor is in a state that it can have reached.
    pub closed spec fn wf(&self) -> bool {
        self.de.wf()
    }

    /// An accessor for the record in the element that `start` opened. It
    /// stands before the first attribute, and no field is named yet.
    pub fn new(de: &'a mut Deserializer<'de>, start: BytesStart<'de>) -> (r: Result<Self, Error>)
        requires
            old(de).wf(),
        ensures
            r matches Ok(m) && m.wf() && m@ == (MapView {
                start: start@,
                position: start@.name_len,
                value: Pending::Empty,
                de: old(de)@,
            }),
    {
        let position = start.attributes().position;
        Ok(MapAccess { de, start, position, value: MapValue::Empty })
    }

    /// Yields the next attribute of the start tag, key and value as they
    /// stand, and moves behind it. A malformed attribute is an error and
    /// leaves the accessor where it was.
    pub fn next_attr(&mut self) -> (r: Result<Option<(Vec<u8>, Vec<u8>)>, Error>)
        requires
            old(self).wf(),
        ensures
            final(self).wf(),
            match attr_step(old(self)@.start.buf, old(self)@.position) {
                AttrStep::Found(a) => r matches Ok(Some(pair)) && pair.0@ == a.key(
                    old(self)@.start.buf,
                ) && pair.1@ == a.value(old(self)@.start.buf) && final(self)@ == (MapView {
                    position: a.resume(),
                    ..old(self)@
                }),
                AttrStep::Exhausted => r matches Ok(None) && final(self)@ == (MapView {
                    position: old(self)@.start.buf.len() as int,
                    ..old(self)@
                }),
                AttrStep::Malformed => r matches Err(e) && e == Error::MalformedMarkup
                    && final(self)@ == old(self)@,
            },
    {
        let mut attributes = self.start.attributes();
        attributes.position = self.position;
        match attributes.next() {
            None => {
                self.position = attributes.position;
                Ok(None)
            },
            Some(Err(e)) => Err(e),
            Some(Ok(a)) => {
                self.position = attributes.position;
                Ok(Some((to_vec(a.key), to_vec(a.value))))
            },
        }
    }

    /// Names the next field, and remembers where its value is to be read
    /// from.
    ///
    /// The attributes of the start tag come first: the field is called as
    /// the attribute's key, and its value is the attribute's value. Behind
    /// them the next event decides, which is looked at and not taken: see
    /// `field_of`. `None` means that the record has no more fields. A name
    /// from the document is decoded with the decoder that was in force when
    /// the call began.
    pub fn next_key(&mut self) -> (r: Result<Option<String>, Error>)
        requires
            old(self).wf(),
        ensures
            final(self).wf(),
            final(self)@.start == old(self)@.start,
            final(self)@.de == old(self)@.de.with(final(self)@.de.state),
            match attr_step(old(self)@.start.buf, old(self)@.position) {
                AttrStep::Malformed => r matches Err(e) && e == Error::MalformedMarkup
                    && final(self)@ == old(self)@,
                AttrStep::Found(a) => final(self)@.position == a.resume() && final(self)@.value
                    == Pending::Attribute(a.value(old(self)@.start.buf)) && final(self)@.de == old(
                    self,
                )@.de && is_field_name(
                    r,
                    FieldName::Bytes(a.key(old(self)@.start.buf)),
                    old(self)@.de.state.reader.decodable,
                ),
                AttrStep::Exhausted => {
                    let t = look(old(self)@.de.input, old(self)@.de.config, old(self)@.de.state);
                    &&& final(self)@.position == old(self)@.start.buf.len()
                    &&& final(self)@.de.state == t.after
                    &&& match t.event {
                        Err(e) => r matches Err(x) && x == e && final(self)@.value == old(
                            self,
                        )@.value,
                        Ok(event) => match field_of(event, old(self)@.de.has_value_field) {
                            Some((name, pending)) => final(self)@.value == pending
                                && is_field_name(r, name, old(self)@.de.state.reader.decodable),
                            None => r matches Ok(None) && final(self)@.value == old(self)@.value,
                        },
                    }
                },
            },
    {
        let decoder = self.de.decoder();
        let has_value_field = self.de.has_value_field();
        match self.next_attr() {
            Err(e) => Err(e),
            Ok(Some((key, value))) => {
                self.value = MapValue::Attribute { value };
                match decoder.decode(key.as_slice()) {
                    Ok(s) => Ok(Some(s)),
                    Err(e) => Err(e),
                }
            },
            Ok(None) => {
                match self.de.peek() {
                    Err(e) => Err(e),
                    Ok(Event::Text(_)) => {
                        self.value = MapValue::InnerValue;
                        Ok(Some(inner_value()))
                    },
                    Ok(Event::Start(e)) => {
                        if has_value_field {
                            self.value = MapValue::InnerValue;
                            Ok(Some(inner_value()))
                        } else {
                            let name = to_vec(e.local_name());
                            self.value = MapValue::Nested;
                            match decoder.decode(name.as_slice()) {
                                Ok(s) => Ok(Some(s)),
                                Err(e) => Err(e),
                            }
                        }
                    },
                    Ok(_) => Ok(None),
                }
            },
        }
    }

    /// Says where the value of the field that was named last is read from,
    /// and forgets the field.
    ///
    /// The value of an attribute is handed out as text, unescaped and
    /// decoded. The value of a child element or of the inner value is read
    /// from the events that come next. Without a field that was named and
    /// not yet read, the call is out of order and fails with
    /// `EndOfAttributes`.
    pub fn next_value(&mut self) -> (r: Result<FieldValue, Error>)
        requires
            old(self).wf(),
        ensures
            final(self).wf(),
            final(self)@ == (MapView { value: Pending::Empty, ..old(self)@ }),
            match old(self)@.value {
                Pending::Attribute(v) => match unescaped(v) {
                    Some(t) => match decoded(old(self)@.de.state.reader.decodable, t) {
                        Ok(text) => r matches Ok(FieldValue::Text(s)) && s@ == text,
                        Err(e) => r matches Err(x) && x == e,
                    },
                    None => r matches Err(x) && x == Error::InvalidEscape,
                },
                Pending::Nested => r matches Ok(FieldValue::Events),
                Pending::InnerValue => r matches Ok(FieldValue::Events),
                Pending::Empty => r matches Err(x) && x == Error::EndOfAttributes,
            },
    {
        let mut taken = MapValue::Empty;
        std::mem::swap(&mut self.value, &mut taken);
        match taken {
            MapValue::Attribute { value } => {
                let decoder = self.de.decoder();
                match unescape(value.as_slice()) {
                    Err(e) => Err(e),
                    Ok(text) => match decoder.decode(bytes_of(&text)) {
                        Ok(s) => Ok(FieldValue::Text(s)),
                        Err(e) => Err(e),
                    },
                }
            },
            MapValue::Nested => Ok(FieldValue::Events),
            MapValue::InnerValue => Ok(FieldValue::Events),
            MapValue::Empty => Err(Error::EndOfAttributes),
        }
    }

    /// The deserializer, from which the value of a child element or of the
    /// inner value is read.
    pub fn deserializer(&mut self) -> (r: &mut Deserializer<'de>)
        requires
            old(self).wf(),
        ensures
            r.wf(),
            r@ == old(self)@.de,
            final(self)@ == (MapView { de: final(r)@, ..old(self)@ }),
            final(self).wf() == final(r).wf(),
    {
        &mut *self.de
    }
}

} // verus!
