//! The accessor for a tagged union.
//!
//! The variant is named by the element that holds it, or by a text.

use vstd::prelude::*;
use crate::decoder::decoded;
use crate::de::{close_element, look, take_next, text_bytes, text_of, DeView, Deserializer};
use crate::errors::Error;
use crate::events::{Event, EventView};
use crate::scan::to_vec;

verus! {

/// The bytes that name the variant, given the event that comes next: a
/// text, unescaped, or the name of a start tag or of a self-closing tag.
/// Nothing else names one.
pub open spec fn variant_of(event: EventView) -> Result<Seq<u8>, Error> {
    match event {
        EventView::Text(_) => text_of(event),
        EventView::Start(tag) => Ok(tag.name()),
        EventView::Empty(tag) => Ok(tag.name()),
        _ => Err(Error::UnexpectedEvent),
    }
}

/// The name of the variant as text, or the error that stands in its way.
pub open spec fn variant_name(event: EventView, decodable: bool) -> Result<Seq<char>, Error> {
    match variant_of(event) {
        Ok(bytes) => decoded(decodable, bytes),
        Err(e) => Err(e),
    }
}

/// The accessor as a value.
pub struct EnumView {
    pub de: DeView,
}

/// An accessor for the variant that comes next.
pub struct EnumAccess<'de, 'a> {
    de: &'a mut Deserializer<'de>,
}

impl<'de, 'a> View for EnumAccess<'de, 'a> {
    type V = EnumView;

    closed spec fn view(&self) -> EnumView {
        EnumView { de: (*self.de)@ }
    }
}

impl<'de, 'a> EnumAccess<'de, 'a> {
    /// Whether the accessor is in a state that it can have reached.
    pub closed spec fn wf(&self) -> bool {
        self.de.wf()
    }

    /// An accessor for the variant that the next event names.
    pub fn new(de: &'a mut Deserializer<'de>) -> (r: Self)
        requires
            old(de).wf(),
        ensures
            r.wf(),
            r@ == (EnumView { de: old(de)@ }),
    {
        EnumAccess { de }
    }

    /// Names the variant. The event that names it is looked at and not
    /// taken; the name is decoded with the decoder that was in force when
    /// the call began.
    pub fn variant(&mut self) -> (r: Result<String, Error>)
        requires
            old(self).wf(),
        ensures
            final(self).wf(),
            ({
                let t = look(old(self)@.de.input, old(self)@.de.config, old(self)@.de.state);
                &&& final(self)@.de == old(self)@.de.with(t.after)
                &&& match t.event {
                    Ok(event) => match variant_name(event, old(self)@.de.state.reader.decodable) {
                        Ok(text) => r matches Ok(s) && s@ == text,
                        Err(e) => r matches Err(x) && x == e,
                    },
                    Err(e) => r matches Err(x) && x == e,
                }
            }),
    {
        let decoder = self.de.decoder();
        let name = match self.de.peek() {
            Err(e) => {
                return Err(e);
            },
            Ok(Event::Start(e)) => to_vec(e.name()),
            Ok(Event::Empty(e)) => to_vec(e.name()),
            Ok(Event::Text(t)) => {
                match text_bytes(&Event::Text(t.clone())) {
                    Ok(v) => v,
                    Err(e) => {
                        return Err(e);
                    },
                }
            },
            Ok(_) => {
                return Err(Error::UnexpectedEvent);
            },
        };
        decoder.decode(name.as_slice())
    }

    /// Reads a variant without payload: the element that names it is
    /// skipped to its end; a self-closing tag or a text that names it is
    /// taken, and nothing else.
    pub fn unit_variant(&mut self) -> (r: Result<(), Error>)
        requires
            old(self).wf(),
        ensures
            final(self).wf(),
            ({
                let t = take_next(old(self)@.de.input, old(self)@.de.config, old(self)@.de.state);
                let closed = close_element(old(self)@.de.input, old(self)@.de.config, t.after);
                match t.event {
                    Ok(EventView::Start(_)) => r == closed.end && final(self)@.de == old(
                        self,
                    )@.de.with(closed.after),
                    Ok(EventView::Text(_)) => r == Ok::<(), Error>(()) && final(self)@.de == old(
                        self,
                    )@.de.with(t.after),
                    Ok(EventView::Empty(_)) => r == Ok::<(), Error>(()) && final(self)@.de == old(
                        self,
                    )@.de.with(t.after),
                    Ok(_) => r == Err::<(), Error>(Error::UnexpectedEvent) && final(self)@.de
                        == old(self)@.de.with(t.after),
                    Err(e) => r == Err::<(), Error>(e) && final(self)@.de == old(self)@.de.with(
                        t.after,
                    ),
                }
            }),
    {
        match self.de.next() {
            Err(e) => Err(e),
            Ok(Event::Start(_)) => self.de.read_to_end(),
            Ok(Event::Text(_)) => Ok(()),
            Ok(Event::Empty(_)) => Ok(()),
            Ok(_) => Err(Error::UnexpectedEvent),
        }
    }

    /// The deserializer, from which the payload of the variant is read.
    pub fn deserializer(&mut self) -> (r: &mut Deserializer<'de>)
        requires
            old(self).wf(),
        ensures
            r.wf(),
            r@ == old(self)@.de,
            final(self)@ == (EnumView { de: final(r)@ }),
            final(self).wf() == final(r).wf(),
    {
        &mut *self.de
    }
}

} // verus!
