//! The accessor for the elements of a sequence.
//!
//! A sequence is decoded from sibling elements. Unless the record takes all
//! its children under the inner-value name, the siblings of a sequence all
//! carry the name of the first.

use vstd::prelude::*;
use crate::de::{look, DeView, Deserializer};
use crate::errors::Error;
use crate::events::{BytesStart, Event, EventView, StartView};
use crate::scan::{same_bytes, to_vec};

verus! {

/// Which start tags belong to the sequence.
pub enum Names {
    /// Any start tag does.
    Unknown,
    /// Those with this name do.
    Peek(Vec<u8>),
}

impl View for Names {
    type V = Option<Seq<u8>>;

    open spec fn view(&self) -> Option<Seq<u8>> {
        match self {
            Names::Unknown => None,
            Names::Peek(name) => Some(name@),
        }
    }
}

/// Whether a start tag belongs to a sequence of the given names.
pub open spec fn accepts(names: Option<Seq<u8>>, tag: StartView) -> bool {
    match names {
        None => true,
        Some(name) => name == tag.name(),
    }
}

impl Names {
    /// Whether `start` belongs to the sequence.
    pub fn is_valid(&self, start: &BytesStart<'_>) -> (r: bool)
        ensures
            r == accepts(self@, start@),
    {
        match self {
            Names::Unknown => true,
            Names::Peek(name) => same_bytes(name.as_slice(), start.name()),
        }
    }
}

/// The names of a sequence that begins with the given event: a start tag
/// or a self-closing tag gives its name, unless the record takes all
/// children as its inner value.
pub open spec fn names_of(event: EventView, has_value_field: bool) -> Option<Seq<u8>> {
    match event {
        EventView::Start(tag) => if has_value_field {
            None
        } else {
            Some(tag.name())
        },
        EventView::Empty(tag) => if has_value_field {
            None
        } else {
            Some(tag.name())
        },
        _ => None,
    }
}

/// Whether a sequence has another element, given the event that comes next:
/// the end of the enclosing element or of the document ends it, and so does
/// a start tag or a self-closing tag that does not belong to it.
pub open spec fn continues(names: Option<Seq<u8>>, event: EventView) -> bool {
    match event {
        EventView::Eof => false,
        EventView::End(_) => false,
        EventView::Start(tag) => accepts(names, tag),
        EventView::Empty(tag) => accepts(names, tag),
        _ => true,
    }
}

/// How many more elements may be read after one more is asked for.
pub open spec fn one_less(max_size: Option<usize>) -> Option<usize> {
    match max_size {
        Some(n) => Some((n - 1) as usize),
        None => None,
    }
}

/// The accessor as a value.
pub struct SeqView {
    pub de: DeView,
    pub max_size: Option<usize>,
    pub names: Option<Seq<u8>>,
}

/// An accessor for the elements of a sequence.
pub struct SeqAccess<'de, 'a> {
    de: &'a mut Deserializer<'de>,
    max_size: Option<usize>,
    names: Names,
}

impl<'de, 'a> View for SeqAccess<'de, 'a> {
    type V = SeqView;

    closed spec fn view(&self) -> SeqView {
        SeqView { de: (*self.de)@, max_size: self.max_size, names: self.names@ }
    }
}

impl<'de, 'a> SeqAccess<'de, 'a> {
    /// Whether the accessor is in a state that it can have reached.
    pub closed spec fn wf(&self) -> bool {
        self.de.wf()
    }

    /// An accessor for the sequence that begins with the next event, of at
    /// most `max_size` elements if that is given.
    ///
    /// Where the record takes all children as its inner value, no event is
    /// looked at. Otherwise the next event is looked at, and not taken, to
    /// learn the name of the elements.
    pub fn new(de: &'a mut Deserializer<'de>, max_size: Option<usize>) -> (r: Result<Self, Error>)
        requires
            old(de).wf(),
        ensures
            ({
                let t = look(old(de)@.input, old(de)@.config, old(de)@.state);
                if old(de)@.has_value_field {
                    r matches Ok(m) && m.wf() && m@ == (SeqView {
                        de: old(de)@,
                        max_size,
                        names: None,
                    })
                } else {
                    match t.event {
                        Ok(event) => r matches Ok(m) && m.wf() && m@ == (SeqView {
                            de: old(de)@.with(t.after),
                            max_size,
                            names: names_of(event, false),
                        }),
                        Err(e) => r matches Err(x) && x == e && final(de).wf() && final(de)@ == old(
                            de,
                        )@.with(t.after),
                    }
                }
            }),
    {
        let names = if de.has_value_field() {
            Names::Unknown
        } else {
            match de.peek() {
                Err(e) => {
                    return Err(e);
                },
                Ok(Event::Start(e)) => Names::Peek(to_vec(e.name())),
                Ok(Event::Empty(e)) => Names::Peek(to_vec(e.name())),
                Ok(_) => Names::Unknown,
            }
        };
        Ok(SeqAccess { de, max_size, names })
    }

    /// Says whether the sequence has another element; if so, it is read
    /// from the events that come next.
    ///
    /// A sequence that may hold no more elements has none, and no event is
    /// looked at. Otherwise one more element is counted as asked for, and the
    /// next event, which is looked at and not taken, decides: see
    /// `continues`.
    pub fn next_element(&mut self) -> (r: Result<bool, Error>)
        requires
            old(self).wf(),
        ensures
            final(self).wf(),
            final(self)@.names == old(self)@.names,
            ({
                let t = look(old(self)@.de.input, old(self)@.de.config, old(self)@.de.state);
                if old(self)@.max_size == Some(0usize) {
                    r matches Ok(false) && final(self)@ == old(self)@
                } else {
                    &&& final(self)@.max_size == one_less(old(self)@.max_size)
                    &&& final(self)@.de == old(self)@.de.with(t.after)
                    &&& match t.event {
                        Ok(event) => r matches Ok(more) && more == continues(
                            old(self)@.names,
                            event,
                        ),
                        Err(e) => r matches Err(x) && x == e,
                    }
                }
            }),
    {
        match self.max_size {
            Some(n) => {
                if n == 0 {
                    return Ok(false);
                }
                self.max_size = Some(n - 1);
            },
            None => {},
        }
        match self.de.peek() {
            Err(e) => Err(e),
            Ok(Event::Eof) => Ok(false),
            Ok(Event::End(_)) => Ok(false),
            Ok(Event::Start(e)) => Ok(self.names.is_valid(e)),
            Ok(Event::Empty(e)) => Ok(self.names.is_valid(e)),
            Ok(_) => Ok(true),
        }
    }

    /// The deserializer, from which the next element is read.
    pub fn deserializer(&mut self) -> (r: &mut Deserializer<'de>)
        requires
            old(self).wf(),
        ensures
            r.wf(),
            r@ == old(self)@.de,
            final(self)@ == (SeqView { de: final(r)@, ..old(self)@ }),
            final(self).wf() == final(r).wf(),
    {
        &mut *self.de
    }
}

} // verus!
