//! The decoding bridge: an adapter that walks the event stream and answers
//! the questions of a structured-data decoder: what is the next field
//! called, where does its value come from, is there another element, which
//! variant is this.
//!
//! The bridge decides; it does not build values. Whoever drives it turns the
//! text it hands out into typed values and calls back for nested ones.
//!
//! The bridge sees every event of the tokenizer. It passes over nothing
//! when it looks ahead: a comment that comes next is what comes next.

use vstd::prelude::*;
use crate::decoder::Decoder;
use crate::errors::Error;
use crate::events::{BytesStart, Event, EventView, StartView};
use crate::namespace::ResolverView;
use crate::reader::{
    lemma_skip_closes_innermost, lemma_step_advances, measure, skip_to_end, state_ok, step, track,
    Config, Reader, State,
};
use crate::scan::to_vec;

pub mod map;
pub mod seq;
pub mod var;

verus! {

/// The reserved field name under which a record takes the text of its
/// element, or all the children that no other field takes.
pub open spec fn inner_value_name() -> Seq<char> {
    "$value"@
}

/// The reserved field name `$value`.
pub fn inner_value() -> (r: String)
    ensures
        r@ == inner_value_name(),
{
    "$value".to_owned()
}

/// What the bridge remembers between two questions: the tokenizer's state,
/// and the event it has looked at but not taken.
pub struct DeState {
    pub reader: State,
    pub peek: Option<EventView>,
}

/// An event, or the error met on the way to it, and the bridge's state
/// afterwards.
pub struct Taken {
    pub event: Result<EventView, Error>,
    pub after: DeState,
}

/// Takes the next event: the one that was looked at, if there is one, or the
/// tokenizer's next event, whatever it is. After an error the tokenizer has
/// not moved.
pub open spec fn take_next(input: Seq<u8>, cfg: Config, d: DeState) -> Taken {
    match d.peek {
        Some(e) => Taken { event: Ok(e), after: DeState { reader: d.reader, peek: None } },
        None => match step(input, cfg, d.reader) {
            Ok(s) => Taken { event: Ok(s.event), after: DeState { reader: s.next, peek: None } },
            Err(e) => Taken { event: Err(e), after: d },
        },
    }
}

/// Looks at the next event without taking it: the tokenizer's next event,
/// whatever it is, is read once and kept until it is taken.
pub open spec fn look(input: Seq<u8>, cfg: Config, d: DeState) -> Taken {
    match d.peek {
        Some(e) => Taken { event: Ok(e), after: d },
        None => match step(input, cfg, d.reader) {
            Ok(s) => Taken {
                event: Ok(s.event),
                after: DeState { reader: s.next, peek: Some(s.event) },
            },
            Err(e) => Taken { event: Err(e), after: d },
        },
    }
}

/// How far the bridge is from the end of the document.
pub open spec fn de_measure(input: Seq<u8>, d: DeState) -> int {
    measure(input, d.reader) + if d.peek is Some {
        1int
    } else {
        0int
    }
}

/// Taking an event brings the bridge nearer to the end of the document
/// unless it is there or failed.
pub proof fn lemma_take_next(input: Seq<u8>, cfg: Config, d: DeState)
    requires
        state_ok(input, d.reader),
    ensures
        state_ok(input, take_next(input, cfg, d).after.reader),
        match take_next(input, cfg, d).event {
            Ok(e) => d.peek is Some || e is Eof || de_measure(
                input,
                take_next(input, cfg, d).after,
            ) < de_measure(input, d),
            Err(_) => true,
        },
        d.peek is Some ==> de_measure(input, take_next(input, cfg, d).after) < de_measure(
            input,
            d,
        ),
        de_measure(input, take_next(input, cfg, d).after) <= de_measure(input, d),
{
    lemma_step_advances(input, cfg, d.reader);
}

/// Whether `r` is the event or the error that `expected` describes, and
/// `after` the state that goes with it.
pub open spec fn is_taken<'x>(r: Result<Event<'x>, Error>, after: DeState, expected: Taken) -> bool {
    &&& after == expected.after
    &&& match expected.event {
        Ok(e) => r matches Ok(ev) && ev@ == e,
        Err(e) => r matches Err(x) && x == e,
    }
}

/// Whether `r` shows the event or is the error that `expected` describes,
/// and `after` the state that goes with it.
pub open spec fn is_looked<'x, 'y>(
    r: Result<&'y Event<'x>, Error>,
    after: DeState,
    expected: Taken,
) -> bool {
    &&& after == expected.after
    &&& match expected.event {
        Ok(e) => r matches Ok(ev) && ev@ == e,
        Err(e) => r matches Err(x) && x == e,
    }
}

/// How looking for the next start tag ends.
pub struct Started {
    /// The start tag, nothing at the end of the document, or the error.
    pub start: Result<Option<StartView>, Error>,
    pub after: DeState,
}

/// Takes events up to the next start tag. Text, comments, processing
/// instructions and document type declarations on the way are passed over.
/// An end tag or a self-closing tag is an error, and the end of the document
/// gives nothing.
pub open spec fn start_after(input: Seq<u8>, cfg: Config, d: DeState) -> Started
    decreases de_measure(input, d),
    when state_ok(input, d.reader)
    via start_after_decreases
{
    let t = take_next(input, cfg, d);
    match t.event {
        Err(e) => Started { start: Err(e), after: t.after },
        Ok(EventView::Start(tag)) => Started { start: Ok(Some(tag)), after: t.after },
        Ok(EventView::End(_)) => Started { start: Err(Error::UnexpectedEvent), after: t.after },
        Ok(EventView::Empty(_)) => Started { start: Err(Error::UnexpectedEvent), after: t.after },
        Ok(EventView::Eof) => Started { start: Ok(None), after: t.after },
        Ok(_) => start_after(input, cfg, t.after),
    }
}

#[via_fn]
proof fn start_after_decreases(input: Seq<u8>, cfg: Config, d: DeState) {
    lemma_take_next(input, cfg, d);
}

/// How skipping ends.
pub struct Closed {
    pub end: Result<(), Error>,
    pub after: DeState,
}

/// Skips what is left of the element whose start tag was taken last: a
/// child that begins next is skipped first, an end tag that comes next is
/// the end.
pub open spec fn close_element(input: Seq<u8>, cfg: Config, d: DeState) -> Closed {
    let t = take_next(input, cfg, d);
    let first = skip_to_end(input, cfg, t.after.reader, t.after.reader.opened.len());
    let second = skip_to_end(input, cfg, first.state, first.state.opened.len());
    match t.event {
        Err(e) => Closed { end: Err(e), after: t.after },
        Ok(EventView::End(_)) => Closed { end: Ok(()), after: t.after },
        Ok(EventView::Start(_)) => if first.end is Ok {
            Closed { end: second.end, after: DeState { reader: second.state, peek: None } }
        } else {
            Closed { end: first.end, after: DeState { reader: first.state, peek: None } }
        },
        Ok(_) => Closed { end: first.end, after: DeState { reader: first.state, peek: None } },
    }
}

/// The text that an element or a text event stands for.
pub struct Texted {
    /// The text, unescaped, or the error.
    pub text: Result<Seq<u8>, Error>,
    pub after: DeState,
}

/// The text that an event stands for, or `InvalidEscape`.
pub open spec fn text_of(event: EventView) -> Result<Seq<u8>, Error> {
    match event.text() {
        Some(t) => Ok(t),
        None => Err(Error::InvalidEscape),
    }
}

/// Reads a text value.
///
/// Text or character data that comes next is the value. A start tag that
/// comes next opens an element whose content is the value: its text, or
/// nothing if it ends at once; what follows the text inside the element is
/// skipped. A self-closing tag that comes next is taken and the value is
/// empty. An end tag that comes next is left in place and the value is
/// empty. Anything else cannot be read as text.
pub open spec fn text_after(input: Seq<u8>, cfg: Config, d: DeState) -> Texted {
    let t = take_next(input, cfg, d);
    let inner = take_next(input, cfg, t.after);
    let closed = close_element(input, cfg, inner.after);
    match t.event {
        Err(e) => Texted { text: Err(e), after: t.after },
        Ok(EventView::Text(_)) => Texted { text: text_of(t.event->Ok_0), after: t.after },
        Ok(EventView::CData(_)) => Texted { text: text_of(t.event->Ok_0), after: t.after },
        Ok(EventView::Empty(_)) => Texted { text: Ok(Seq::empty()), after: t.after },
        Ok(EventView::End(name)) => Texted {
            text: Ok(Seq::empty()),
            after: DeState { reader: t.after.reader, peek: Some(EventView::End(name)) },
        },
        Ok(EventView::Start(_)) => match inner.event {
            Err(e) => Texted { text: Err(e), after: inner.after },
            Ok(EventView::End(_)) => Texted { text: Ok(Seq::empty()), after: inner.after },
            Ok(EventView::Text(_)) | Ok(EventView::CData(_)) => match closed.end {
                Err(e) => Texted { text: Err(e), after: closed.after },
                Ok(_) => Texted { text: text_of(inner.event->Ok_0), after: closed.after },
            },
            Ok(_) => Texted { text: Err(Error::UnexpectedEvent), after: inner.after },
        },
        Ok(_) => Texted { text: Err(Error::UnexpectedEvent), after: t.after },
    }
}

/// How a value is read of which nothing is known but the event that comes
/// next.
#[derive(Debug, Clone, Copy, PartialEq, Eq, Structural)]
pub enum Shape {
    /// A start tag comes next: the value is a record.
    Record,
    /// An end tag comes next: the value is empty.
    Unit,
    /// Anything else: the value is a text.
    Text,
}

/// How a value is read that begins with the given event.
pub open spec fn shape_of(event: EventView) -> Shape {
    match event {
        EventView::Start(_) => Shape::Record,
        EventView::End(_) => Shape::Unit,
        _ => Shape::Text,
    }
}

/// Whether an optional value is absent, given the event that comes next: it
/// is, where an empty text or the end of the document comes.
pub open spec fn is_absent_at(event: EventView) -> bool {
    match event {
        EventView::Text(t) => t.len() == 0,
        EventView::Eof => true,
        _ => false,
    }
}

/// Reads a value that holds nothing: an element is skipped to its end, a
/// text is taken; an end tag or the end of the document is no value.
pub open spec fn unit_after(input: Seq<u8>, cfg: Config, d: DeState) -> Closed {
    let t = take_next(input, cfg, d);
    match t.event {
        Err(e) => Closed { end: Err(e), after: t.after },
        Ok(EventView::Start(_)) => close_element(input, cfg, t.after),
        Ok(EventView::End(_)) => Closed { end: Err(Error::UnexpectedEvent), after: t.after },
        Ok(EventView::Eof) => Closed { end: Err(Error::UnexpectedEvent), after: t.after },
        Ok(_) => Closed { end: Ok(()), after: t.after },
    }
}

/// Passes over a value that nobody reads: an element is skipped to its end,
/// a text or the end of the document is taken; an end tag is no value.
pub open spec fn ignored_after(input: Seq<u8>, cfg: Config, d: DeState) -> Closed {
    let t = take_next(input, cfg, d);
    match t.event {
        Err(e) => Closed { end: Err(e), after: t.after },
        Ok(EventView::Start(_)) => close_element(input, cfg, t.after),
        Ok(EventView::End(_)) => Closed { end: Err(Error::UnexpectedEvent), after: t.after },
        Ok(_) => Closed { end: Ok(()), after: t.after },
    }
}

/// A start tag that has been looked at is open in the tokenizer: the
/// tokenizer has read it, and its name is the innermost open one.
pub proof fn lemma_looked_at_start_is_open(input: Seq<u8>, cfg: Config, d: DeState)
    requires
        state_ok(input, d.reader),
        d.peek is None,
        look(input, cfg, d).event matches Ok(EventView::Start(_)),
    ensures
        look(input, cfg, d).event matches Ok(EventView::Start(tag)) && look(
            input,
            cfg,
            d,
        ).after.reader.opened == d.reader.opened.push(tag.name()),
        take_next(input, cfg, look(input, cfg, d).after).after.reader == look(
            input,
            cfg,
            d,
        ).after.reader,
{
    lemma_step_advances(input, cfg, d.reader);
    let s = step(input, cfg, d.reader)->Ok_0;
    assert(track(d.reader.opened, s.event) == Some(s.next.opened));
}

/// With `check_end_names`, skipping what is left of an element closes that
/// element and no other, and looks at nothing behind its end tag.
pub proof fn lemma_close_element_closes_innermost(input: Seq<u8>, cfg: Config, d: DeState)
    requires
        state_ok(input, d.reader),
        cfg.check_end_names,
        d.peek is None,
        d.reader.opened.len() >= 1,
        close_element(input, cfg, d).end is Ok,
    ensures
        state_ok(input, close_element(input, cfg, d).after.reader),
        close_element(input, cfg, d).after.peek is None,
        close_element(input, cfg, d).after.reader.opened == d.reader.opened.drop_last(),
{
    lemma_step_advances(input, cfg, d.reader);
    match step(input, cfg, d.reader) {
        Ok(s) => {
            assert(track(d.reader.opened, s.event) == Some(s.next.opened));
            match s.event {
                EventView::End(_) => {},
                EventView::Start(_) => {
                    let first = skip_to_end(input, cfg, s.next, s.next.opened.len());
                    lemma_skip_closes_innermost(input, cfg, s.next);
                    assert(first.state.opened =~= d.reader.opened);
                    lemma_skip_closes_innermost(input, cfg, first.state);
                },
                _ => {
                    lemma_skip_closes_innermost(input, cfg, s.next);
                },
            }
        },
        Err(_) => {},
    }
}

/// With `check_end_names`, a text value that is read from an element
/// consumes exactly that element: its start tag, its content and its end
/// tag. Behind it the elements are open that were open before it, and
/// nothing behind its end tag has been looked at.
pub proof fn lemma_text_reads_one_element(input: Seq<u8>, cfg: Config, d: DeState)
    requires
        state_ok(input, d.reader),
        cfg.check_end_names,
        take_next(input, cfg, d).event matches Ok(EventView::Start(_)),
        take_next(input, cfg, d).after.reader.opened.len() >= 1,
        text_after(input, cfg, d).text is Ok,
    ensures
        text_after(input, cfg, d).after.peek is None,
        text_after(input, cfg, d).after.reader.opened == take_next(
            input,
            cfg,
            d,
        ).after.reader.opened.drop_last(),
        d.peek is None ==> text_after(input, cfg, d).after.reader.opened == d.reader.opened,
{
    lemma_take_next(input, cfg, d);
    lemma_step_advances(input, cfg, d.reader);
    let t = take_next(input, cfg, d);
    if d.peek is None {
        let s = step(input, cfg, d.reader)->Ok_0;
        assert(track(d.reader.opened, s.event) == Some(s.next.opened));
        assert(t.after.reader.opened.drop_last() =~= d.reader.opened);
    }
    lemma_step_advances(input, cfg, t.after.reader);
    let inner = take_next(input, cfg, t.after);
    match step(input, cfg, t.after.reader) {
        Ok(s) => {
            assert(track(t.after.reader.opened, s.event) == Some(s.next.opened));
            match s.event {
                EventView::Text(_) => {
                    lemma_close_element_closes_innermost(input, cfg, inner.after);
                },
                EventView::CData(_) => {
                    lemma_close_element_closes_innermost(input, cfg, inner.after);
                },
                _ => {},
            }
        },
        Err(_) => {},
    }
}

/// With `check_end_names`, a value that nobody reads, or that holds
/// nothing, and that begins with a start tag consumes exactly the element
/// that the tag opens.
pub proof fn lemma_skip_reads_one_element(input: Seq<u8>, cfg: Config, d: DeState)
    requires
        state_ok(input, d.reader),
        cfg.check_end_names,
        take_next(input, cfg, d).event matches Ok(EventView::Start(_)),
        take_next(input, cfg, d).after.reader.opened.len() >= 1,
    ensures
        ignored_after(input, cfg, d) == unit_after(input, cfg, d),
        ignored_after(input, cfg, d).end is Ok ==> ignored_after(input, cfg, d).after.peek is None
            && ignored_after(input, cfg, d).after.reader.opened == take_next(
            input,
            cfg,
            d,
        ).after.reader.opened.drop_last(),
{
    lemma_take_next(input, cfg, d);
    if ignored_after(input, cfg, d).end is Ok {
        lemma_close_element_closes_innermost(input, cfg, take_next(input, cfg, d).after);
    }
}

/// The bridge as a value.
pub struct DeView {
    pub input: Seq<u8>,
    pub config: Config,
    /// The namespace bindings of the tokenizer. The bridge reads without
    /// resolving namespaces and leaves them as they are.
    pub namespaces: ResolverView,
    /// Whether the record that is being decoded has a field under the
    /// reserved inner-value name.
    pub has_value_field: bool,
    pub state: DeState,
}

impl DeView {
    /// The same bridge in another state.
    pub open spec fn with(self, state: DeState) -> DeView {
        DeView { state, ..self }
    }
}

/// The driver of the decoding bridge: a tokenizer, and one event of
/// lookahead.
pub struct Deserializer<'de> {
    reader: Reader<'de>,
    scratch: Vec<u8>,
    peek: Option<Event<'de>>,
    has_value_field: bool,
}

impl<'de> View for Deserializer<'de> {
    type V = DeView;

    closed spec fn view(&self) -> DeView {
        DeView {
            input: self.reader@.input,
            config: self.reader@.config,
            namespaces: self.reader@.namespaces,
            has_value_field: self.has_value_field,
            state: DeState {
                reader: self.reader@.state,
                peek: match self.peek {
                    Some(e) => Some(e@),
                    None => None,
                },
            },
        }
    }
}

impl<'de> Deserializer<'de> {
    /// Whether the bridge is in a state that it can have reached.
    pub closed spec fn wf(&self) -> bool {
        self.reader.wf()
    }

    /// A bridge over a tokenizer, as it is configured.
    ///
    /// Over a tokenizer that does not expand self-closing tags, such a tag
    /// ends a record, names a variant without payload, and reads as an
    /// empty text; where a start tag is asked for it is an error.
    pub fn new(reader: Reader<'de>) -> (r: Self)
        requires
            reader.wf(),
        ensures
            r.wf(),
            r@ == (DeView {
                input: reader@.input,
                config: reader@.config,
                namespaces: reader@.namespaces,
                has_value_field: false,
                state: DeState { reader: reader@.state, peek: None },
            }),
    {
        Deserializer { reader, scratch: Vec::new(), peek: None, has_value_field: false }
    }

    /// A bridge at the start of `input`. Self-closing tags are expanded, end
    /// names are checked and text that is only white space is left out.
    pub fn from_bytes(input: &'de [u8]) -> (r: Self)
        ensures
            r.wf(),
            r@ == (DeView {
                input: input@,
                config: Config {
                    check_end_names: true,
                    check_comments: true,
                    trim_text: true,
                    expand_empty_elements: true,
                },
                namespaces: ResolverView { bindings: Seq::empty() },
                has_value_field: false,
                state: DeState { reader: State::initial(), peek: None },
            }),
    {
        let mut reader = Reader::from_bytes(input);
        reader.expand_empty_elements(true).check_end_names(true).trim_text(true);
        Deserializer::new(reader)
    }

    /// Says whether the record that is decoded next has a field under the
    /// reserved inner-value name.
    pub fn set_has_value_field(&mut self, val: bool)
        requires
            old(self).wf(),
        ensures
            final(self).wf(),
            final(self)@ == (DeView { has_value_field: val, ..old(self)@ }),
    {
        self.has_value_field = val;
    }

    /// Whether the record that is being decoded has a field under the
    /// reserved inner-value name.
    pub fn has_value_field(&self) -> (r: bool)
        ensures
            r == self@.has_value_field,
    {
        self.has_value_field
    }

    /// The decoder for the encoding that the document has declared so far.
    pub fn decoder(&self) -> (r: Decoder)
        ensures
            r.supported() == self@.state.reader.decodable,
    {
        self.reader.decoder()
    }

    /// The state of the tokenizer under the bridge is one it can have.
    pub proof fn lemma_state_ok(&self)
        requires
            self.wf(),
        ensures
            state_ok(self@.input, self@.state.reader),
    {
        self.reader.lemma_state_ok();
    }

    /// Takes the next event.
    pub fn next(&mut self) -> (r: Result<Event<'de>, Error>)
        requires
            old(self).wf(),
        ensures
            final(self).wf(),
            final(self)@ == old(self)@.with(final(self)@.state),
            is_taken(
                r,
                final(self)@.state,
                take_next(old(self)@.input, old(self)@.config, old(self)@.state),
            ),
    {
        match self.peek.take() {
            Some(e) => {
                return Ok(e);
            },
            None => {},
        }
        match self.reader.read_event(&mut self.scratch) {
            Err(e) => Err(e),
            Ok(event) => Ok(event.into_owned()),
        }
    }

    /// Looks at the next event without taking it.
    pub fn peek(&mut self) -> (r: Result<&Event<'de>, Error>)
        requires
            old(self).wf(),
        ensures
            final(self).wf(),
            final(self)@ == old(self)@.with(final(self)@.state),
            is_looked(
                r,
                final(self)@.state,
                look(old(self)@.input, old(self)@.config, old(self)@.state),
            ),
    {
        if self.peek.is_none() {
            match self.next() {
                Ok(e) => {
                    self.peek = Some(e);
                },
                Err(e) => {
                    return Err(e);
                },
            }
        }
        match &self.peek {
            Some(e) => Ok(e),
            None => Err(Error::UnexpectedEvent),
        }
    }

    /// Takes events up to the next start tag.
    pub fn next_start(&mut self) -> (r: Result<Option<BytesStart<'de>>, Error>)
        requires
            old(self).wf(),
        ensures
            final(self).wf(),
            final(self)@ == old(self)@.with(final(self)@.state),
            final(self)@.state == start_after(
                old(self)@.input,
                old(self)@.config,
                old(self)@.state,
            ).after,
            match start_after(old(self)@.input, old(self)@.config, old(self)@.state).start {
                Ok(Some(tag)) => r matches Ok(Some(e)) && e@ == tag,
                Ok(None) => r matches Ok(None),
                Err(e) => r matches Err(x) && x == e,
            },
    {
        loop
            invariant
                self.wf(),
                self@ == old(self)@.with(self@.state),
                start_after(self@.input, self@.config, self@.state) == start_after(
                    old(self)@.input,
                    old(self)@.config,
                    old(self)@.state,
                ),
            decreases de_measure(self@.input, self@.state),
        {
            proof {
                self.lemma_state_ok();
                lemma_take_next(self@.input, self@.config, self@.state);
            }
            match self.next() {
                Err(e) => {
                    return Err(e);
                },
                Ok(Event::Start(e)) => {
                    return Ok(Some(e));
                },
                Ok(Event::End(_)) => {
                    return Err(Error::UnexpectedEvent);
                },
                Ok(Event::Empty(_)) => {
                    return Err(Error::UnexpectedEvent);
                },
                Ok(Event::Eof) => {
                    return Ok(None);
                },
                Ok(_) => {},
            }
        }
    }

    /// Takes events up to the next start tag, which must come before the
    /// end of the document.
    pub fn expect_start(&mut self) -> (r: Result<BytesStart<'de>, Error>)
        requires
            old(self).wf(),
        ensures
            final(self).wf(),
            final(self)@ == old(self)@.with(final(self)@.state),
            final(self)@.state == start_after(
                old(self)@.input,
                old(self)@.config,
                old(self)@.state,
            ).after,
            match start_after(old(self)@.input, old(self)@.config, old(self)@.state).start {
                Ok(Some(tag)) => r matches Ok(e) && e@ == tag,
                Ok(None) => r matches Err(x) && x == Error::UnexpectedEvent,
                Err(e) => r matches Err(x) && x == e,
            },
    {
        match self.next_start() {
            Ok(Some(start)) => Ok(start),
            Ok(None) => Err(Error::UnexpectedEvent),
            Err(e) => Err(e),
        }
    }

    /// Says how a value is read of which nothing is known. The event that
    /// decides is looked at and not taken.
    pub fn shape(&mut self) -> (r: Result<Shape, Error>)
        requires
            old(self).wf(),
        ensures
            final(self).wf(),
            final(self)@ == old(self)@.with(
                look(old(self)@.input, old(self)@.config, old(self)@.state).after,
            ),
            match look(old(self)@.input, old(self)@.config, old(self)@.state).event {
                Ok(event) => r == Ok::<Shape, Error>(shape_of(event)),
                Err(e) => r == Err::<Shape, Error>(e),
            },
    {
        match self.peek() {
            Err(e) => Err(e),
            Ok(Event::Start(_)) => Ok(Shape::Record),
            Ok(Event::End(_)) => Ok(Shape::Unit),
            Ok(_) => Ok(Shape::Text),
        }
    }

    /// Says whether an optional value is absent. The event that decides is
    /// looked at and not taken.
    pub fn is_absent(&mut self) -> (r: Result<bool, Error>)
        requires
            old(self).wf(),
        ensures
            final(self).wf(),
            final(self)@ == old(self)@.with(
                look(old(self)@.input, old(self)@.config, old(self)@.state).after,
            ),
            match look(old(self)@.input, old(self)@.config, old(self)@.state).event {
                Ok(event) => r == Ok::<bool, Error>(is_absent_at(event)),
                Err(e) => r == Err::<bool, Error>(e),
            },
    {
        match self.peek() {
            Err(e) => Err(e),
            Ok(Event::Text(t)) => Ok(t.raw().len() == 0),
            Ok(Event::Eof) => Ok(true),
            Ok(_) => Ok(false),
        }
    }

    /// Reads a value that holds nothing.
    pub fn skip_unit(&mut self) -> (r: Result<(), Error>)
        requires
            old(self).wf(),
        ensures
            final(self).wf(),
            final(self)@ == old(self)@.with(final(self)@.state),
            r == unit_after(old(self)@.input, old(self)@.config, old(self)@.state).end,
            final(self)@.state == unit_after(
                old(self)@.input,
                old(self)@.config,
                old(self)@.state,
            ).after,
    {
        match self.next() {
            Err(e) => Err(e),
            Ok(Event::Start(_)) => self.read_to_end(),
            Ok(Event::End(_)) => Err(Error::UnexpectedEvent),
            Ok(Event::Eof) => Err(Error::UnexpectedEvent),
            Ok(_) => Ok(()),
        }
    }

    /// Passes over a value that nobody reads.
    pub fn skip_value(&mut self) -> (r: Result<(), Error>)
        requires
            old(self).wf(),
        ensures
            final(self).wf(),
            final(self)@ == old(self)@.with(final(self)@.state),
            r == ignored_after(old(self)@.input, old(self)@.config, old(self)@.state).end,
            final(self)@.state == ignored_after(
                old(self)@.input,
                old(self)@.config,
                old(self)@.state,
            ).after,
    {
        match self.next() {
            Err(e) => Err(e),
            Ok(Event::Start(_)) => self.read_to_end(),
            Ok(Event::End(_)) => Err(Error::UnexpectedEvent),
            Ok(_) => Ok(()),
        }
    }

    /// Skips what is left of the element whose start tag was taken last.
    pub fn read_to_end(&mut self) -> (r: Result<(), Error>)
        requires
            old(self).wf(),
        ensures
            final(self).wf(),
            final(self)@ == old(self)@.with(final(self)@.state),
            r == close_element(old(self)@.input, old(self)@.config, old(self)@.state).end,
            final(self)@.state == close_element(
                old(self)@.input,
                old(self)@.config,
                old(self)@.state,
            ).after,
    {
        match self.next() {
            Err(e) => {
                return Err(e);
            },
            Ok(Event::End(_)) => {
                return Ok(());
            },
            Ok(Event::Start(_)) => {
                match self.reader.read_to_end(&mut self.scratch) {
                    Err(e) => {
                        return Err(e);
                    },
                    Ok(_) => {},
                }
            },
            Ok(_) => {},
        }
        self.reader.read_to_end(&mut self.scratch)
    }

    /// Reads a text value: the text that comes next, or the text inside the
    /// element that begins next. The text is unescaped.
    pub fn next_text(&mut self) -> (r: Result<Vec<u8>, Error>)
        requires
            old(self).wf(),
        ensures
            final(self).wf(),
            final(self)@ == old(self)@.with(final(self)@.state),
            final(self)@.state == text_after(
                old(self)@.input,
                old(self)@.config,
                old(self)@.state,
            ).after,
            match text_after(old(self)@.input, old(self)@.config, old(self)@.state).text {
                Ok(t) => r matches Ok(v) && v@ == t,
                Err(e) => r matches Err(x) && x == e,
            },
    {
        match self.next() {
            Err(e) => Err(e),
            Ok(Event::Text(t)) => text_bytes(&Event::Text(t)),
            Ok(Event::CData(t)) => text_bytes(&Event::CData(t)),
            Ok(Event::Empty(_)) => Ok(Vec::new()),
            Ok(Event::End(e)) => {
                self.peek = Some(Event::End(e));
                Ok(Vec::new())
            },
            Ok(Event::Start(_)) => {
                match self.next() {
                    Err(e) => Err(e),
                    Ok(Event::End(_)) => Ok(Vec::new()),
                    Ok(Event::Text(t)) => {
                        match self.read_to_end() {
                            Err(e) => Err(e),
                            Ok(_) => text_bytes(&Event::Text(t)),
                        }
                    },
                    Ok(Event::CData(t)) => {
                        match self.read_to_end() {
                            Err(e) => Err(e),
                            Ok(_) => text_bytes(&Event::CData(t)),
                        }
                    },
                    Ok(_) => Err(Error::UnexpectedEvent),
                }
            },
            Ok(_) => Err(Error::UnexpectedEvent),
        }
    }
}

/// The text that an event stands for, as a vector of its own.
pub fn text_bytes(event: &Event<'_>) -> (r: Result<Vec<u8>, Error>)
    ensures
        match text_of(event@) {
            Ok(t) => r matches Ok(v) && v@ == t,
            Err(e) => r matches Err(x) && x == e,
        },
{
    match event.unescaped() {
        Ok(c) => {
            match c {
                std::borrow::Cow::Borrowed(b) => Ok(to_vec(b)),
                std::borrow::Cow::Owned(v) => Ok(v),
            }
        },
        Err(e) => Err(e),
    }
}

} // verus!
