//! The tokenizer: a pull parser that turns a document into events, one per
//! call.
//!
//! What the tokenizer does is defined by `step`, a function from the
//! document, the configuration and the state between two events to the next
//! event and state. `Reader::read_event` computes exactly that function.

use vstd::prelude::*;
use vstd::string::StringSliceAdditionalSpecFns;
use crate::attributes::{lookup, Attributes, Lookup};
use crate::decoder::{eq_ignore_case, is_utf8_label, same_ignoring_case, Decoder};
use crate::errors::Error;
use crate::escape::{lemma_unescaped_plain, unescape, unescaped};
use crate::events::{bytes_of, BytesEnd, BytesStart, BytesText, Event, EventView, StartView};
use crate::namespace::{
    bindings_ok, declared, lemma_declared_ok, lemma_declared_then_released, lemma_released_ok,
    released, resolved, NamespaceResolver, ResolverView,
};
use crate::scan::{
    find, find_seq, is_whitespace, is_xml_whitespace, lemma_find, lemma_find_seq, matches_at,
    same_bytes, scan, scan_seq, starts_with, ByteClass, AMP, BANG, CR, DASH, GT, LF, LT,
    QUESTION, SLASH,
};

verus! {

/// How strict the tokenizer is, and what it leaves out.
#[derive(Debug, Clone, Copy, PartialEq, Eq, Structural)]
pub struct Config {
    /// An end tag must name the innermost open element.
    pub check_end_names: bool,
    /// A comment must not hold `--` before its terminator.
    pub check_comments: bool,
    /// Text that stands for nothing but white space is left out.
    pub trim_text: bool,
    /// A self-closing tag is reported as a start tag and an end tag.
    pub expand_empty_elements: bool,
}

impl Config {
    /// The configuration of a new reader: both checks on, nothing trimmed,
    /// nothing expanded.
    pub open spec fn strict() -> Config {
        Config {
            check_end_names: true,
            check_comments: true,
            trim_text: false,
            expand_empty_elements: false,
        }
    }
}

/// What the tokenizer remembers between two events.
pub struct State {
    /// The offset of the first byte that has not been read.
    pub pos: int,
    /// The names of the open elements, innermost last.
    pub opened: Seq<Seq<u8>>,
    /// Whether the end tag of an expanded self-closing tag is still due.
    pub pending_end: bool,
    /// Whether the encoding that the document declared can be decoded.
    pub decodable: bool,
}

impl State {
    /// The state before the first event.
    pub open spec fn initial() -> State {
        State { pos: 0, opened: Seq::empty(), pending_end: false, decodable: true }
    }
}

/// One move of the tokenizer: the event it produced and the state it is in
/// afterwards.
pub struct Step {
    pub event: EventView,
    pub next: State,
}

/// Whether `st` can be a state of the tokenizer over `input`.
pub open spec fn state_ok(input: Seq<u8>, st: State) -> bool {
    &&& 0 <= st.pos <= input.len()
    &&& st.opened.len() <= st.pos
    &&& st.pending_end ==> st.opened.len() > 0
}

/// `<!--`
pub open spec fn comment_open() -> Seq<u8> {
    seq![LT, BANG, DASH, DASH]
}

/// `-->`
pub open spec fn comment_close() -> Seq<u8> {
    seq![DASH, DASH, GT]
}

/// `--`
pub open spec fn double_dash() -> Seq<u8> {
    seq![DASH, DASH]
}

/// `<![CDATA[`
pub open spec fn cdata_open() -> Seq<u8> {
    seq![LT, BANG, 0x5bu8, 0x43u8, 0x44u8, 0x41u8, 0x54u8, 0x41u8, 0x5bu8]
}

/// `]]>`
pub open spec fn cdata_close() -> Seq<u8> {
    seq![0x5du8, 0x5du8, GT]
}

/// `<!DOCTYPE`
pub open spec fn doctype_open() -> Seq<u8> {
    seq![LT, BANG, 0x44u8, 0x4fu8, 0x43u8, 0x54u8, 0x59u8, 0x50u8, 0x45u8]
}

/// `?>`
pub open spec fn pi_close() -> Seq<u8> {
    seq![QUESTION, GT]
}

/// `xml`
pub open spec fn xml_target() -> Seq<u8> {
    seq![0x78u8, 0x6du8, 0x6cu8]
}

/// `encoding`
pub open spec fn encoding_key() -> Seq<u8> {
    seq![0x65u8, 0x6eu8, 0x63u8, 0x6fu8, 0x64u8, 0x69u8, 0x6eu8, 0x67u8]
}

/// Whether a document type declaration begins at `at`, in any case.
pub open spec fn doctype_at(input: Seq<u8>, at: int) -> bool {
    0 <= at && at + 9 <= input.len() && same_ignoring_case(
        input.subrange(at, at + 9),
        doctype_open(),
    )
}

/// The offset of the `>` that ends the tag whose content begins at `from`,
/// or `s.len()` if the tag does not end. A `>` inside a quoted attribute
/// value does not end the tag.
pub open spec fn tag_end(s: Seq<u8>, from: int) -> int
    decreases s.len() - from,
    via tag_end_decreases
{
    let stop = find(s, from, ByteClass::TagDelimiter);
    if stop >= s.len() {
        s.len() as int
    } else if s[stop] == GT {
        stop
    } else {
        let close = find(s, stop + 1, ByteClass::Is(s[stop]));
        if close >= s.len() {
            s.len() as int
        } else {
            tag_end(s, close + 1)
        }
    }
}

#[via_fn]
proof fn tag_end_decreases(s: Seq<u8>, from: int) {
    if 0 <= from <= s.len() {
        lemma_find(s, from, ByteClass::TagDelimiter);
        let stop = find(s, from, ByteClass::TagDelimiter);
        if stop < s.len() {
            lemma_find(s, stop + 1, ByteClass::Is(s[stop]));
        }
    }
}

/// The offset of the `>` that ends the document type declaration whose body
/// begins at `from`, or `s.len()` if it does not end. Every `<` inside the
/// body has to be closed by a `>` of its own first; `depth` counts those
/// still open.
pub open spec fn doctype_end(s: Seq<u8>, from: int, depth: nat) -> int
    decreases s.len() - from,
    via doctype_end_decreases
{
    let stop = find(s, from, ByteClass::AngleBracket);
    if stop >= s.len() {
        s.len() as int
    } else if s[stop] == LT {
        doctype_end(s, stop + 1, depth + 1)
    } else if depth == 0 {
        stop
    } else {
        doctype_end(s, stop + 1, (depth - 1) as nat)
    }
}

#[via_fn]
proof fn doctype_end_decreases(s: Seq<u8>, from: int, depth: nat) {
    if 0 <= from <= s.len() {
        lemma_find(s, from, ByteClass::AngleBracket);
    }
}

/// What the byte at `i` contributes to text with normalized line ends: a
/// carriage return before a line feed nothing, any other carriage return a
/// line feed, every other byte itself.
pub open spec fn eol_piece(s: Seq<u8>, i: int) -> Seq<u8> {
    if s[i] == CR {
        if i + 1 < s.len() && s[i + 1] == LF {
            Seq::empty()
        } else {
            seq![LF]
        }
    } else {
        seq![s[i]]
    }
}

/// The first `n` bytes of `s` with line ends normalized.
pub open spec fn normalized_prefix(s: Seq<u8>, n: int) -> Seq<u8>
    decreases n,
{
    if n <= 0 {
        Seq::empty()
    } else {
        normalized_prefix(s, n - 1) + eol_piece(s, n - 1)
    }
}

/// `s` with every line end written as a single line feed.
pub open spec fn normalized(s: Seq<u8>) -> Seq<u8> {
    normalized_prefix(s, s.len() as int)
}

/// Whether `s` is nothing but white space.
pub open spec fn is_blank(s: Seq<u8>) -> bool {
    forall|i: int| 0 <= i < s.len() ==> is_whitespace(#[trigger] s[i])
}

/// Whether text stands for nothing but white space: it can be unescaped,
/// and what it unescapes to is blank.
pub open spec fn stands_for_blank(text: Seq<u8>) -> bool {
    match unescaped(text) {
        Some(t) => is_blank(t),
        None => false,
    }
}

/// Whether a comment body holds `--` anywhere before the `--` of its
/// terminator. The body is followed by the first `-` of the terminator, so
/// a body that ends in `-` counts.
pub open spec fn has_double_dash(body: Seq<u8>) -> bool {
    find_seq(body.push(DASH), 0, double_dash()) < body.len() + 1
}

/// Whether the body of a processing instruction is that of an XML
/// declaration.
pub open spec fn is_xml_declaration(body: Seq<u8>) -> bool {
    matches_at(body, 0, xml_target()) && (body.len() == 3 || is_whitespace(body[3]))
}

/// Whether text can be decoded after a processing instruction with this
/// body: an XML declaration that declares an encoding decides, anything else
/// leaves things as they are.
pub open spec fn declared_decodable(body: Seq<u8>, current: bool) -> bool {
    if is_xml_declaration(body) {
        match lookup(body, 3, encoding_key()) {
            Lookup::At(a) => is_utf8_label(a.value(body)),
            _ => current,
        }
    } else {
        current
    }
}

/// Reads the comment that begins at `at`.
pub open spec fn comment_step(input: Seq<u8>, cfg: Config, st: State, at: int) -> Result<
    Step,
    Error,
> {
    let close = find_seq(input, at + 4, comment_close());
    let body = input.subrange(at + 4, close);
    if close >= input.len() {
        Err(Error::MalformedMarkup)
    } else if cfg.check_comments && has_double_dash(body) {
        Err(Error::InvalidComment)
    } else {
        Ok(Step { event: EventView::Comment(body), next: State { pos: close + 3, ..st } })
    }
}

/// Reads the character data section that begins at `at`.
pub open spec fn cdata_step(input: Seq<u8>, st: State, at: int) -> Result<Step, Error> {
    let close = find_seq(input, at + 9, cdata_close());
    if close >= input.len() {
        Err(Error::MalformedMarkup)
    } else {
        Ok(
            Step {
                event: EventView::CData(input.subrange(at + 9, close)),
                next: State { pos: close + 3, ..st },
            },
        )
    }
}

/// Reads the document type declaration that begins at `at`.
pub open spec fn doctype_step(input: Seq<u8>, st: State, at: int) -> Result<Step, Error> {
    let close = doctype_end(input, at + 9, 0);
    if close >= input.len() {
        Err(Error::MalformedMarkup)
    } else {
        Ok(
            Step {
                event: EventView::DocTypeDecl(input.subrange(at + 9, close)),
                next: State { pos: close + 1, ..st },
            },
        )
    }
}

/// Reads the processing instruction that begins at `at`.
pub open spec fn pi_step(input: Seq<u8>, st: State, at: int) -> Result<Step, Error> {
    let close = find_seq(input, at + 2, pi_close());
    let body = input.subrange(at + 2, close);
    if close >= input.len() {
        Err(Error::MalformedMarkup)
    } else {
        Ok(
            Step {
                event: EventView::ProcessingInstruction(body),
                next: State {
                    pos: close + 2,
                    decodable: declared_decodable(body, st.decodable),
                    ..st
                },
            },
        )
    }
}

/// Reads the end tag that begins at `at`.
///
/// The tag closes the innermost open element. With `check_end_names` the
/// name written in the tag must be that element's name. Without it the name
/// written is not looked at: the event carries the name of the element that
/// is closed, and only where no element is open the name as written.
pub open spec fn end_tag_step(input: Seq<u8>, cfg: Config, st: State, at: int) -> Result<
    Step,
    Error,
> {
    let close = find(input, at + 2, ByteClass::Is(GT));
    let blank = find(input, at + 2, ByteClass::Whitespace);
    let name_end = if blank < close {
        blank
    } else {
        close
    };
    let found = input.subrange(at + 2, name_end);
    if close >= input.len() {
        Err(Error::MalformedMarkup)
    } else if st.opened.len() > 0 {
        if cfg.check_end_names && st.opened.last() != found {
            Err(Error::TagMismatch)
        } else {
            Ok(
                Step {
                    event: EventView::End(st.opened.last()),
                    next: State { pos: close + 1, opened: st.opened.drop_last(), ..st },
                },
            )
        }
    } else if cfg.check_end_names {
        Err(Error::TagMismatch)
    } else {
        Ok(Step { event: EventView::End(found), next: State { pos: close + 1, ..st } })
    }
}

/// Reads the start tag or self-closing tag that begins at `at`.
pub open spec fn start_tag_step(input: Seq<u8>, cfg: Config, st: State, at: int) -> Result<
    Step,
    Error,
> {
    let close = tag_end(input, at + 1);
    let self_closing = close > at + 1 && input[close - 1] == SLASH;
    let content_end = if self_closing {
        close - 1
    } else {
        close
    };
    let blank = find(input, at + 1, ByteClass::Whitespace);
    let name_end = if blank < content_end {
        blank
    } else {
        content_end
    };
    let tag = StartView { buf: input.subrange(at + 1, content_end), name_len: name_end - (at + 1) };
    if close >= input.len() {
        Err(Error::MalformedMarkup)
    } else if !self_closing {
        Ok(
            Step {
                event: EventView::Start(tag),
                next: State { pos: close + 1, opened: st.opened.push(tag.name()), ..st },
            },
        )
    } else if cfg.expand_empty_elements {
        Ok(
            Step {
                event: EventView::Start(tag),
                next: State {
                    pos: close + 1,
                    opened: st.opened.push(tag.name()),
                    pending_end: true,
                    ..st
                },
            },
        )
    } else {
        Ok(Step { event: EventView::Empty(tag), next: State { pos: close + 1, ..st } })
    }
}

/// Reads the markup that begins with the `<` at `at`.
pub open spec fn markup_step(input: Seq<u8>, cfg: Config, st: State, at: int) -> Result<
    Step,
    Error,
> {
    if matches_at(input, at, comment_open()) {
        comment_step(input, cfg, st, at)
    } else if matches_at(input, at, cdata_open()) {
        cdata_step(input, st, at)
    } else if doctype_at(input, at) {
        doctype_step(input, st, at)
    } else if at + 1 < input.len() && input[at + 1] == BANG {
        Err(Error::MalformedMarkup)
    } else if at + 1 < input.len() && input[at + 1] == QUESTION {
        pi_step(input, st, at)
    } else if at + 1 < input.len() && input[at + 1] == SLASH {
        end_tag_step(input, cfg, st, at)
    } else {
        start_tag_step(input, cfg, st, at)
    }
}

/// The next event, and the state behind it.
///
/// An end tag that is still due for an expanded self-closing tag comes
/// first. Otherwise everything up to the next `<` is text, with its line
/// ends normalized. The text is left out if `trim_text` is set and it
/// stands for nothing but white space; behind it comes the end of the
/// document or markup.
pub open spec fn step(input: Seq<u8>, cfg: Config, st: State) -> Result<Step, Error> {
    let lt = find(input, st.pos, ByteClass::Is(LT));
    let text = normalized(input.subrange(st.pos, lt));
    if st.pending_end {
        Ok(
            Step {
                event: EventView::End(st.opened.last()),
                next: State { opened: st.opened.drop_last(), pending_end: false, ..st },
            },
        )
    } else if st.pos < lt && !(cfg.trim_text && stands_for_blank(text)) {
        Ok(Step { event: EventView::Text(text), next: State { pos: lt, ..st } })
    } else if lt >= input.len() {
        Ok(Step { event: EventView::Eof, next: State { pos: input.len() as int, ..st } })
    } else {
        markup_step(input, cfg, st, lt)
    }
}

/// Text without carriage returns is normalized as it stands.
pub proof fn lemma_normalized_plain(s: Seq<u8>)
    requires
        forall|i: int| 0 <= i < s.len() ==> #[trigger] s[i] != CR,
    ensures
        normalized(s) == s,
{
    lemma_normalized_prefix_plain(s, s.len() as int);
    assert(s.subrange(0, s.len() as int) =~= s);
}

proof fn lemma_normalized_prefix_plain(s: Seq<u8>, n: int)
    requires
        0 <= n <= s.len(),
        forall|i: int| 0 <= i < s.len() ==> #[trigger] s[i] != CR,
    ensures
        normalized_prefix(s, n) == s.subrange(0, n),
    decreases n,
{
    if n > 0 {
        lemma_normalized_prefix_plain(s, n - 1);
        assert(s.subrange(0, n - 1) + seq![s[n - 1]] =~= s.subrange(0, n));
    } else {
        assert(s.subrange(0, 0) =~= Seq::<u8>::empty());
    }
}

/// The end of a tag lies behind where the search began, and holds a `>`.
pub proof fn lemma_tag_end(s: Seq<u8>, from: int)
    requires
        0 <= from <= s.len(),
    ensures
        from <= tag_end(s, from) <= s.len(),
        tag_end(s, from) < s.len() ==> s[tag_end(s, from)] == GT,
    decreases s.len() - from,
{
    lemma_find(s, from, ByteClass::TagDelimiter);
    let stop = find(s, from, ByteClass::TagDelimiter);
    if stop < s.len() && s[stop] != GT {
        lemma_find(s, stop + 1, ByteClass::Is(s[stop]));
        let close = find(s, stop + 1, ByteClass::Is(s[stop]));
        if close < s.len() {
            lemma_tag_end(s, close + 1);
        }
    }
}

/// The end of a document type declaration lies behind where the search
/// began.
pub proof fn lemma_doctype_end(s: Seq<u8>, from: int, depth: nat)
    requires
        0 <= from <= s.len(),
    ensures
        from <= doctype_end(s, from, depth) <= s.len(),
    decreases s.len() - from,
{
    lemma_find(s, from, ByteClass::AngleBracket);
    let stop = find(s, from, ByteClass::AngleBracket);
    if stop < s.len() {
        if s[stop] == LT {
            lemma_doctype_end(s, stop + 1, depth + 1);
        } else if depth > 0 {
            lemma_doctype_end(s, stop + 1, (depth - 1) as nat);
        }
    }
}

/// How far the tokenizer is from the end of the document: it falls with
/// every event but the last.
pub open spec fn measure(input: Seq<u8>, st: State) -> int {
    2 * (input.len() - st.pos) + if st.pending_end {
        1int
    } else {
        0int
    }
}

/// Every move leaves the tokenizer in a state it can have, never moves it
/// backwards, and brings it nearer to the end of the document unless it is
/// there.
pub proof fn lemma_step_advances(input: Seq<u8>, cfg: Config, st: State)
    requires
        state_ok(input, st),
    ensures
        match step(input, cfg, st) {
            Ok(s) => state_ok(input, s.next) && st.pos <= s.next.pos && (s.event is Eof || measure(
                input,
                s.next,
            ) < measure(input, st)),
            Err(_) => true,
        },
{
    lemma_find(input, st.pos, ByteClass::Is(LT));
    let at = find(input, st.pos, ByteClass::Is(LT));
    if !st.pending_end && at < input.len() && !(st.pos < at && !(cfg.trim_text
        && stands_for_blank(normalized(input.subrange(st.pos, at))))) {
        if matches_at(input, at, comment_open()) {
            lemma_find_seq(input, at + 4, comment_close());
        } else if matches_at(input, at, cdata_open()) {
            lemma_find_seq(input, at + 9, cdata_close());
        } else if doctype_at(input, at) {
            lemma_doctype_end(input, at + 9, 0);
        } else if at + 1 < input.len() && input[at + 1] == BANG {
        } else if at + 1 < input.len() && input[at + 1] == QUESTION {
            lemma_find_seq(input, at + 2, pi_close());
        } else if at + 1 < input.len() && input[at + 1] == SLASH {
            lemma_find(input, at + 2, ByteClass::Is(GT));
        } else {
            lemma_tag_end(input, at + 1);
        }
    }
}

/// The end of the document is final: once it is reported, every further
/// read reports it again, and nothing moves.
pub proof fn lemma_eof_is_final(input: Seq<u8>, cfg: Config, st: State)
    requires
        state_ok(input, st),
        step(input, cfg, st) matches Ok(s) && s.event is Eof,
    ensures
        step(input, cfg, step(input, cfg, st)->Ok_0.next) == step(input, cfg, st),
{
    lemma_find(input, st.pos, ByteClass::Is(LT));
    let after = step(input, cfg, st)->Ok_0.next;
    assert(after.pos == input.len());
    assert(input.subrange(after.pos, input.len() as int).len() == 0);
}

/// The events of a document from some state on, and how they end.
pub struct Trace {
    /// The events up to and including the end of the document, or up to
    /// the error.
    pub events: Seq<EventView>,
    /// The state at the end of the document, or the error.
    pub end: Result<State, Error>,
}

/// Everything the tokenizer produces from the state `st` on, when it is
/// asked for events until it reports the end of the document or an error.
pub open spec fn run(input: Seq<u8>, cfg: Config, st: State) -> Trace
    decreases measure(input, st),
    when state_ok(input, st)
    via run_decreases
{
    match step(input, cfg, st) {
        Err(e) => Trace { events: Seq::empty(), end: Err(e) },
        Ok(s) => if s.event is Eof {
            Trace { events: seq![s.event], end: Ok(s.next) }
        } else {
            Trace {
                events: seq![s.event] + run(input, cfg, s.next).events,
                end: run(input, cfg, s.next).end,
            }
        },
    }
}

#[via_fn]
proof fn run_decreases(input: Seq<u8>, cfg: Config, st: State) {
    lemma_step_advances(input, cfg, st);
}

/// Whether the tokenizer reads the whole document without an error and
/// leaves no element open.
pub open spec fn well_formed(input: Seq<u8>, cfg: Config) -> bool {
    run(input, cfg, State::initial()).end matches Ok(st) && st.opened.len() == 0
}

/// What an event does to the stack of open element names: a start tag puts
/// its name on top, an end tag takes the top off and must carry its name,
/// and nothing else touches the stack.
pub open spec fn track(stack: Seq<Seq<u8>>, event: EventView) -> Option<Seq<Seq<u8>>> {
    match event {
        EventView::Start(tag) => Some(stack.push(tag.name())),
        EventView::End(name) => if stack.len() > 0 && stack.last() == name {
            Some(stack.drop_last())
        } else {
            None
        },
        _ => Some(stack),
    }
}

/// What a sequence of events does to the stack of open element names.
/// `None` if some end tag meets no start tag of its name on top.
pub open spec fn track_all(stack: Seq<Seq<u8>>, events: Seq<EventView>) -> Option<Seq<Seq<u8>>>
    decreases events.len(),
{
    if events.len() == 0 {
        Some(stack)
    } else {
        match track(stack, events[0]) {
            Some(next) => track_all(next, events.skip(1)),
            None => None,
        }
    }
}

/// With `check_end_names`, what the tokenizer knows of the open elements is
/// what its events say: from any state on, the events of a run without
/// error take the stack of open names from what it was to what it is at the
/// end.
pub proof fn lemma_run_tracks(input: Seq<u8>, cfg: Config, st: State)
    requires
        state_ok(input, st),
        cfg.check_end_names,
        run(input, cfg, st).end is Ok,
    ensures
        run(input, cfg, st).end matches Ok(last) && track_all(st.opened, run(input, cfg, st).events)
            == Some(last.opened),
    decreases measure(input, st),
{
    lemma_step_advances(input, cfg, st);
    let trace = run(input, cfg, st);
    match step(input, cfg, st) {
        Ok(s) => {
            assert(track(st.opened, s.event) == Some(s.next.opened));
            if s.event is Eof {
                assert(trace.events == seq![s.event]);
                assert(trace.events.skip(1) =~= Seq::<EventView>::empty());
                assert(track_all(s.next.opened, Seq::<EventView>::empty()) == Some(s.next.opened));
            } else {
                lemma_run_tracks(input, cfg, s.next);
                assert(trace.events == seq![s.event] + run(input, cfg, s.next).events);
                assert(trace.events.skip(1) =~= run(input, cfg, s.next).events);
            }
            assert(trace.events[0] == s.event);
        },
        Err(_) => {},
    }
}

/// In a well-formed document read with `check_end_names`, every start tag
/// has exactly one end tag, with the same name and at the same depth, and a
/// self-closing tag has none: the events take the empty stack of open names
/// to the empty stack.
pub proof fn lemma_start_end_pairing(input: Seq<u8>, cfg: Config)
    requires
        cfg.check_end_names,
        well_formed(input, cfg),
    ensures
        track_all(Seq::empty(), run(input, cfg, State::initial()).events) == Some(
            Seq::<Seq<u8>>::empty(),
        ),
{
    lemma_run_tracks(input, cfg, State::initial());
    assert(run(input, cfg, State::initial()).end->Ok_0.opened =~= Seq::<Seq<u8>>::empty());
}

/// With `trim_text`, no text event stands for nothing but white space; in
/// particular none is blank as it is.
pub proof fn lemma_trim_leaves_no_blank_text(input: Seq<u8>, cfg: Config, st: State)
    requires
        cfg.trim_text,
    ensures
        match step(input, cfg, st) {
            Ok(s) => s.event matches EventView::Text(t) ==> !stands_for_blank(t) && !is_blank(t),
            Err(_) => true,
        },
{
    if let Ok(s) = step(input, cfg, st) {
        if let EventView::Text(t) = s.event {
            if is_blank(t) {
                assert(!t.contains(AMP)) by {
                    if t.contains(AMP) {
                        let i = choose|i: int| 0 <= i < t.len() && t[i] == AMP;
                        assert(is_whitespace(t[i]));
                    }
                }
                lemma_unescaped_plain(t);
            }
        }
    }
}

/// `trim_text` touches nothing but text: an event that is not text, and
/// character data in particular, is produced with `trim_text` exactly as
/// without it, whatever it holds.
pub proof fn lemma_trim_touches_only_text(input: Seq<u8>, cfg: Config, st: State)
    requires
        state_ok(input, st),
        !cfg.trim_text,
        step(input, cfg, st) matches Ok(s) && !(s.event is Text),
    ensures
        step(input, Config { trim_text: true, ..cfg }, st) == step(input, cfg, st),
{
    lemma_find(input, st.pos, ByteClass::Is(LT));
}

/// What an event does to the namespace bindings, where `depth` elements
/// are open behind it: a start tag puts its declarations on top, an end tag
/// releases those of the element it closes, and a self-closing tag does
/// both at once.
pub open spec fn ns_apply(r: ResolverView, event: EventView, depth: int) -> ResolverView {
    match event {
        EventView::Start(tag) => declared(r, tag, depth),
        EventView::Empty(tag) => released(declared(r, tag, depth + 1), depth),
        EventView::End(_) => released(r, depth),
        _ => r,
    }
}

/// The namespace of the element that an event names, where `depth`
/// elements are open behind it. A tag's own declarations count for its
/// name. Events without a name are in no namespace.
pub open spec fn namespace_of(r: ResolverView, event: EventView, depth: int) -> Option<Seq<u8>> {
    match event {
        EventView::Start(tag) => resolved(declared(r, tag, depth), tag.name(), true),
        EventView::Empty(tag) => resolved(declared(r, tag, depth + 1), tag.name(), true),
        EventView::End(name) => resolved(r, name, true),
        _ => None,
    }
}

/// One namespace-aware move of the tokenizer.
pub struct NsStep {
    pub namespace: Option<Seq<u8>>,
    pub event: EventView,
    pub next: State,
    pub namespaces: ResolverView,
}

/// The next event with its namespace, and the state and the bindings
/// behind it.
pub open spec fn ns_step(input: Seq<u8>, cfg: Config, st: State, r: ResolverView) -> Result<
    NsStep,
    Error,
> {
    match step(input, cfg, st) {
        Err(e) => Err(e),
        Ok(s) => Ok(
            NsStep {
                namespace: namespace_of(r, s.event, s.next.opened.len() as int),
                event: s.event,
                next: s.next,
                namespaces: ns_apply(r, s.event, s.next.opened.len() as int),
            },
        ),
    }
}

/// The namespace bindings at the end of a run of namespace-aware reads from
/// the state `st` on, up to the end of the document or the first error.
pub open spec fn namespaces_after(input: Seq<u8>, cfg: Config, st: State, r: ResolverView) -> ResolverView
    decreases measure(input, st),
    when state_ok(input, st)
    via namespaces_after_decreases
{
    match ns_step(input, cfg, st, r) {
        Err(_) => r,
        Ok(s) => if s.event is Eof {
            s.namespaces
        } else {
            namespaces_after(input, cfg, s.next, s.namespaces)
        },
    }
}

#[via_fn]
proof fn namespaces_after_decreases(input: Seq<u8>, cfg: Config, st: State, r: ResolverView) {
    lemma_step_advances(input, cfg, st);
}

/// A namespace-aware move keeps the bindings in step with the open
/// elements: every binding belongs to an element that is open.
pub proof fn lemma_ns_step_keeps_bindings(input: Seq<u8>, cfg: Config, st: State, r: ResolverView)
    requires
        state_ok(input, st),
        bindings_ok(r.bindings, st.opened.len() as int),
    ensures
        match ns_step(input, cfg, st, r) {
            Ok(s) => bindings_ok(s.namespaces.bindings, s.next.opened.len() as int),
            Err(_) => true,
        },
{
    lemma_step_advances(input, cfg, st);
    let depth = st.opened.len() as int;
    match step(input, cfg, st) {
        Ok(s) => {
            match s.event {
                EventView::Start(tag) => {
                    lemma_declared_ok(r, tag, depth);
                },
                EventView::Empty(tag) => {
                    lemma_declared_then_released(r, tag, depth);
                },
                EventView::End(_) => {
                    lemma_released_ok(r.bindings, depth, s.next.opened.len() as int);
                },
                _ => {},
            }
        },
        Err(_) => {},
    }
}

/// Through a run without error the bindings stay in step with the open
/// elements.
pub proof fn lemma_namespaces_tracked(input: Seq<u8>, cfg: Config, st: State, r: ResolverView)
    requires
        state_ok(input, st),
        bindings_ok(r.bindings, st.opened.len() as int),
        run(input, cfg, st).end is Ok,
    ensures
        run(input, cfg, st).end matches Ok(last) && bindings_ok(
            namespaces_after(input, cfg, st, r).bindings,
            last.opened.len() as int,
        ),
    decreases measure(input, st),
{
    lemma_step_advances(input, cfg, st);
    lemma_ns_step_keeps_bindings(input, cfg, st, r);
    match ns_step(input, cfg, st, r) {
        Ok(s) => {
            if !(s.event is Eof) {
                lemma_namespaces_tracked(input, cfg, s.next, s.namespaces);
            }
        },
        Err(_) => {},
    }
}

/// Namespace stack balance: when a well-formed document has been read to
/// its end with namespace-aware reads, no binding is left.
pub proof fn lemma_namespaces_balanced(input: Seq<u8>, cfg: Config)
    requires
        well_formed(input, cfg),
    ensures
        namespaces_after(
            input,
            cfg,
            State::initial(),
            ResolverView { bindings: Seq::empty() },
        ).bindings.len() == 0,
{
    let none = ResolverView { bindings: Seq::empty() };
    lemma_namespaces_tracked(input, cfg, State::initial(), none);
    let left = namespaces_after(input, cfg, State::initial(), none).bindings;
    if left.len() > 0 {
        assert(1 <= left[0].level <= 0);
    }
}

/// How skipping to the end of an element ends.
pub struct Skipped {
    /// Whether the end tag was reached.
    pub end: Result<(), Error>,
    /// The state behind the end tag, behind the end of the document, or
    /// before what could not be read.
    pub state: State,
}

/// Reads events from `st` on until an end tag leaves fewer than `open`
/// elements open. Reaching the end of the document first is an error.
pub open spec fn skip_to_end(input: Seq<u8>, cfg: Config, st: State, open: nat) -> Skipped
    decreases measure(input, st),
    when state_ok(input, st)
    via skip_to_end_decreases
{
    match step(input, cfg, st) {
        Err(e) => Skipped { end: Err(e), state: st },
        Ok(s) => if s.event is Eof {
            Skipped { end: Err(Error::MalformedMarkup), state: s.next }
        } else if s.event is End && s.next.opened.len() < open {
            Skipped { end: Ok(()), state: s.next }
        } else {
            skip_to_end(input, cfg, s.next, open)
        },
    }
}

#[via_fn]
proof fn skip_to_end_decreases(input: Seq<u8>, cfg: Config, st: State, open: nat) {
    lemma_step_advances(input, cfg, st);
}

/// The events that skipping to the end of an element reads: all up to and
/// including the end tag that leaves fewer than `open` elements open, and
/// none behind it.
pub open spec fn skipped_events(input: Seq<u8>, cfg: Config, st: State, open: nat) -> Seq<
    EventView,
>
    decreases measure(input, st),
    when state_ok(input, st)
    via skipped_events_decreases
{
    match step(input, cfg, st) {
        Err(_) => Seq::empty(),
        Ok(s) => if s.event is Eof || (s.event is End && s.next.opened.len() < open) {
            seq![s.event]
        } else {
            seq![s.event] + skipped_events(input, cfg, s.next, open)
        },
    }
}

#[via_fn]
proof fn skipped_events_decreases(input: Seq<u8>, cfg: Config, st: State, open: nat) {
    lemma_step_advances(input, cfg, st);
}

/// With `check_end_names`, skipping to the end of an element reads exactly
/// one balanced run of events: it ends with an end tag, every start tag in
/// it has its end tag in it, and it takes the open elements from what they
/// were to the first `open - 1` of them.
pub proof fn lemma_skip_reads_balanced_run(input: Seq<u8>, cfg: Config, st: State, open: nat)
    requires
        state_ok(input, st),
        cfg.check_end_names,
        1 <= open <= st.opened.len(),
        skip_to_end(input, cfg, st, open).end is Ok,
    ensures
        state_ok(input, skip_to_end(input, cfg, st, open).state),
        skip_to_end(input, cfg, st, open).state.opened == st.opened.take(open - 1),
        track_all(st.opened, skipped_events(input, cfg, st, open)) == Some(
            st.opened.take(open - 1),
        ),
        skipped_events(input, cfg, st, open).len() > 0,
        skipped_events(input, cfg, st, open).last() is End,
    decreases measure(input, st),
{
    lemma_step_advances(input, cfg, st);
    let events = skipped_events(input, cfg, st, open);
    let target = st.opened.take(open - 1);
    match step(input, cfg, st) {
        Ok(s) => {
            assert(track(st.opened, s.event) == Some(s.next.opened));
            if s.event is End && s.next.opened.len() < open {
                assert(s.next.opened =~= target);
                assert(events == seq![s.event]);
                assert(events.skip(1) =~= Seq::<EventView>::empty());
                assert(track_all(s.next.opened, Seq::<EventView>::empty()) == Some(
                    s.next.opened,
                ));
            } else if !(s.event is Eof) {
                assert(s.next.opened.len() >= open);
                assert(s.next.opened.take(open - 1) =~= target);
                lemma_skip_reads_balanced_run(input, cfg, s.next, open);
                let rest = skipped_events(input, cfg, s.next, open);
                assert(events == seq![s.event] + rest);
                assert(events.skip(1) =~= rest);
                assert(events.last() == rest.last());
            }
            assert(events[0] == s.event);
        },
        Err(_) => {},
    }
}

/// Skipping to the end of the innermost open element closes that element
/// and no other.
pub proof fn lemma_skip_closes_innermost(input: Seq<u8>, cfg: Config, st: State)
    requires
        state_ok(input, st),
        cfg.check_end_names,
        st.opened.len() >= 1,
        skip_to_end(input, cfg, st, st.opened.len()).end is Ok,
    ensures
        state_ok(input, skip_to_end(input, cfg, st, st.opened.len()).state),
        skip_to_end(input, cfg, st, st.opened.len()).state.opened == st.opened.drop_last(),
        track_all(st.opened, skipped_events(input, cfg, st, st.opened.len())) == Some(
            st.opened.drop_last(),
        ),
{
    lemma_skip_reads_balanced_run(input, cfg, st, st.opened.len());
    assert(st.opened.take(st.opened.len() - 1) =~= st.opened.drop_last());
}

/// Finds the `>` that ends the tag whose content begins at `from`.
fn scan_tag_end(input: &[u8], from: usize) -> (r: usize)
    requires
        from <= input@.len(),
    ensures
        r == tag_end(input@, from as int),
        from <= r <= input@.len(),
        r < input@.len() ==> input@[r as int] == GT,
{
    let len = input.len();
    let mut i: usize = from;
    loop
        invariant
            len == input@.len(),
            from <= i <= len,
            tag_end(input@, from as int) == tag_end(input@, i as int),
        decreases len - i,
    {
        let stop = scan(input, i, ByteClass::TagDelimiter);
        if stop >= len {
            return len;
        }
        if input[stop] == GT {
            return stop;
        }
        let close = scan(input, stop + 1, ByteClass::Is(input[stop]));
        if close >= len {
            return len;
        }
        i = close + 1;
    }
}

/// Finds the `>` that ends the document type declaration whose body begins
/// at `from`.
fn scan_doctype_end(input: &[u8], from: usize) -> (r: usize)
    requires
        from <= input@.len(),
    ensures
        r == doctype_end(input@, from as int, 0),
        from <= r <= input@.len(),
{
    let len = input.len();
    let mut i: usize = from;
    let mut depth: usize = 0;
    loop
        invariant
            len == input@.len(),
            from <= i <= len,
            depth <= i,
            doctype_end(input@, from as int, 0) == doctype_end(input@, i as int, depth as nat),
        decreases len - i,
    {
        let stop = scan(input, i, ByteClass::AngleBracket);
        if stop >= len {
            return len;
        }
        if input[stop] == LT {
            depth = depth + 1;
        } else if depth == 0 {
            return stop;
        } else {
            depth = depth - 1;
        }
        i = stop + 1;
    }
}

/// Writes `raw` into `out` with line ends normalized.
fn normalize_into(raw: &[u8], out: &mut Vec<u8>)
    ensures
        final(out)@ == normalized(raw@),
{
    out.clear();
    let len = raw.len();
    let mut i: usize = 0;
    while i < len
        invariant
            len == raw@.len(),
            i <= len,
            out@ == normalized_prefix(raw@, i as int),
        decreases len - i,
    {
        let b = raw[i];
        if b == CR {
            if !(i + 1 < len && raw[i + 1] == LF) {
                out.push(LF);
            }
        } else {
            out.push(b);
        }
        assert(out@ =~= normalized_prefix(raw@, i as int) + eol_piece(raw@, i as int));
        i += 1;
    }
}

/// Tests whether text stands for nothing but white space.
pub fn is_blank_text(text: &[u8]) -> (r: bool)
    ensures
        r == stands_for_blank(text@),
{
    let len = text.len();
    if scan(text, 0, ByteClass::NotWhitespace) >= len {
        proof {
            assert(!text@.contains(AMP)) by {
                if text@.contains(AMP) {
                    let i = choose|i: int| 0 <= i < text@.len() && text@[i] == AMP;
                    assert(!ByteClass::NotWhitespace.holds(text@[i]));
                }
            }
            lemma_unescaped_plain(text@);
        }
        return true;
    }
    if scan(text, 0, ByteClass::Is(AMP)) >= len {
        proof {
            assert(!text@.contains(AMP)) by {
                if text@.contains(AMP) {
                    let i = choose|i: int| 0 <= i < text@.len() && text@[i] == AMP;
                    assert(!ByteClass::Is(AMP).holds(text@[i]));
                }
            }
            lemma_unescaped_plain(text@);
        }
        return false;
    }
    match unescape(text) {
        Ok(unescaped_text) => {
            let bytes = bytes_of(&unescaped_text);
            scan(bytes, 0, ByteClass::NotWhitespace) >= bytes.len()
        },
        Err(_) => false,
    }
}

/// Decides whether text can be decoded after a processing instruction.
fn read_declaration(body: &[u8], current: bool) -> (r: bool)
    ensures
        r == declared_decodable(body@, current),
{
    let xml: [u8; 3] = [0x78, 0x6d, 0x6c];
    assert(xml@ =~= xml_target());
    if starts_with(body, 0, xml.as_slice()) && (body.len() == 3 || is_xml_whitespace(body[3])) {
        let key: [u8; 8] = [0x65, 0x6e, 0x63, 0x6f, 0x64, 0x69, 0x6e, 0x67];
        assert(key@ =~= encoding_key());
        let mut cursor = Attributes::new(body, 3);
        match cursor.find(key.as_slice()) {
            Ok(Some(attr)) => Decoder::for_label(attr.value).is_supported(),
            _ => current,
        }
    } else {
        current
    }
}

/// Where the name of an open element stands in the document.
#[derive(Debug, Clone, Copy)]
struct NameSpan {
    start: usize,
    end: usize,
}

spec fn names(input: Seq<u8>, spans: Seq<NameSpan>) -> Seq<Seq<u8>> {
    Seq::new(spans.len(), |i: int| input.subrange(spans[i].start as int, spans[i].end as int))
}

/// A reader as a value: the document, the configuration, and the state
/// between two events.
pub struct ReaderView {
    pub input: Seq<u8>,
    pub config: Config,
    pub state: State,
    /// The namespace bindings that the namespace-aware reads have made.
    pub namespaces: ResolverView,
}

/// A tokenizer over a document that is held in memory.
pub struct Reader<'a> {
    input: &'a [u8],
    pos: usize,
    opened: Vec<NameSpan>,
    pending_end: bool,
    decodable: bool,
    config: Config,
    namespaces: NamespaceResolver,
}

impl<'a> View for Reader<'a> {
    type V = ReaderView;

    closed spec fn view(&self) -> ReaderView {
        ReaderView {
            input: self.input@,
            config: self.config,
            state: State {
                pos: self.pos as int,
                opened: names(self.input@, self.opened@),
                pending_end: self.pending_end,
                decodable: self.decodable,
            },
            namespaces: self.namespaces@,
        }
    }
}

/// What the scratch buffer holds after a read: the normalized text, where
/// text with a carriage return was met, and what it held before otherwise.
pub open spec fn scratch_after(input: Seq<u8>, st: State, scratch: Seq<u8>) -> Seq<u8> {
    let lt = find(input, st.pos, ByteClass::Is(LT));
    let run = input.subrange(st.pos, lt);
    if !st.pending_end && st.pos < lt && run.contains(CR) {
        normalized(run)
    } else {
        scratch
    }
}

/// Whether `r` is what `expected` describes, and `after` the state that goes
/// with it: the event and the state behind it, or the error and the state
/// as it was.
pub open spec fn is_step<'b>(
    r: Result<Event<'b>, Error>,
    after: State,
    expected: Result<Step, Error>,
    before: State,
) -> bool {
    match expected {
        Ok(s) => r matches Ok(ev) && ev@ == s.event && ev.is_borrowed() && after == s.next,
        Err(e) => r matches Err(x) && x == e && after == before,
    }
}

impl<'a> Reader<'a> {
    /// Whether the reader is in a state that it can have reached: it stands
    /// inside the document and knows the open elements.
    pub closed spec fn wf(&self) -> bool {
        &&& self.pos <= self.input@.len()
        &&& self.opened@.len() <= self.pos
        &&& forall|i: int|
            0 <= i < self.opened@.len() ==> (#[trigger] self.opened@[i]).start
                <= self.opened@[i].end <= self.input@.len()
        &&& self.pending_end ==> self.opened@.len() > 0
    }

    /// A reader at the start of `input`, with the strict configuration.
    pub fn from_bytes(input: &'a [u8]) -> (r: Self)
        ensures
            r.wf(),
            r@ == (ReaderView {
                input: input@,
                config: Config::strict(),
                state: State::initial(),
                namespaces: ResolverView { bindings: Seq::empty() },
            }),
    {
        let r = Reader {
            input,
            pos: 0,
            opened: Vec::new(),
            pending_end: false,
            decodable: true,
            config: Config {
                check_end_names: true,
                check_comments: true,
                trim_text: false,
                expand_empty_elements: false,
            },
            namespaces: NamespaceResolver::new(),
        };
        assert(names(input@, r.opened@) =~= Seq::<Seq<u8>>::empty());
        r
    }

    /// Sets whether an end tag must name the innermost open element.
    pub fn check_end_names(&mut self, val: bool) -> (r: &mut Self)
        requires
            old(self).wf(),
        ensures
            *final(self) == *final(r),
            r.wf(),
            r@ == (ReaderView {
                config: Config { check_end_names: val, ..old(self)@.config },
                ..old(self)@
            }),
    {
        self.config.check_end_names = val;
        self
    }

    /// Sets whether a comment is checked for `--` in its body.
    pub fn check_comments(&mut self, val: bool) -> (r: &mut Self)
        requires
            old(self).wf(),
        ensures
            *final(self) == *final(r),
            r.wf(),
            r@ == (ReaderView {
                config: Config { check_comments: val, ..old(self)@.config },
                ..old(self)@
            }),
    {
        self.config.check_comments = val;
        self
    }

    /// Sets whether text that stands for nothing but white space is left
    /// out. Character data sections are never left out.
    pub fn trim_text(&mut self, val: bool) -> (r: &mut Self)
        requires
            old(self).wf(),
        ensures
            *final(self) == *final(r),
            r.wf(),
            r@ == (ReaderView {
                config: Config { trim_text: val, ..old(self)@.config },
                ..old(self)@
            }),
    {
        self.config.trim_text = val;
        self
    }

    /// Sets whether a self-closing tag is reported as a start tag followed
    /// by an end tag.
    pub fn expand_empty_elements(&mut self, val: bool) -> (r: &mut Self)
        requires
            old(self).wf(),
        ensures
            *final(self) == *final(r),
            r.wf(),
            r@ == (ReaderView {
                config: Config { expand_empty_elements: val, ..old(self)@.config },
                ..old(self)@
            }),
    {
        self.config.expand_empty_elements = val;
        self
    }

    /// The offset of the first byte that has not been read. After an error
    /// this is where the construct that could not be read begins, or the
    /// white space before it.
    pub fn buffer_position(&self) -> (r: usize)
        requires
            self.wf(),
        ensures
            r == self@.state.pos,
            state_ok(self@.input, self@.state),
    {
        self.pos
    }

    /// How many elements are open.
    pub fn depth(&self) -> (r: usize)
        ensures
            r == self@.state.opened.len(),
    {
        self.opened.len()
    }

    /// The decoder for the encoding that the document has declared so far.
    pub fn decoder(&self) -> (r: Decoder)
        ensures
            r.supported() == self@.state.decodable,
    {
        if self.decodable {
            Decoder::utf8()
        } else {
            Decoder::unsupported()
        }
    }

    fn read_comment(&mut self, at: usize) -> (r: Result<Event<'a>, Error>)
        requires
            old(self).wf(),
            old(self)@.state.pos <= at,
            !old(self)@.state.pending_end,
            matches_at(old(self)@.input, at as int, comment_open()),
        ensures
            final(self).wf(),
            final(self)@.input == old(self)@.input,
            final(self)@.config == old(self)@.config,
            final(self)@.namespaces == old(self)@.namespaces,
            is_step(
                r,
                final(self)@.state,
                comment_step(old(self)@.input, old(self)@.config, old(self)@.state, at as int),
                old(self)@.state,
            ),
    {
        let input: &'a [u8] = self.input;
        let len = input.len();
        let close_pat: [u8; 3] = [DASH, DASH, GT];
        assert(close_pat@ =~= comment_close());
        let close = scan_seq(input, at + 4, close_pat.as_slice());
        if close >= len {
            return Err(Error::MalformedMarkup);
        }
        proof {
            lemma_find_seq(input@, at + 4, comment_close());
            assert(input@[close as int] == input@.subrange(close as int, close + 3)[0]);
        }
        if self.config.check_comments {
            let dashes: [u8; 2] = [DASH, DASH];
            assert(dashes@ =~= double_dash());
            let window: &[u8] = &input[at + 4..close + 1];
            assert(window@ =~= input@.subrange(at + 4, close as int).push(DASH));
            if scan_seq(window, 0, dashes.as_slice()) < window.len() {
                return Err(Error::InvalidComment);
            }
        }
        self.pos = close + 3;
        Ok(Event::Comment(BytesText::borrowed(&input[at + 4..close])))
    }

    fn read_cdata(&mut self, at: usize) -> (r: Result<Event<'a>, Error>)
        requires
            old(self).wf(),
            old(self)@.state.pos <= at,
            !old(self)@.state.pending_end,
            matches_at(old(self)@.input, at as int, cdata_open()),
        ensures
            final(self).wf(),
            final(self)@.input == old(self)@.input,
            final(self)@.config == old(self)@.config,
            final(self)@.namespaces == old(self)@.namespaces,
            is_step(
                r,
                final(self)@.state,
                cdata_step(old(self)@.input, old(self)@.state, at as int),
                old(self)@.state,
            ),
    {
        let input: &'a [u8] = self.input;
        let len = input.len();
        let close_pat: [u8; 3] = [0x5d, 0x5d, GT];
        assert(close_pat@ =~= cdata_close());
        let close = scan_seq(input, at + 9, close_pat.as_slice());
        if close >= len {
            return Err(Error::MalformedMarkup);
        }
        self.pos = close + 3;
        Ok(Event::CData(BytesText::borrowed(&input[at + 9..close])))
    }

    fn read_doctype(&mut self, at: usize) -> (r: Result<Event<'a>, Error>)
        requires
            old(self).wf(),
            old(self)@.state.pos <= at,
            !old(self)@.state.pending_end,
            doctype_at(old(self)@.input, at as int),
        ensures
            final(self).wf(),
            final(self)@.input == old(self)@.input,
            final(self)@.config == old(self)@.config,
            final(self)@.namespaces == old(self)@.namespaces,
            is_step(
                r,
                final(self)@.state,
                doctype_step(old(self)@.input, old(self)@.state, at as int),
                old(self)@.state,
            ),
    {
        let input: &'a [u8] = self.input;
        let len = input.len();
        let close = scan_doctype_end(input, at + 9);
        if close >= len {
            return Err(Error::MalformedMarkup);
        }
        self.pos = close + 1;
        Ok(Event::DocTypeDecl(BytesText::borrowed(&input[at + 9..close])))
    }

    fn read_pi(&mut self, at: usize) -> (r: Result<Event<'a>, Error>)
        requires
            old(self).wf(),
            old(self)@.state.pos <= at,
            !old(self)@.state.pending_end,
            at + 1 < old(self)@.input.len(),
        ensures
            final(self).wf(),
            final(self)@.input == old(self)@.input,
            final(self)@.config == old(self)@.config,
            final(self)@.namespaces == old(self)@.namespaces,
            is_step(
                r,
                final(self)@.state,
                pi_step(old(self)@.input, old(self)@.state, at as int),
                old(self)@.state,
            ),
    {
        let input: &'a [u8] = self.input;
        let len = input.len();
        let close_pat: [u8; 2] = [QUESTION, GT];
        assert(close_pat@ =~= pi_close());
        let close = scan_seq(input, at + 2, close_pat.as_slice());
        if close >= len {
            return Err(Error::MalformedMarkup);
        }
        let body: &'a [u8] = &input[at + 2..close];
        let decodable = read_declaration(body, self.decodable);
        self.decodable = decodable;
        self.pos = close + 2;
        Ok(Event::ProcessingInstruction(BytesText::borrowed(body)))
    }

    fn read_end_tag(&mut self, at: usize) -> (r: Result<Event<'a>, Error>)
        requires
            old(self).wf(),
            old(self)@.state.pos <= at,
            !old(self)@.state.pending_end,
            at + 1 < old(self)@.input.len(),
        ensures
            final(self).wf(),
            final(self)@.input == old(self)@.input,
            final(self)@.config == old(self)@.config,
            final(self)@.namespaces == old(self)@.namespaces,
            is_step(
                r,
                final(self)@.state,
                end_tag_step(old(self)@.input, old(self)@.config, old(self)@.state, at as int),
                old(self)@.state,
            ),
    {
        let input: &'a [u8] = self.input;
        let len = input.len();
        let close = scan(input, at + 2, ByteClass::Is(GT));
        if close >= len {
            return Err(Error::MalformedMarkup);
        }
        let blank = scan(input, at + 2, ByteClass::Whitespace);
        let name_end = if blank < close {
            blank
        } else {
            close
        };
        let found: &'a [u8] = &input[at + 2..name_end];
        let open = self.opened.len();
        if open > 0 {
            let top = self.opened[open - 1];
            let expected: &'a [u8] = &input[top.start..top.end];
            if self.config.check_end_names && !same_bytes(expected, found) {
                return Err(Error::TagMismatch);
            }
            self.opened.pop();
            self.pos = close + 1;
            proof {
                assert(names(input@, self.opened@) =~= names(
                    input@,
                    old(self).opened@,
                ).drop_last());
            }
            Ok(Event::End(BytesEnd::borrowed(expected)))
        } else if self.config.check_end_names {
            Err(Error::TagMismatch)
        } else {
            self.pos = close + 1;
            Ok(Event::End(BytesEnd::borrowed(found)))
        }
    }

    fn read_start_tag(&mut self, at: usize) -> (r: Result<Event<'a>, Error>)
        requires
            old(self).wf(),
            old(self)@.state.pos <= at,
            !old(self)@.state.pending_end,
            at < old(self)@.input.len(),
        ensures
            final(self).wf(),
            final(self)@.input == old(self)@.input,
            final(self)@.config == old(self)@.config,
            final(self)@.namespaces == old(self)@.namespaces,
            is_step(
                r,
                final(self)@.state,
                start_tag_step(old(self)@.input, old(self)@.config, old(self)@.state, at as int),
                old(self)@.state,
            ),
    {
        let input: &'a [u8] = self.input;
        let len = input.len();
        let close = scan_tag_end(input, at + 1);
        if close >= len {
            return Err(Error::MalformedMarkup);
        }
        let self_closing = close > at + 1 && input[close - 1] == SLASH;
        let content_end = if self_closing {
            close - 1
        } else {
            close
        };
        let blank = scan(input, at + 1, ByteClass::Whitespace);
        let name_end = if blank < content_end {
            blank
        } else {
            content_end
        };
        let tag = BytesStart::borrowed(&input[at + 1..content_end], name_end - (at + 1));
        proof {
            assert(tag@.name() =~= input@.subrange(at + 1, name_end as int));
        }
        if !self_closing || self.config.expand_empty_elements {
            self.opened.push(NameSpan { start: at + 1, end: name_end });
            if self_closing {
                self.pending_end = true;
            }
            self.pos = close + 1;
            proof {
                assert(names(input@, self.opened@) =~= names(input@, old(self).opened@).push(
                    tag@.name(),
                ));
            }
            Ok(Event::Start(tag))
        } else {
            self.pos = close + 1;
            Ok(Event::Empty(tag))
        }
    }

    fn read_markup(&mut self, at: usize) -> (r: Result<Event<'a>, Error>)
        requires
            old(self).wf(),
            old(self)@.state.pos <= at,
            !old(self)@.state.pending_end,
            at < old(self)@.input.len(),
        ensures
            final(self).wf(),
            final(self)@.input == old(self)@.input,
            final(self)@.config == old(self)@.config,
            final(self)@.namespaces == old(self)@.namespaces,
            is_step(
                r,
                final(self)@.state,
                markup_step(old(self)@.input, old(self)@.config, old(self)@.state, at as int),
                old(self)@.state,
            ),
    {
        let input: &'a [u8] = self.input;
        let len = input.len();
        let comment: [u8; 4] = [LT, BANG, DASH, DASH];
        let cdata: [u8; 9] = [LT, BANG, 0x5b, 0x43, 0x44, 0x41, 0x54, 0x41, 0x5b];
        let doctype: [u8; 9] = [LT, BANG, 0x44, 0x4f, 0x43, 0x54, 0x59, 0x50, 0x45];
        assert(comment@ =~= comment_open());
        assert(cdata@ =~= cdata_open());
        assert(doctype@ =~= doctype_open());
        if starts_with(input, at, comment.as_slice()) {
            self.read_comment(at)
        } else if starts_with(input, at, cdata.as_slice()) {
            self.read_cdata(at)
        } else if len - at >= 9 && eq_ignore_case(&input[at..at + 9], doctype.as_slice()) {
            self.read_doctype(at)
        } else if at + 1 < len && input[at + 1] == BANG {
            Err(Error::MalformedMarkup)
        } else if at + 1 < len && input[at + 1] == QUESTION {
            self.read_pi(at)
        } else if at + 1 < len && input[at + 1] == SLASH {
            self.read_end_tag(at)
        } else {
            self.read_start_tag(at)
        }
    }

    /// Reads the next event.
    ///
    /// The event borrows from the document, or, where line ends had to be
    /// normalized, from `scratch`, which then holds the normalized text. It
    /// is never a copy of its own. After an error the reader has not moved,
    /// so that every later call reports the same error.
    pub fn read_event<'b>(&mut self, scratch: &'b mut Vec<u8>) -> (r: Result<Event<'b>, Error>)
        where 'a: 'b
        requires
            old(self).wf(),
        ensures
            final(self).wf(),
            final(self)@.input == old(self)@.input,
            final(self)@.config == old(self)@.config,
            final(self)@.namespaces == old(self)@.namespaces,
            final(scratch)@ == scratch_after(old(self)@.input, old(self)@.state, old(scratch)@),
            is_step(
                r,
                final(self)@.state,
                step(old(self)@.input, old(self)@.config, old(self)@.state),
                old(self)@.state,
            ),
    {
        let input: &'a [u8] = self.input;
        let len = input.len();
        if self.pending_end {
            let top = self.opened[self.opened.len() - 1];
            self.pending_end = false;
            self.opened.pop();
            proof {
                assert(names(input@, self.opened@) =~= names(
                    input@,
                    old(self).opened@,
                ).drop_last());
            }
            return Ok(Event::End(BytesEnd::borrowed(&input[top.start..top.end])));
        }
        let pos = self.pos;
        let lt = scan(input, pos, ByteClass::Is(LT));
        if pos < lt {
            let raw: &'a [u8] = &input[pos..lt];
            let plain = scan(raw, 0, ByteClass::Is(CR)) >= raw.len();
            if plain {
                proof {
                    lemma_normalized_plain(raw@);
                }
                if !(self.config.trim_text && is_blank_text(raw)) {
                    self.pos = lt;
                    return Ok(Event::Text(BytesText::borrowed(raw)));
                }
            } else {
                normalize_into(raw, scratch);
                if !(self.config.trim_text && is_blank_text(scratch.as_slice())) {
                    self.pos = lt;
                    return Ok(Event::Text(BytesText::borrowed(scratch.as_slice())));
                }
            }
        }
        if lt >= len {
            self.pos = len;
            return Ok(Event::Eof);
        }
        match self.read_markup(lt) {
            Ok(ev) => Ok(ev),
            Err(e) => Err(e),
        }
    }

    /// A reader at the start of the document that `text` holds.
    pub fn from_str(text: &'a str) -> (r: Self)
        ensures
            r.wf(),
            r@ == (ReaderView {
                input: text.spec_bytes(),
                config: Config::strict(),
                state: State::initial(),
                namespaces: ResolverView { bindings: Seq::empty() },
            }),
    {
        Reader::from_bytes(text.as_bytes())
    }

    /// What the reader is, seen from outside, can be a state of the
    /// tokenizer.
    pub proof fn lemma_state_ok(&self)
        requires
            self.wf(),
        ensures
            state_ok(self@.input, self@.state),
    {
    }

    /// Skips to the end of the innermost open element: reads and drops
    /// events up to and including the end tag that closes it.
    ///
    /// Reaching the end of the document first is reported as
    /// `MalformedMarkup`; that is also what happens where no element is
    /// open.
    pub fn read_to_end(&mut self, scratch: &mut Vec<u8>) -> (r: Result<(), Error>)
        requires
            old(self).wf(),
        ensures
            final(self).wf(),
            final(self)@.input == old(self)@.input,
            final(self)@.config == old(self)@.config,
            final(self)@.namespaces == old(self)@.namespaces,
            r == skip_to_end(
                old(self)@.input,
                old(self)@.config,
                old(self)@.state,
                old(self)@.state.opened.len(),
            ).end,
            final(self)@.state == skip_to_end(
                old(self)@.input,
                old(self)@.config,
                old(self)@.state,
                old(self)@.state.opened.len(),
            ).state,
    {
        let open = self.opened.len();
        loop
            invariant
                self.wf(),
                self@.input == old(self)@.input,
                self@.config == old(self)@.config,
                self@.namespaces == old(self)@.namespaces,
                open == old(self)@.state.opened.len(),
                skip_to_end(self@.input, self@.config, self@.state, open as nat) == skip_to_end(
                    old(self)@.input,
                    old(self)@.config,
                    old(self)@.state,
                    old(self)@.state.opened.len(),
                ),
            decreases measure(self@.input, self@.state),
        {
            proof {
                lemma_step_advances(self@.input, self@.config, self@.state);
            }
            match self.read_event(scratch) {
                Err(e) => {
                    return Err(e);
                },
                Ok(Event::Eof) => {
                    return Err(Error::MalformedMarkup);
                },
                Ok(Event::End(_)) => {
                    if self.opened.len() < open {
                        return Ok(());
                    }
                },
                Ok(_) => {},
            }
        }
    }

    /// How many namespace bindings are in force.
    pub fn bound_namespaces(&self) -> (r: usize)
        ensures
            r == self@.namespaces.bindings.len(),
    {
        self.namespaces.len()
    }

    /// The namespace of an element's qualified name under the bindings in
    /// force.
    pub fn resolve_element(&self, name: &[u8]) -> (r: Option<&[u8]>)
        ensures
            match resolved(self@.namespaces, name@, true) {
                Some(uri) => r matches Some(u) && u@ == uri,
                None => r is None,
            },
    {
        self.namespaces.resolve(name, true)
    }

    /// The namespace of an attribute's qualified name under the bindings in
    /// force. An attribute without prefix is in no namespace.
    pub fn resolve_attribute(&self, name: &[u8]) -> (r: Option<&[u8]>)
        ensures
            match resolved(self@.namespaces, name@, false) {
                Some(uri) => r matches Some(u) && u@ == uri,
                None => r is None,
            },
    {
        self.namespaces.resolve(name, false)
    }

    /// Reads the next event, keeps the namespace bindings, and resolves the
    /// namespace of the element that the event names.
    ///
    /// The namespace name is written to `ns_scratch` and borrowed from it.
    /// After an error neither the reader nor the bindings have moved.
    pub fn read_namespaced_event<'b>(
        &mut self,
        scratch: &'b mut Vec<u8>,
        ns_scratch: &'b mut Vec<u8>,
    ) -> (r: Result<(Option<&'b [u8]>, Event<'b>), Error>)
        where 'a: 'b
        requires
            old(self).wf(),
        ensures
            final(self).wf(),
            final(self)@.input == old(self)@.input,
            final(self)@.config == old(self)@.config,
            match ns_step(
                old(self)@.input,
                old(self)@.config,
                old(self)@.state,
                old(self)@.namespaces,
            ) {
                Ok(s) => r matches Ok(pair) && pair.1@ == s.event && pair.1.is_borrowed() && (
                match s.namespace {
                    Some(uri) => pair.0 matches Some(u) && u@ == uri && final(ns_scratch)@ == uri,
                    None => pair.0 is None && final(ns_scratch)@ == old(ns_scratch)@,
                }) && final(self)@.state == s.next && final(self)@.namespaces == s.namespaces,
                Err(e) => r matches Err(x) && x == e && final(self)@.state == old(self)@.state
                    && final(self)@.namespaces == old(self)@.namespaces && final(ns_scratch)@
                    == old(ns_scratch)@,
            },
            final(scratch)@ == scratch_after(old(self)@.input, old(self)@.state, old(scratch)@),
    {
        proof {
            lemma_step_advances(old(self)@.input, old(self)@.config, old(self)@.state);
        }
        let len = self.input.len();
        let event = match self.read_event(scratch) {
            Err(e) => {
                return Err(e);
            },
            Ok(event) => event,
        };
        let depth = self.opened.len();
        let found = match &event {
            Event::Start(e) => {
                self.namespaces.declare(e, depth);
                copy_into(self.namespaces.resolve(e.name(), true), ns_scratch)
            },
            Event::Empty(e) => {
                self.namespaces.declare(e, depth + 1);
                let found = copy_into(self.namespaces.resolve(e.name(), true), ns_scratch);
                self.namespaces.release(depth);
                found
            },
            Event::End(e) => {
                let found = copy_into(self.namespaces.resolve(e.name(), true), ns_scratch);
                self.namespaces.release(depth);
                found
            },
            _ => false,
        };
        if found {
            Ok((Some(ns_scratch.as_slice()), event))
        } else {
            Ok((None, event))
        }
    }
}

/// Writes a namespace name, if there is one, into `out`.
fn copy_into(uri: Option<&[u8]>, out: &mut Vec<u8>) -> (found: bool)
    ensures
        found == uri is Some,
        final(out)@ == match uri {
            Some(u) => u@,
            None => old(out)@,
        },
{
    match uri {
        Some(u) => {
            out.clear();
            out.extend_from_slice(u);
            true
        },
        None => false,
    }
}

} // verus!
