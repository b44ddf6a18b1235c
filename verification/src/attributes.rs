//! The attribute cursor: a lazy, resumable parser of the `key="value"` pairs
//! inside a start tag.
//!
//! The cursor holds nothing but the tag's byte span and an offset into it, so
//! a caller may keep only the offset and build a new cursor later.

use vstd::prelude::*;
use crate::errors::Error;
use crate::scan::{find, lemma_find, same_bytes, scan, ByteClass, APOS, EQUALS, QUOTE};

verus! {

/// Where one attribute lies inside a tag's byte span.
pub struct AttrSpan {
    pub key_start: int,
    pub key_end: int,
    pub value_start: int,
    pub value_end: int,
}

impl AttrSpan {
    /// The key's bytes.
    pub open spec fn key(self, buf: Seq<u8>) -> Seq<u8> {
        buf.subrange(self.key_start, self.key_end)
    }

    /// The value's bytes, between the quotes and still escaped.
    pub open spec fn value(self, buf: Seq<u8>) -> Seq<u8> {
        buf.subrange(self.value_start, self.value_end)
    }

    /// The offset just behind the closing quote, from which parsing resumes.
    pub open spec fn resume(self) -> int {
        self.value_end + 1
    }

    /// The attribute lies inside `buf`, behind `pos`, with a key that is not
    /// empty and a quote on either side of the value.
    pub open spec fn within(self, buf: Seq<u8>, pos: int) -> bool {
        &&& 0 <= pos <= self.key_start < self.key_end < self.value_start - 1
        &&& self.value_start <= self.value_end < buf.len()
        &&& buf[self.value_start - 1] == buf[self.value_end]
        &&& (buf[self.value_end] == QUOTE || buf[self.value_end] == APOS)
    }
}

/// What the cursor meets at an offset.
pub enum AttrStep {
    /// Nothing but white space is left.
    Exhausted,
    /// What follows is not of the form `key = "value"` or `key = 'value'`.
    Malformed,
    /// The next attribute.
    Found(AttrSpan),
}

/// Parses one attribute of `buf` at offset `pos`.
///
/// White space before the key and around `=` is skipped. The key runs up to
/// the first white space or `=`; the value must be quoted with `"` or `'` and
/// runs up to the next quote of the same kind.
pub open spec fn attr_step(buf: Seq<u8>, pos: int) -> AttrStep {
    let key_start = find(buf, pos, ByteClass::NotWhitespace);
    let key_end = find(buf, key_start, ByteClass::WhitespaceOr(EQUALS));
    let eq = find(buf, key_end, ByteClass::NotWhitespace);
    let quote = find(buf, eq + 1, ByteClass::NotWhitespace);
    if key_start >= buf.len() {
        AttrStep::Exhausted
    } else if key_end == key_start || eq >= buf.len() || buf[eq] != EQUALS {
        AttrStep::Malformed
    } else if quote >= buf.len() || (buf[quote] != QUOTE && buf[quote] != APOS) {
        AttrStep::Malformed
    } else {
        let value_end = find(buf, quote + 1, ByteClass::Is(buf[quote]));
        if value_end >= buf.len() {
            AttrStep::Malformed
        } else {
            AttrStep::Found(
                AttrSpan { key_start, key_end, value_start: quote + 1, value_end },
            )
        }
    }
}

/// The offset at which the cursor stands after one step from `pos`: behind
/// the attribute it found, or at the end of the span.
pub open spec fn position_after(buf: Seq<u8>, pos: int) -> int {
    match attr_step(buf, pos) {
        AttrStep::Found(a) => a.resume(),
        _ => buf.len() as int,
    }
}

/// An attribute that `attr_step` finds lies inside the span, behind the
/// offset it was asked at.
pub proof fn lemma_attr_step(buf: Seq<u8>, pos: int)
    ensures
        match attr_step(buf, pos) {
            AttrStep::Found(a) => a.within(buf, pos),
            _ => true,
        },
{
    if 0 <= pos <= buf.len() {
        let key_start = find(buf, pos, ByteClass::NotWhitespace);
        lemma_find(buf, pos, ByteClass::NotWhitespace);
        let key_end = find(buf, key_start, ByteClass::WhitespaceOr(EQUALS));
        lemma_find(buf, key_start, ByteClass::WhitespaceOr(EQUALS));
        let eq = find(buf, key_end, ByteClass::NotWhitespace);
        lemma_find(buf, key_end, ByteClass::NotWhitespace);
        if eq < buf.len() {
            let quote = find(buf, eq + 1, ByteClass::NotWhitespace);
            lemma_find(buf, eq + 1, ByteClass::NotWhitespace);
            if quote < buf.len() {
                lemma_find(buf, quote + 1, ByteClass::Is(buf[quote]));
            }
        }
    }
}

/// All attributes from offset `pos` on, in the order in which the cursor
/// yields them, up to the end of the span or the first malformed one.
pub open spec fn attrs_from(buf: Seq<u8>, pos: int) -> Seq<AttrSpan>
    decreases buf.len() - pos,
    via attrs_from_decreases
{
    match attr_step(buf, pos) {
        AttrStep::Found(a) => seq![a] + attrs_from(buf, a.resume()),
        _ => Seq::empty(),
    }
}

#[via_fn]
proof fn attrs_from_decreases(buf: Seq<u8>, pos: int) {
    lemma_attr_step(buf, pos);
}

/// Whether the attributes from `pos` on end with the span rather than with a
/// malformed attribute.
pub open spec fn attrs_complete(buf: Seq<u8>, pos: int) -> bool
    decreases buf.len() - pos,
    via attrs_complete_decreases
{
    match attr_step(buf, pos) {
        AttrStep::Found(a) => attrs_complete(buf, a.resume()),
        AttrStep::Exhausted => true,
        AttrStep::Malformed => false,
    }
}

#[via_fn]
proof fn attrs_complete_decreases(buf: Seq<u8>, pos: int) {
    lemma_attr_step(buf, pos);
}

/// The offset at which the cursor stands after `steps` steps from `pos`.
pub open spec fn position_after_steps(buf: Seq<u8>, pos: int, steps: nat) -> int
    decreases steps,
{
    if steps == 0 {
        pos
    } else {
        position_after_steps(buf, position_after(buf, pos), (steps - 1) as nat)
    }
}

/// What a lookup by key ends with.
pub enum Lookup {
    /// No attribute has the key.
    Missing,
    /// A malformed attribute stands before any with the key.
    Malformed,
    /// The first attribute with the key.
    At(AttrSpan),
}

/// The first attribute from `pos` on whose key is `key`.
pub open spec fn lookup(buf: Seq<u8>, pos: int, key: Seq<u8>) -> Lookup
    decreases buf.len() - pos,
    via lookup_decreases
{
    match attr_step(buf, pos) {
        AttrStep::Found(a) => if a.key(buf) == key {
            Lookup::At(a)
        } else {
            lookup(buf, a.resume(), key)
        },
        AttrStep::Exhausted => Lookup::Missing,
        AttrStep::Malformed => Lookup::Malformed,
    }
}

#[via_fn]
proof fn lookup_decreases(buf: Seq<u8>, pos: int, key: Seq<u8>) {
    lemma_attr_step(buf, pos);
}

/// The cursor yields attributes in document order: every attribute lies
/// inside the span behind the starting offset, and each one ends before the
/// next begins.
pub proof fn lemma_attrs_in_document_order(buf: Seq<u8>, pos: int)
    ensures
        forall|i: int|
            0 <= i < attrs_from(buf, pos).len() ==> (#[trigger] attrs_from(buf, pos)[i]).within(
                buf,
                pos,
            ),
        forall|i: int, j: int|
            0 <= i < j < attrs_from(buf, pos).len() ==> (#[trigger] attrs_from(
                buf,
                pos,
            )[i]).value_end < (#[trigger] attrs_from(buf, pos)[j]).key_start,
    decreases buf.len() - pos,
{
    lemma_attr_step(buf, pos);
    match attr_step(buf, pos) {
        AttrStep::Found(a) => {
            let rest = attrs_from(buf, a.resume());
            let all = attrs_from(buf, pos);
            lemma_attrs_in_document_order(buf, a.resume());
            assert(all == seq![a] + rest);
            assert forall|i: int| 0 <= i < all.len() implies (#[trigger] all[i]).within(
                buf,
                pos,
            ) by {
                if i > 0 {
                    assert(all[i] == rest[i - 1]);
                    assert(rest[i - 1].within(buf, a.resume()));
                }
            }
            assert forall|i: int, j: int| 0 <= i < j < all.len() implies (#[trigger] all[i]).value_end
                < (#[trigger] all[j]).key_start by {
                assert(all[j] == rest[j - 1]);
                assert(rest[j - 1].within(buf, a.resume()));
                if i > 0 {
                    assert(all[i] == rest[i - 1]);
                }
            }
        },
        _ => {},
    }
}

/// Resuming from a saved offset yields exactly the remaining attributes: a
/// cursor that has made `steps` steps from `pos` has the attributes from
/// `pos` without their first `steps` still before it.
pub proof fn lemma_resume_yields_suffix(buf: Seq<u8>, pos: int, steps: nat)
    requires
        steps <= attrs_from(buf, pos).len(),
    ensures
        attrs_from(buf, position_after_steps(buf, pos, steps)) == attrs_from(buf, pos).skip(
            steps as int,
        ),
    decreases steps,
{
    if steps == 0 {
        assert(attrs_from(buf, pos).skip(0) =~= attrs_from(buf, pos));
    } else {
        match attr_step(buf, pos) {
            AttrStep::Found(a) => {
                let rest = attrs_from(buf, a.resume());
                lemma_resume_yields_suffix(buf, a.resume(), (steps - 1) as nat);
                assert((seq![a] + rest).skip(steps as int) =~= rest.skip(steps - 1));
            },
            _ => {},
        }
    }
}

/// A cursor that is driven from `pos` yields the attributes from `pos` on,
/// one per step and in their order: step number `i` finds the attribute
/// number `i`, and the step behind the last one finds none.
pub proof fn lemma_cursor_yields_each(buf: Seq<u8>, pos: int, i: nat)
    requires
        i <= attrs_from(buf, pos).len(),
    ensures
        i < attrs_from(buf, pos).len() ==> attr_step(buf, position_after_steps(buf, pos, i))
            == AttrStep::Found(attrs_from(buf, pos)[i as int]),
        i == attrs_from(buf, pos).len() ==> !(attr_step(buf, position_after_steps(buf, pos, i))
            is Found),
{
    lemma_resume_yields_suffix(buf, pos, i);
    let at = position_after_steps(buf, pos, i);
    match attr_step(buf, at) {
        AttrStep::Found(a) => {
            assert(attrs_from(buf, at) == seq![a] + attrs_from(buf, a.resume()));
            assert(attrs_from(buf, at)[0] == a);
        },
        _ => {},
    }
}

/// One attribute: its key and its value, both as they stand in the tag. The
/// value is still escaped.
#[derive(Debug, Clone, Copy, PartialEq, Eq)]
pub struct Attribute<'a> {
    pub key: &'a [u8],
    pub value: &'a [u8],
}

/// A cursor over the attributes in a tag's byte span.
#[derive(Debug, Clone, Copy)]
pub struct Attributes<'a> {
    /// The span that holds the attributes.
    pub bytes: &'a [u8],
    /// The offset at which the next attribute is looked for.
    pub position: usize,
}

impl<'a> Attributes<'a> {
    /// A cursor over `bytes` that starts at offset `position`.
    pub fn new(bytes: &'a [u8], position: usize) -> (r: Self)
        ensures
            r.bytes == bytes,
            r.position == position,
    {
        Attributes { bytes, position }
    }

    /// Yields the next attribute, or `None` when only white space is left.
    ///
    /// After a malformed attribute the cursor stands at the end of the span,
    /// so that the error is reported once.
    pub fn next(&mut self) -> (r: Option<Result<Attribute<'a>, Error>>)
        ensures
            final(self).bytes == old(self).bytes,
            final(self).position == position_after(old(self).bytes@, old(self).position as int),
            match attr_step(old(self).bytes@, old(self).position as int) {
                AttrStep::Exhausted => r is None,
                AttrStep::Malformed => r == Some(
                    Err::<Attribute<'a>, Error>(Error::MalformedMarkup),
                ),
                AttrStep::Found(a) => r matches Some(Ok(attr)) && attr.key@ == a.key(
                    old(self).bytes@,
                ) && attr.value@ == a.value(old(self).bytes@),
            },
    {
        let bytes: &'a [u8] = self.bytes;
        let len = bytes.len();
        let start = self.position;
        self.position = len;
        if start >= len {
            return None;
        }
        let key_start = scan(bytes, start, ByteClass::NotWhitespace);
        if key_start >= len {
            return None;
        }
        let key_end = scan(bytes, key_start, ByteClass::WhitespaceOr(EQUALS));
        let eq = scan(bytes, key_end, ByteClass::NotWhitespace);
        if key_end == key_start || eq >= len || bytes[eq] != EQUALS {
            return Some(Err(Error::MalformedMarkup));
        }
        let quote = scan(bytes, eq + 1, ByteClass::NotWhitespace);
        if quote >= len {
            return Some(Err(Error::MalformedMarkup));
        }
        let q = bytes[quote];
        if q != QUOTE && q != APOS {
            return Some(Err(Error::MalformedMarkup));
        }
        let value_end = scan(bytes, quote + 1, ByteClass::Is(q));
        if value_end >= len {
            return Some(Err(Error::MalformedMarkup));
        }
        self.position = value_end + 1;
        Some(Ok(Attribute { key: &bytes[key_start..key_end], value: &bytes[quote + 1..value_end] }))
    }

    /// Looks for the first attribute from the cursor's offset on whose key is
    /// `key`, and leaves the cursor behind it.
    pub fn find(&mut self, key: &[u8]) -> (r: Result<Option<Attribute<'a>>, Error>)
        ensures
            final(self).bytes == old(self).bytes,
            match lookup(old(self).bytes@, old(self).position as int, key@) {
                Lookup::Missing => r == Ok::<Option<Attribute<'a>>, Error>(None)
                    && final(self).position == old(self).bytes@.len(),
                Lookup::Malformed => r == Err::<Option<Attribute<'a>>, Error>(
                    Error::MalformedMarkup,
                ) && final(self).position == old(self).bytes@.len(),
                Lookup::At(a) => r matches Ok(Some(attr)) && attr.key@ == key@ && attr.value@
                    == a.value(old(self).bytes@) && final(self).position == a.resume(),
            },
    {
        loop
            invariant
                self.bytes == old(self).bytes,
                lookup(old(self).bytes@, old(self).position as int, key@) == lookup(
                    self.bytes@,
                    self.position as int,
                    key@,
                ),
            decreases self.bytes@.len() - self.position,
        {
            let ghost before = self.position as int;
            proof {
                lemma_attr_step(self.bytes@, before);
            }
            match self.next() {
                None => {
                    return Ok(None);
                },
                Some(Err(e)) => {
                    return Err(e);
                },
                Some(Ok(attr)) => {
                    if same_bytes(attr.key, key) {
                        return Ok(Some(attr));
                    }
                },
            }
        }
    }
}

} // verus!
