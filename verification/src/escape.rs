//! Escaping and unescaping of character data.
//!
//! Only the five predefined entities and numeric character references are
//! known. A span without `&` is handed back as it is, without a copy.

use vstd::prelude::*;
use std::borrow::Cow;
use vstd::utf8::{encode_scalar, is_scalar};
use crate::errors::Error;
use crate::scan::{
    find, lemma_find, lemma_find_is, lemma_find_shift, same_bytes, scan, ByteClass, AMP, APOS, GT,
    HASH, LT, QUOTE, SEMI,
};

verus! {

pub const LOWER_X: u8 = 0x78;

/// The name `lt`.
pub open spec fn name_lt() -> Seq<u8> {
    seq![0x6cu8, 0x74u8]
}

/// The name `gt`.
pub open spec fn name_gt() -> Seq<u8> {
    seq![0x67u8, 0x74u8]
}

/// The name `amp`.
pub open spec fn name_amp() -> Seq<u8> {
    seq![0x61u8, 0x6du8, 0x70u8]
}

/// The name `apos`.
pub open spec fn name_apos() -> Seq<u8> {
    seq![0x61u8, 0x70u8, 0x6fu8, 0x73u8]
}

/// The name `quot`.
pub open spec fn name_quot() -> Seq<u8> {
    seq![0x71u8, 0x75u8, 0x6fu8, 0x74u8]
}

/// The value of one digit in the given radix (10 or 16), if it is one.
pub open spec fn digit_value(b: u8, radix: int) -> Option<int> {
    if 0x30 <= b <= 0x39 {
        Some(b - 0x30)
    } else if radix == 16 && 0x61 <= b <= 0x66 {
        Some(b - 0x61 + 10)
    } else if radix == 16 && 0x41 <= b <= 0x46 {
        Some(b - 0x41 + 10)
    } else {
        None
    }
}

/// Whether every byte is a digit of the radix.
pub open spec fn all_digits(d: Seq<u8>, radix: int) -> bool {
    forall|i: int| 0 <= i < d.len() ==> (#[trigger] digit_value(d[i], radix)) is Some
}

/// The number that the digits write in the radix, most significant first.
pub open spec fn number(d: Seq<u8>, radix: int) -> int
    decreases d.len(),
{
    if d.len() == 0 {
        0
    } else {
        number(d.drop_last(), radix) * radix + match digit_value(d.last(), radix) {
            Some(v) => v,
            None => 0,
        }
    }
}

/// The code point that a run of digits names, if it is a run of digits, not
/// empty, and names a Unicode scalar value.
pub open spec fn char_code(d: Seq<u8>, radix: int) -> Option<u32> {
    if d.len() == 0 || !all_digits(d, radix) || number(d, radix) > 0x10FFFF || (0xD800 <= number(
        d,
        radix,
    ) <= 0xDFFF) {
        None
    } else {
        Some(number(d, radix) as u32)
    }
}

/// What a numeric character reference stands for, given what is written
/// between `&#` and `;`: the UTF-8 encoding of the code point, which is
/// written in hexadecimal behind an `x` and in decimal otherwise.
pub open spec fn char_reference(body: Seq<u8>) -> Option<Seq<u8>> {
    let hex = body.len() > 0 && body[0] == LOWER_X;
    let code = if hex {
        char_code(body.subrange(1, body.len() as int), 16)
    } else {
        char_code(body, 10)
    };
    match code {
        Some(c) => Some(encode_scalar(c)),
        None => None,
    }
}

/// What an entity reference stands for, given what is written between `&`
/// and `;`.
pub open spec fn entity(name: Seq<u8>) -> Option<Seq<u8>> {
    if name == name_lt() {
        Some(seq![LT])
    } else if name == name_gt() {
        Some(seq![GT])
    } else if name == name_amp() {
        Some(seq![AMP])
    } else if name == name_apos() {
        Some(seq![APOS])
    } else if name == name_quot() {
        Some(seq![QUOTE])
    } else if name.len() > 0 && name[0] == HASH {
        char_reference(name.subrange(1, name.len() as int))
    } else {
        None
    }
}

/// `prefix` followed by `rest`, where there is a rest.
pub open spec fn prepend(prefix: Seq<u8>, rest: Option<Seq<u8>>) -> Option<Seq<u8>> {
    match rest {
        Some(r) => Some(prefix + r),
        None => None,
    }
}

/// The text that `s` stands for from offset `pos` on: every entity reference
/// replaced by what it stands for, everything else kept. `None` where a `&`
/// has no `;` behind it or the reference is not known.
pub open spec fn unescaped_from(s: Seq<u8>, pos: int) -> Option<Seq<u8>>
    decreases s.len() - pos,
    via unescaped_from_decreases
{
    let amp = find(s, pos, ByteClass::Is(AMP));
    let semi = find(s, amp + 1, ByteClass::Is(SEMI));
    if amp >= s.len() {
        Some(s.subrange(pos, s.len() as int))
    } else if semi >= s.len() {
        None
    } else {
        match entity(s.subrange(amp + 1, semi)) {
            Some(replacement) => prepend(
                s.subrange(pos, amp) + replacement,
                unescaped_from(s, semi + 1),
            ),
            None => None,
        }
    }
}

#[via_fn]
proof fn unescaped_from_decreases(s: Seq<u8>, pos: int) {
    if 0 <= pos <= s.len() {
        lemma_find(s, pos, ByteClass::Is(AMP));
        let amp = find(s, pos, ByteClass::Is(AMP));
        if amp < s.len() {
            lemma_find(s, amp + 1, ByteClass::Is(SEMI));
        }
    }
}

/// The text that the escaped span `s` stands for.
pub open spec fn unescaped(s: Seq<u8>) -> Option<Seq<u8>> {
    unescaped_from(s, 0)
}

/// Whether the byte has to be written as an entity reference.
pub open spec fn is_special(b: u8) -> bool {
    b == LT || b == GT || b == AMP || b == APOS || b == QUOTE
}

/// How one byte is written in escaped text.
pub open spec fn escaped_byte(b: u8) -> Seq<u8> {
    if b == LT {
        seq![AMP] + name_lt() + seq![SEMI]
    } else if b == GT {
        seq![AMP] + name_gt() + seq![SEMI]
    } else if b == AMP {
        seq![AMP] + name_amp() + seq![SEMI]
    } else if b == APOS {
        seq![AMP] + name_apos() + seq![SEMI]
    } else if b == QUOTE {
        seq![AMP] + name_quot() + seq![SEMI]
    } else {
        seq![b]
    }
}

/// How a span is written in escaped text: byte by byte.
pub open spec fn escaped(s: Seq<u8>) -> Seq<u8>
    decreases s.len(),
{
    if s.len() == 0 {
        Seq::empty()
    } else {
        escaped_byte(s[0]) + escaped(s.skip(1))
    }
}

proof fn lemma_number_bounds(d: Seq<u8>, radix: int, k: int)
    requires
        0 <= k <= d.len(),
        radix == 10 || radix == 16,
    ensures
        0 <= number(d.subrange(0, k), radix) <= number(d, radix),
    decreases d.len() - k,
{
    if k == d.len() {
        assert(d.subrange(0, k) =~= d);
        lemma_number_nonnegative(d, radix);
    } else {
        lemma_number_bounds(d.drop_last(), radix, k);
        assert(d.drop_last().subrange(0, k) =~= d.subrange(0, k));
        let n = number(d.drop_last(), radix);
        lemma_number_nonnegative(d.drop_last(), radix);
        assert(n * radix >= n) by (nonlinear_arith)
            requires
                n >= 0,
                radix >= 1,
        ;
    }
}

proof fn lemma_number_nonnegative(d: Seq<u8>, radix: int)
    requires
        radix == 10 || radix == 16,
    ensures
        0 <= number(d, radix),
    decreases d.len(),
{
    if d.len() > 0 {
        lemma_number_nonnegative(d.drop_last(), radix);
        let n = number(d.drop_last(), radix);
        assert(n * radix >= 0) by (nonlinear_arith)
            requires
                n >= 0,
                radix >= 1,
        ;
    }
}

/// Reads the code point that a run of digits names.
fn read_char_code(d: &[u8], hex: bool) -> (r: Option<u32>)
    ensures
        r == char_code(d@, if hex { 16int } else { 10int }),
        r matches Some(c) ==> is_scalar(c),
{
    let ghost radix: int = if hex { 16 } else { 10 };
    if d.len() == 0 {
        return None;
    }
    let mut acc: u32 = 0;
    let mut i: usize = 0;
    while i < d.len()
        invariant
            i <= d@.len(),
            radix == (if hex { 16int } else { 10int }),
            all_digits(d@.subrange(0, i as int), radix),
            acc == number(d@.subrange(0, i as int), radix),
            acc <= 0x10FFFF,
        decreases d@.len() - i,
    {
        let b = d[i];
        let v: u32 = if 0x30 <= b && b <= 0x39 {
            (b - 0x30) as u32
        } else if hex && 0x61 <= b && b <= 0x66 {
            (b - 0x61 + 10) as u32
        } else if hex && 0x41 <= b && b <= 0x46 {
            (b - 0x41 + 10) as u32
        } else {
            assert(digit_value(d@[i as int], radix) is None);
            return None;
        };
        let next: u32 = if hex { acc * 16 + v } else { acc * 10 + v };
        proof {
            let grown = d@.subrange(0, i + 1);
            assert(grown.drop_last() =~= d@.subrange(0, i as int));
            assert(grown.last() == b);
            assert(next == number(grown, radix));
            assert forall|k: int| 0 <= k < grown.len() implies (#[trigger] digit_value(
                grown[k],
                radix,
            )) is Some by {
                if k < i {
                    assert(d@.subrange(0, i as int)[k] == grown[k]);
                }
            }
        }
        if next > 0x10FFFF {
            proof {
                lemma_number_bounds(d@, radix, i + 1);
            }
            return None;
        }
        acc = next;
        i += 1;
    }
    assert(d@.subrange(0, i as int) =~= d@);
    if 0xD800 <= acc && acc <= 0xDFFF {
        None
    } else {
        Some(acc)
    }
}

/// Appends the UTF-8 encoding of a Unicode scalar value.
fn push_scalar(out: &mut Vec<u8>, code: u32)
    requires
        is_scalar(code),
    ensures
        final(out)@ == old(out)@ + encode_scalar(code),
{
    if code <= 0x7F {
        assert(code & 0x7F < 256) by (bit_vector);
        out.push((code & 0x7F) as u8);
    } else if code <= 0x7FF {
        assert((code >> 6) & 0x1F < 256) by (bit_vector);
        assert(code & 0x3F < 256) by (bit_vector);
        out.push(0xC0 | ((code >> 6) & 0x1F) as u8);
        out.push(0x80 | (code & 0x3F) as u8);
    } else if code <= 0xFFFF {
        assert((code >> 12) & 0x0F < 256) by (bit_vector);
        assert((code >> 6) & 0x3F < 256) by (bit_vector);
        assert(code & 0x3F < 256) by (bit_vector);
        out.push(0xE0 | ((code >> 12) & 0x0F) as u8);
        out.push(0x80 | ((code >> 6) & 0x3F) as u8);
        out.push(0x80 | (code & 0x3F) as u8);
    } else {
        assert((code >> 18) & 0x7 < 256) by (bit_vector);
        assert((code >> 12) & 0x3F < 256) by (bit_vector);
        assert((code >> 6) & 0x3F < 256) by (bit_vector);
        assert(code & 0x3F < 256) by (bit_vector);
        out.push(0xF0 | ((code >> 18) & 0x7) as u8);
        out.push(0x80 | ((code >> 12) & 0x3F) as u8);
        out.push(0x80 | ((code >> 6) & 0x3F) as u8);
        out.push(0x80 | (code & 0x3F) as u8);
    }
    assert(out@ =~= old(out)@ + encode_scalar(code));
}

/// Appends what the entity `name` stands for; says whether it is known.
fn push_entity(out: &mut Vec<u8>, name: &[u8]) -> (known: bool)
    ensures
        match entity(name@) {
            Some(replacement) => known && final(out)@ == old(out)@ + replacement,
            None => !known,
        },
{
    let lt: [u8; 2] = [0x6c, 0x74];
    let gt: [u8; 2] = [0x67, 0x74];
    let amp: [u8; 3] = [0x61, 0x6d, 0x70];
    let apos: [u8; 4] = [0x61, 0x70, 0x6f, 0x73];
    let quot: [u8; 4] = [0x71, 0x75, 0x6f, 0x74];
    assert(lt@ =~= name_lt());
    assert(gt@ =~= name_gt());
    assert(amp@ =~= name_amp());
    assert(apos@ =~= name_apos());
    assert(quot@ =~= name_quot());
    if same_bytes(name, lt.as_slice()) {
        out.push(LT);
        assert(out@ =~= old(out)@ + seq![LT]);
        true
    } else if same_bytes(name, gt.as_slice()) {
        out.push(GT);
        assert(out@ =~= old(out)@ + seq![GT]);
        true
    } else if same_bytes(name, amp.as_slice()) {
        out.push(AMP);
        assert(out@ =~= old(out)@ + seq![AMP]);
        true
    } else if same_bytes(name, apos.as_slice()) {
        out.push(APOS);
        assert(out@ =~= old(out)@ + seq![APOS]);
        true
    } else if same_bytes(name, quot.as_slice()) {
        out.push(QUOTE);
        assert(out@ =~= old(out)@ + seq![QUOTE]);
        true
    } else if name.len() > 0 && name[0] == HASH {
        let hex = name.len() > 1 && name[1] == LOWER_X;
        let body: &[u8] = &name[1..name.len()];
        let code = if hex {
            read_char_code(&body[1..body.len()], true)
        } else {
            read_char_code(body, false)
        };
        match code {
            Some(c) => {
                push_scalar(out, c);
                true
            },
            None => false,
        }
    } else {
        false
    }
}

/// Replaces every entity reference in `raw` by what it stands for.
///
/// A span without `&` comes back borrowed, as it is. Otherwise the result is
/// a copy in which the five predefined entities and the numeric character
/// references are resolved. An unknown entity, a `&` without `;`, or a
/// reference to a code point that is not a Unicode scalar value is an error.
pub fn unescape<'a>(raw: &'a [u8]) -> (r: Result<Cow<'a, [u8]>, Error>)
    ensures
        match unescaped(raw@) {
            Some(text) => r matches Ok(c) && c@ == text,
            None => r == Err::<Cow<'a, [u8]>, Error>(Error::InvalidEscape),
        },
        !raw@.contains(AMP) ==> r == Ok::<Cow<'a, [u8]>, Error>(Cow::Borrowed(raw)),
        raw@.contains(AMP) ==> !(r matches Ok(Cow::Borrowed(_))),
{
    let len = raw.len();
    let first = scan(raw, 0, ByteClass::Is(AMP));
    if first >= len {
        assert(raw@.subrange(0, len as int) =~= raw@);
        assert(!raw@.contains(AMP));
        return Ok(Cow::Borrowed(raw));
    }
    assert(raw@.contains(AMP));
    let mut out: Vec<u8> = Vec::new();
    let mut pos: usize = 0;
    let mut amp: usize = first;
    while amp < len
        invariant
            len == raw@.len(),
            pos <= amp <= len,
            raw@.contains(AMP),
            amp == find(raw@, pos as int, ByteClass::Is(AMP)),
            unescaped(raw@) == prepend(out@, unescaped_from(raw@, pos as int)),
        decreases len - pos,
    {
        let semi = scan(raw, amp + 1, ByteClass::Is(SEMI));
        if semi >= len {
            return Err(Error::InvalidEscape);
        }
        let ghost before = out@;
        out.extend_from_slice(&raw[pos..amp]);
        if !push_entity(&mut out, &raw[amp + 1..semi]) {
            return Err(Error::InvalidEscape);
        }
        proof {
            let replacement = entity(raw@.subrange(amp + 1, semi as int))->0;
            let rest = unescaped_from(raw@, semi + 1);
            assert(out@ == before + raw@.subrange(pos as int, amp as int) + replacement);
            if rest is Some {
                assert(before + (raw@.subrange(pos as int, amp as int) + replacement + rest->0)
                    =~= out@ + rest->0);
            }
        }
        pos = semi + 1;
        amp = scan(raw, pos, ByteClass::Is(AMP));
    }
    out.extend_from_slice(&raw[pos..len]);
    Ok(Cow::Owned(out))
}

/// No entity reference is needed for a span without special bytes.
pub proof fn lemma_escaped_plain(s: Seq<u8>)
    requires
        forall|i: int| 0 <= i < s.len() ==> !is_special(#[trigger] s[i]),
    ensures
        escaped(s) == s,
    decreases s.len(),
{
    if s.len() > 0 {
        lemma_escaped_plain(s.skip(1));
        assert(seq![s[0]] + s.skip(1) =~= s);
    } else {
        assert(s =~= Seq::<u8>::empty());
    }
}

/// Appends the escaped form of one byte.
fn push_escaped_byte(out: &mut Vec<u8>, b: u8)
    ensures
        final(out)@ == old(out)@ + escaped_byte(b),
{
    if b == LT {
        let e: [u8; 4] = [AMP, 0x6c, 0x74, SEMI];
        assert(e@ =~= escaped_byte(b));
        out.extend_from_slice(e.as_slice());
    } else if b == GT {
        let e: [u8; 4] = [AMP, 0x67, 0x74, SEMI];
        assert(e@ =~= escaped_byte(b));
        out.extend_from_slice(e.as_slice());
    } else if b == AMP {
        let e: [u8; 5] = [AMP, 0x61, 0x6d, 0x70, SEMI];
        assert(e@ =~= escaped_byte(b));
        out.extend_from_slice(e.as_slice());
    } else if b == APOS {
        let e: [u8; 6] = [AMP, 0x61, 0x70, 0x6f, 0x73, SEMI];
        assert(e@ =~= escaped_byte(b));
        out.extend_from_slice(e.as_slice());
    } else if b == QUOTE {
        let e: [u8; 6] = [AMP, 0x71, 0x75, 0x6f, 0x74, SEMI];
        assert(e@ =~= escaped_byte(b));
        out.extend_from_slice(e.as_slice());
    } else {
        out.push(b);
        assert(out@ =~= old(out)@ + escaped_byte(b));
    }
}

/// Writes `raw` as escaped text: `<`, `>`, `&`, `'` and `"` become entity
/// references. A span without any of them comes back borrowed.
pub fn escape<'a>(raw: &'a [u8]) -> (r: Cow<'a, [u8]>)
    ensures
        r@ == escaped(raw@),
        (forall|i: int| 0 <= i < raw@.len() ==> !is_special(#[trigger] raw@[i])) ==> r
            == Cow::<'a, [u8]>::Borrowed(raw),
        (exists|i: int| 0 <= i < raw@.len() && is_special(#[trigger] raw@[i])) ==> r is Owned,
{
    let len = raw.len();
    let mut first: usize = 0;
    while first < len && !(raw[first] == LT || raw[first] == GT || raw[first] == AMP || raw[first]
        == APOS || raw[first] == QUOTE)
        invariant
            len == raw@.len(),
            first <= len,
            forall|i: int| 0 <= i < first ==> !is_special(#[trigger] raw@[i]),
        decreases len - first,
    {
        first += 1;
    }
    if first >= len {
        proof {
            lemma_escaped_plain(raw@);
        }
        return Cow::Borrowed(raw);
    }
    let mut out: Vec<u8> = Vec::new();
    let mut i: usize = 0;
    assert(out@ + escaped(raw@.skip(0)) =~= escaped(raw@)) by {
        assert(raw@.skip(0) =~= raw@);
    }
    while i < len
        invariant
            len == raw@.len(),
            i <= len,
            out@ + escaped(raw@.skip(i as int)) == escaped(raw@),
        decreases len - i,
    {
        let ghost before = out@;
        push_escaped_byte(&mut out, raw[i]);
        proof {
            let tail = raw@.skip(i as int);
            assert(tail[0] == raw@[i as int]);
            assert(tail.skip(1) =~= raw@.skip(i + 1));
            assert(before + (escaped_byte(raw@[i as int]) + escaped(raw@.skip(i + 1))) =~= out@
                + escaped(raw@.skip(i + 1)));
        }
        i += 1;
    }
    assert(out@ + escaped(raw@.skip(len as int)) =~= out@);
    Cow::Owned(out)
}

/// A span without `&` stands for itself.
pub proof fn lemma_unescaped_plain(s: Seq<u8>)
    requires
        !s.contains(AMP),
    ensures
        unescaped(s) == Some(s),
{
    lemma_find(s, 0, ByteClass::Is(AMP));
    let amp = find(s, 0, ByteClass::Is(AMP));
    if amp < s.len() {
        assert(s.contains(s[amp]));
    }
    assert(s.subrange(0, s.len() as int) =~= s);
}

/// What stands behind a prefix unescapes as it does on its own.
proof fn lemma_unescaped_shift(a: Seq<u8>, t: Seq<u8>, i: int)
    requires
        0 <= i <= t.len(),
    ensures
        unescaped_from(a + t, a.len() + i) == unescaped_from(t, i),
    decreases t.len() - i,
{
    let s = a + t;
    let la = a.len() as int;
    lemma_find_shift(a, t, i, ByteClass::Is(AMP));
    lemma_find(t, i, ByteClass::Is(AMP));
    let amp = find(t, i, ByteClass::Is(AMP));
    if amp >= t.len() {
        assert(s.subrange(la + i, s.len() as int) =~= t.subrange(i, t.len() as int));
    } else {
        lemma_find_shift(a, t, amp + 1, ByteClass::Is(SEMI));
        lemma_find(t, amp + 1, ByteClass::Is(SEMI));
        let semi = find(t, amp + 1, ByteClass::Is(SEMI));
        if semi < t.len() {
            assert(s.subrange(la + amp + 1, la + semi) =~= t.subrange(amp + 1, semi));
            assert(s.subrange(la + i, la + amp) =~= t.subrange(i, amp));
            lemma_unescaped_shift(a, t, semi + 1);
        }
    }
}

/// The name by which a special byte is written.
pub open spec fn entity_name(b: u8) -> Seq<u8> {
    if b == LT {
        name_lt()
    } else if b == GT {
        name_gt()
    } else if b == AMP {
        name_amp()
    } else if b == APOS {
        name_apos()
    } else {
        name_quot()
    }
}

proof fn lemma_entity_of_name(b: u8)
    requires
        is_special(b),
    ensures
        entity(entity_name(b)) == Some(seq![b]),
        escaped_byte(b) == seq![AMP] + entity_name(b) + seq![SEMI],
        forall|i: int| 0 <= i < entity_name(b).len() ==> entity_name(b)[i] != SEMI,
{
    assert(name_gt()[0] != name_lt()[0]);
    assert(name_amp().len() != name_lt().len());
    assert(name_amp().len() != name_gt().len());
    assert(name_apos().len() != name_lt().len());
    assert(name_apos().len() != name_gt().len());
    assert(name_apos().len() != name_amp().len());
    assert(name_quot().len() != name_lt().len());
    assert(name_quot().len() != name_gt().len());
    assert(name_quot().len() != name_amp().len());
    assert(name_quot()[0] != name_apos()[0]);
}

/// The escaped form of one byte, in front of anything, unescapes to that
/// byte in front of what the rest unescapes to.
proof fn lemma_escaped_byte_unescapes(b: u8, rest: Seq<u8>)
    ensures
        unescaped_from(escaped_byte(b) + rest, 0) == prepend(seq![b], unescaped_from(rest, 0)),
{
    let e = escaped_byte(b);
    let s = e + rest;
    if is_special(b) {
        lemma_entity_of_name(b);
        let name = entity_name(b);
        let last: int = name.len() as int + 1;
        assert(e.len() == name.len() + 2);
        assert(s[0] == AMP);
        assert(find(s, 0, ByteClass::Is(AMP)) == 0);
        assert forall|i: int| 1 <= i < last implies !ByteClass::Is(SEMI).holds(#[trigger] s[i]) by {
            assert(s[i] == name[i - 1]);
        }
        assert(s[last] == SEMI);
        lemma_find_is(s, 1, ByteClass::Is(SEMI), last);
        assert(s.subrange(1, last) =~= name);
        lemma_unescaped_shift(e, rest, 0);
        assert(s.subrange(0, 0) + seq![b] =~= seq![b]);
    } else {
        assert(e =~= seq![b]);
        assert(s[0] == b);
        lemma_find_shift(e, rest, 0, ByteClass::Is(AMP));
        lemma_find(rest, 0, ByteClass::Is(AMP));
        let amp = find(rest, 0, ByteClass::Is(AMP));
        assert(find(s, 0, ByteClass::Is(AMP)) == amp + 1);
        if amp >= rest.len() {
            assert(s.subrange(0, s.len() as int) =~= seq![b] + rest.subrange(
                0,
                rest.len() as int,
            ));
        } else {
            lemma_find_shift(e, rest, amp + 1, ByteClass::Is(SEMI));
            lemma_find(rest, amp + 1, ByteClass::Is(SEMI));
            let semi = find(rest, amp + 1, ByteClass::Is(SEMI));
            if semi < rest.len() {
                assert(s.subrange(amp + 2, semi + 1) =~= rest.subrange(amp + 1, semi));
                lemma_unescaped_shift(e, rest, semi + 1);
                match entity(rest.subrange(amp + 1, semi)) {
                    Some(replacement) => {
                        match unescaped_from(rest, semi + 1) {
                            Some(tail) => {
                                assert(s.subrange(0, amp + 1) + replacement + tail =~= seq![b] + (
                                rest.subrange(0, amp) + replacement + tail));
                            },
                            None => {},
                        }
                    },
                    None => {},
                }
            }
        }
    }
}

/// Unescaping undoes escaping: for every span `s`, the escaped form of `s`
/// unescapes to `s`.
pub proof fn lemma_unescape_inverts_escape(s: Seq<u8>)
    ensures
        unescaped(escaped(s)) == Some(s),
    decreases s.len(),
{
    if s.len() == 0 {
        let e = escaped(s);
        assert(e.subrange(0, e.len() as int) =~= s);
    } else {
        lemma_unescape_inverts_escape(s.skip(1));
        lemma_escaped_byte_unescapes(s[0], escaped(s.skip(1)));
        assert(seq![s[0]] + s.skip(1) =~= s);
    }
}

} // verus!
