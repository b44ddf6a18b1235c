//! The namespace resolver: the prefixes that are bound to namespace names,
//! innermost declaration last.
//!
//! A binding is made by an attribute `xmlns` or `xmlns:prefix` of a start
//! tag and holds for the element that the tag opens. Every binding carries
//! the depth of that element, so that closing the element releases exactly
//! the bindings that its start tag made.

use vstd::prelude::*;
use crate::attributes::{attr_step, lemma_attr_step, AttrSpan, AttrStep};
use crate::events::{prefix_part, BytesStart, StartView};
use crate::scan::{matches_at, same_bytes, scan, starts_with, to_vec, ByteClass, COLON};

verus! {

/// One binding of a prefix to a namespace name.
pub struct BindingView {
    /// The prefix; empty for the default namespace.
    pub prefix: Seq<u8>,
    /// The namespace name; empty where the prefix is taken out of use.
    pub uri: Seq<u8>,
    /// The depth of the element that declared the binding, the outermost
    /// element being at depth 1.
    pub level: int,
}

/// The resolver as a value: its bindings, innermost last.
pub struct ResolverView {
    pub bindings: Seq<BindingView>,
}

/// `xmlns`
pub open spec fn xmlns() -> Seq<u8> {
    seq![0x78u8, 0x6du8, 0x6cu8, 0x6eu8, 0x73u8]
}

/// `xmlns:`
pub open spec fn xmlns_colon() -> Seq<u8> {
    seq![0x78u8, 0x6du8, 0x6cu8, 0x6eu8, 0x73u8, COLON]
}

/// The prefix that an attribute with this key binds: none for `xmlns`, what
/// follows `xmlns:` otherwise; nothing if the key declares no namespace.
pub open spec fn declared_prefix(key: Seq<u8>) -> Option<Seq<u8>> {
    if key == xmlns() {
        Some(Seq::empty())
    } else if matches_at(key, 0, xmlns_colon()) {
        Some(key.subrange(6, key.len() as int))
    } else {
        None
    }
}

/// The binding that one attribute makes, if it makes one.
pub open spec fn binding_of(buf: Seq<u8>, a: AttrSpan, level: int) -> Seq<BindingView> {
    match declared_prefix(a.key(buf)) {
        Some(prefix) => seq![BindingView { prefix, uri: a.value(buf), level }],
        None => Seq::empty(),
    }
}

/// The bindings that the attributes of `buf` from offset `pos` on make, in
/// their order, up to the end of the tag or the first malformed attribute.
pub open spec fn declared_from(buf: Seq<u8>, pos: int, level: int) -> Seq<BindingView>
    decreases buf.len() - pos,
    via declared_from_decreases
{
    match attr_step(buf, pos) {
        AttrStep::Found(a) => binding_of(buf, a, level) + declared_from(buf, a.resume(), level),
        _ => Seq::empty(),
    }
}

#[via_fn]
proof fn declared_from_decreases(buf: Seq<u8>, pos: int, level: int) {
    lemma_attr_step(buf, pos);
}

/// The resolver after a start tag at depth `level`: the bindings that the
/// tag declares come on top.
pub open spec fn declared(r: ResolverView, tag: StartView, level: int) -> ResolverView {
    ResolverView { bindings: r.bindings + declared_from(tag.buf, tag.name_len, level) }
}

/// The bindings without those on top that were declared deeper than
/// `depth`.
pub open spec fn released_from(bindings: Seq<BindingView>, depth: int) -> Seq<BindingView>
    decreases bindings.len(),
{
    if bindings.len() > 0 && bindings.last().level > depth {
        released_from(bindings.drop_last(), depth)
    } else {
        bindings
    }
}

/// The resolver after the elements deeper than `depth` are closed.
pub open spec fn released(r: ResolverView, depth: int) -> ResolverView {
    ResolverView { bindings: released_from(r.bindings, depth) }
}

/// The namespace name that the innermost binding of `prefix` gives it, if
/// there is such a binding and it does not take the prefix out of use.
pub open spec fn bound_to(bindings: Seq<BindingView>, prefix: Seq<u8>) -> Option<Seq<u8>>
    decreases bindings.len(),
{
    if bindings.len() == 0 {
        None
    } else if bindings.last().prefix == prefix {
        if bindings.last().uri.len() == 0 {
            None
        } else {
            Some(bindings.last().uri)
        }
    } else {
        bound_to(bindings.drop_last(), prefix)
    }
}

/// The namespace of a qualified name. A name with a prefix is in the
/// namespace that the prefix is bound to. A name without prefix is in the
/// default namespace if it names an element, and in none if it names an
/// attribute.
pub open spec fn resolved(r: ResolverView, name: Seq<u8>, element: bool) -> Option<Seq<u8>> {
    match prefix_part(name) {
        Some(prefix) => bound_to(r.bindings, prefix),
        None => if element {
            bound_to(r.bindings, Seq::empty())
        } else {
            None
        },
    }
}

/// Whether the bindings can be those of a resolver when `depth` elements
/// are open: each was declared by one of them, and deeper ones lie on top.
pub open spec fn bindings_ok(bindings: Seq<BindingView>, depth: int) -> bool {
    &&& forall|i: int| 0 <= i < bindings.len() ==> 1 <= (#[trigger] bindings[i]).level <= depth
    &&& forall|i: int, j: int|
        0 <= i <= j < bindings.len() ==> (#[trigger] bindings[i]).level <= (
        #[trigger] bindings[j]).level
}

/// All the bindings that a tag declares carry the tag's depth.
pub proof fn lemma_declared_from_level(buf: Seq<u8>, pos: int, level: int)
    ensures
        forall|i: int|
            0 <= i < declared_from(buf, pos, level).len() ==> (#[trigger] declared_from(
                buf,
                pos,
                level,
            )[i]).level == level,
    decreases buf.len() - pos,
{
    lemma_attr_step(buf, pos);
    match attr_step(buf, pos) {
        AttrStep::Found(a) => {
            lemma_declared_from_level(buf, a.resume(), level);
            let first = binding_of(buf, a, level);
            let rest = declared_from(buf, a.resume(), level);
            let all = declared_from(buf, pos, level);
            assert(all == first + rest);
            assert forall|i: int| 0 <= i < all.len() implies (#[trigger] all[i]).level == level by {
                if i >= first.len() {
                    assert(all[i] == rest[i - first.len()]);
                }
            }
        },
        _ => {},
    }
}

/// A start tag one level deeper keeps the bindings in order.
pub proof fn lemma_declared_ok(r: ResolverView, tag: StartView, depth: int)
    requires
        bindings_ok(r.bindings, depth),
        depth >= 0,
    ensures
        bindings_ok(declared(r, tag, depth + 1).bindings, depth + 1),
{
    lemma_declared_from_level(tag.buf, tag.name_len, depth + 1);
}

/// Releasing leaves a front part of the bindings, none of it declared
/// deeper than `depth`.
pub proof fn lemma_released_ok(bindings: Seq<BindingView>, from: int, depth: int)
    requires
        bindings_ok(bindings, from),
        0 <= depth,
    ensures
        bindings_ok(released_from(bindings, depth), if depth < from { depth } else { from }),
        released_from(bindings, depth).len() <= bindings.len(),
        released_from(bindings, depth) == bindings.subrange(
            0,
            released_from(bindings, depth).len() as int,
        ),
    decreases bindings.len(),
{
    if bindings.len() > 0 && bindings.last().level > depth {
        let shorter = bindings.drop_last();
        assert forall|i: int| 0 <= i < shorter.len() implies 1 <= (#[trigger] shorter[i]).level
            <= from by {
            assert(shorter[i] == bindings[i]);
        }
        assert forall|i: int, j: int| 0 <= i <= j < shorter.len() implies (#[trigger] shorter[i]).level
            <= (#[trigger] shorter[j]).level by {
            assert(shorter[i] == bindings[i]);
            assert(shorter[j] == bindings[j]);
        }
        lemma_released_ok(shorter, from, depth);
        let kept = released_from(shorter, depth);
        assert(kept =~= bindings.subrange(0, kept.len() as int));
    } else {
        assert(bindings =~= bindings.subrange(0, bindings.len() as int));
        if bindings.len() > 0 {
            let last = bindings.len() - 1;
            assert forall|i: int| 0 <= i < bindings.len() implies (#[trigger] bindings[i]).level
                <= depth by {
                assert(bindings[i].level <= bindings[last].level);
            }
        }
    }
}

/// A start tag followed at once by its end leaves the bindings as they
/// were.
pub proof fn lemma_declared_then_released(r: ResolverView, tag: StartView, depth: int)
    requires
        bindings_ok(r.bindings, depth),
        depth >= 0,
    ensures
        released(declared(r, tag, depth + 1), depth) == r,
{
    lemma_declared_from_level(tag.buf, tag.name_len, depth + 1);
    lemma_drop_deeper(r.bindings, declared_from(tag.buf, tag.name_len, depth + 1), depth);
}

proof fn lemma_drop_deeper(kept: Seq<BindingView>, top: Seq<BindingView>, depth: int)
    requires
        bindings_ok(kept, depth),
        forall|i: int| 0 <= i < top.len() ==> (#[trigger] top[i]).level > depth,
    ensures
        released_from(kept + top, depth) == kept,
    decreases top.len(),
{
    let all = kept + top;
    if top.len() > 0 {
        assert(all.last() == top.last());
        assert(all.drop_last() =~= kept + top.drop_last());
        lemma_drop_deeper(kept, top.drop_last(), depth);
    } else {
        assert(all =~= kept);
        if kept.len() > 0 {
            assert(kept.last() == kept[kept.len() - 1]);
        }
    }
}

/// One binding of a prefix to a namespace name.
pub struct Binding {
    prefix: Vec<u8>,
    uri: Vec<u8>,
    level: usize,
}

impl View for Binding {
    type V = BindingView;

    closed spec fn view(&self) -> BindingView {
        BindingView { prefix: self.prefix@, uri: self.uri@, level: self.level as int }
    }
}

/// The stack of the bindings that are in force.
pub struct NamespaceResolver {
    bindings: Vec<Binding>,
}

impl View for NamespaceResolver {
    type V = ResolverView;

    closed spec fn view(&self) -> ResolverView {
        ResolverView { bindings: Seq::new(self.bindings@.len(), |i: int| self.bindings@[i]@) }
    }
}

/// The prefix that an attribute with this key binds, if the key declares a
/// namespace.
pub fn read_declared_prefix<'x>(key: &'x [u8]) -> (r: Option<&'x [u8]>)
    ensures
        match declared_prefix(key@) {
            Some(prefix) => r matches Some(p) && p@ == prefix,
            None => r is None,
        },
{
    let plain: [u8; 5] = [0x78, 0x6d, 0x6c, 0x6e, 0x73];
    let with_colon: [u8; 6] = [0x78, 0x6d, 0x6c, 0x6e, 0x73, COLON];
    assert(plain@ =~= xmlns());
    assert(with_colon@ =~= xmlns_colon());
    if same_bytes(key, plain.as_slice()) {
        let r: &'x [u8] = &key[0..0];
        assert(r@ =~= Seq::<u8>::empty());
        Some(r)
    } else if starts_with(key, 0, with_colon.as_slice()) {
        Some(&key[6..key.len()])
    } else {
        None
    }
}

impl NamespaceResolver {
    /// A resolver without bindings.
    pub fn new() -> (r: Self)
        ensures
            r@ == (ResolverView { bindings: Seq::empty() }),
    {
        let r = NamespaceResolver { bindings: Vec::new() };
        assert(r@.bindings =~= Seq::<BindingView>::empty());
        r
    }

    /// How many bindings are in force.
    pub fn len(&self) -> (r: usize)
        ensures
            r == self@.bindings.len(),
    {
        self.bindings.len()
    }

    /// Puts the bindings that `start` declares on top, for an element at
    /// depth `level`.
    pub fn declare(&mut self, start: &BytesStart<'_>, level: usize)
        ensures
            final(self)@ == declared(old(self)@, start@, level as int),
    {
        let mut cursor = start.attributes();
        let ghost buf = start@.buf;
        let ghost from = start@.name_len;
        assert(self@.bindings + Seq::<BindingView>::empty() =~= self@.bindings);
        loop
            invariant
                buf == start@.buf,
                from == start@.name_len,
                cursor.bytes@ == buf,
                cursor.position <= buf.len(),
                self@.bindings + declared_from(buf, cursor.position as int, level as int) == old(
                    self,
                )@.bindings + declared_from(buf, from, level as int),
            decreases buf.len() - cursor.position,
        {
            let ghost before = self@.bindings;
            let ghost at = cursor.position as int;
            proof {
                lemma_attr_step(buf, at);
            }
            match cursor.next() {
                Some(Ok(a)) => {
                    match read_declared_prefix(a.key) {
                        Some(prefix) => {
                            self.bindings.push(
                                Binding { prefix: to_vec(prefix), uri: to_vec(a.value), level },
                            );
                        },
                        None => {},
                    }
                    proof {
                        let found = attr_step(buf, at)->Found_0;
                        assert(self@.bindings =~= before + binding_of(buf, found, level as int));
                        assert(before + (binding_of(buf, found, level as int) + declared_from(
                            buf,
                            found.resume(),
                            level as int,
                        )) =~= self@.bindings + declared_from(
                            buf,
                            cursor.position as int,
                            level as int,
                        ));
                    }
                },
                _ => {
                    assert(before + Seq::<BindingView>::empty() =~= before);
                    return ;
                },
            }
        }
    }

    /// Takes the bindings off the top that were declared deeper than
    /// `depth`.
    pub fn release(&mut self, depth: usize)
        ensures
            final(self)@ == released(old(self)@, depth as int),
    {
        loop
            invariant
                released_from(self@.bindings, depth as int) == released_from(
                    old(self)@.bindings,
                    depth as int,
                ),
            decreases self.bindings@.len(),
        {
            let n = self.bindings.len();
            if n == 0 {
                return ;
            }
            if self.bindings[n - 1].level <= depth {
                assert(self@.bindings.last() == self.bindings@[n - 1]@);
                return ;
            }
            let ghost before = self@.bindings;
            assert(before.last() == self.bindings@[n - 1]@);
            self.bindings.pop();
            assert(self@.bindings =~= before.drop_last());
        }
    }

    /// The namespace name that `prefix` is bound to.
    pub fn lookup(&self, prefix: &[u8]) -> (r: Option<&[u8]>)
        ensures
            match bound_to(self@.bindings, prefix@) {
                Some(uri) => r matches Some(u) && u@ == uri,
                None => r is None,
            },
    {
        let mut i = self.bindings.len();
        assert(self@.bindings.subrange(0, i as int) =~= self@.bindings);
        while i > 0
            invariant
                i <= self.bindings@.len(),
                bound_to(self@.bindings, prefix@) == bound_to(
                    self@.bindings.subrange(0, i as int),
                    prefix@,
                ),
            decreases i,
        {
            let ghost upto = self@.bindings.subrange(0, i as int);
            assert(upto.last() == self.bindings@[i - 1]@);
            assert(upto.drop_last() =~= self@.bindings.subrange(0, i - 1));
            let binding = &self.bindings[i - 1];
            if same_bytes(binding.prefix.as_slice(), prefix) {
                if binding.uri.len() == 0 {
                    return None;
                }
                return Some(binding.uri.as_slice());
            }
            i -= 1;
        }
        None
    }

    /// The namespace of a qualified name, which names an element or an
    /// attribute.
    pub fn resolve(&self, name: &[u8], element: bool) -> (r: Option<&[u8]>)
        ensures
            match resolved(self@, name@, element) {
                Some(uri) => r matches Some(u) && u@ == uri,
                None => r is None,
            },
    {
        let colon = scan(name, 0, ByteClass::Is(COLON));
        if colon < name.len() {
            self.lookup(&name[0..colon])
        } else if element {
            let none: &[u8] = &name[0..0];
            assert(none@ =~= Seq::<u8>::empty());
            self.lookup(none)
        } else {
            None
        }
    }
}

} // verus!
