//! The data a UI script binds against: flat arrays linked by spans, every
//! string in one buffer. The sim fills it top-down once per frame
//! (`begin_list`, then `begin_row` and `bind` for each row), so every
//! list's rows and every row's bindings are contiguous; globals live in an
//! array of their own, so `bind_global` is legal at any point.

use vstd::prelude::*;
use vstd::string::StringSliceAdditionalSpecFns;
use crate::util::span::Span;
use vstd::utf8::*;
use crate::util::text::{readable_range, string_bytes, substr};
use crate::ui::layout::ImageId;

verus! {

/// A string span into a compiled UI module's string buffer.
#[derive(Clone, Copy, PartialEq, Eq, Debug)]
pub struct ModuleStr(pub Span);

impl ModuleStr {
    pub fn is_empty(self) -> (b: bool)
        ensures
            b == (self.0.len == 0),
    {
        self.0.is_empty()
    }
}

/// A range into a compiled UI module's text segments.
#[derive(Clone, Copy, PartialEq, Eq, Debug)]
pub struct SegRange(pub Span);

impl SegRange {
    pub fn is_empty(self) -> (b: bool)
        ensures
            b == (self.0.len == 0),
    {
        self.0.is_empty()
    }
}

/// A string span into [`UiData::strings`].
#[derive(Clone, Copy, PartialEq, Eq, Debug)]
pub struct DataStr(pub Span);

/// A range into [`UiData::rows`].
#[derive(Clone, Copy, PartialEq, Eq, Debug)]
pub struct RowRange(pub Span);

/// A range into [`UiData::bindings`].
#[derive(Clone, Copy, PartialEq, Eq, Debug)]
pub struct BindingRange(pub Span);

/// One piece of a pre-tokenized string: a plain literal (`var` empty) or a
/// `$VAR` reference, whose `literal` keeps the source spelling as the
/// fallback when the binding is missing.
#[derive(Clone, Copy, PartialEq, Eq, Debug)]
pub struct Seg {
    pub literal: ModuleStr,
    pub var: ModuleStr,
}

/// One `$VAR` binding: `key` is the variable's name without the `$`.
#[derive(Clone, Copy, PartialEq, Eq, Debug)]
pub struct Binding {
    pub key: DataStr,
    pub value: DataStr,
}

/// The bindings one stamped-out template instance reads.
#[derive(Clone, Copy, PartialEq, Eq, Debug)]
pub struct Row {
    pub bindings: BindingRange,
}

/// The rows behind one `list`, matched to it by `id`.
#[derive(Clone, Copy, PartialEq, Eq, Debug)]
pub struct ListData {
    pub id: DataStr,
    pub rows: RowRange,
}

/// One image the script can reference by key, with its renderer handle
/// and natural size (the bits of two `f32`s).
#[derive(Clone, Copy, PartialEq, Eq, Debug)]
pub struct ImageData {
    pub key: DataStr,
    pub image: ImageId,
    pub width: u32,
    pub height: u32,
}

/// Everything the UI binds against this frame, fully owned. The zero value
/// is valid (no lists, no images); [`UiData::clear`] recycles every buffer.
#[derive(Clone, Debug)]
pub struct UiData {
    pub strings: String,
    pub lists: Vec<ListData>,
    pub rows: Vec<Row>,
    pub bindings: Vec<Binding>,
    pub globals: Vec<Binding>,
    pub images: Vec<ImageData>,
}

/// `span` reads text out of `bytes`.
pub open spec fn readable(bytes: Seq<u8>, span: Span) -> bool {
    readable_range(bytes, span.start as int, span.end())
}

/// The text `span` reads out of `bytes`.
pub open spec fn text_of(bytes: Seq<u8>, span: Span) -> Seq<u8> {
    bytes.subrange(span.start as int, span.end())
}

/// `span` lies within the first `len` items of an array.
pub open spec fn within(span: Span, len: nat) -> bool {
    span.end() <= len
}


/// The buffers hang together when each part does.
proof fn lemma_wf_intro(d: &UiData)
    requires
        string_bytes(&d.strings).len() <= u32::MAX,
        d.rows@.len() <= u32::MAX,
        d.bindings@.len() <= u32::MAX,
        forall|i: int| 0 <= i < d.lists@.len() ==> readable(string_bytes(&d.strings), #[trigger] d.lists@[i].id.0)
            && within(d.lists@[i].rows.0, d.rows@.len()),
        forall|i: int| 0 <= i < d.rows@.len() ==> within(#[trigger] d.rows@[i].bindings.0, d.bindings@.len()),
        forall|i: int| 0 <= i < d.bindings@.len() ==> readable(string_bytes(&d.strings), #[trigger] d.bindings@[i].key.0)
            && readable(string_bytes(&d.strings), d.bindings@[i].value.0),
        forall|i: int| 0 <= i < d.globals@.len() ==> readable(string_bytes(&d.strings), #[trigger] d.globals@[i].key.0)
            && readable(string_bytes(&d.strings), d.globals@[i].value.0),
        forall|i: int| 0 <= i < d.images@.len() ==> readable(string_bytes(&d.strings), #[trigger] d.images@[i].key.0),
        d.lists@.len() > 0 ==> d.lists@.last().rows.0.end() == d.rows@.len(),
        d.rows@.len() > 0 ==> d.rows@.last().bindings.0.end() == d.bindings@.len(),
    ensures
        d.well_formed(),
{
}

impl UiData {
    /// The buffers hang together: every string span reads text, every range
    /// lies within its array, and the last list and the last row end where
    /// their arrays do, so the next row or binding extends them.
    pub open spec fn well_formed(&self) -> bool {
        let bytes = string_bytes(&self.strings);
        &&& bytes.len() <= u32::MAX
        &&& self.rows@.len() <= u32::MAX
        &&& self.bindings@.len() <= u32::MAX
        &&& forall|i: int| 0 <= i < self.lists@.len() ==> readable(bytes, #[trigger] self.lists@[i].id.0)
            && within(self.lists@[i].rows.0, self.rows@.len())
        &&& forall|i: int| 0 <= i < self.rows@.len() ==> within(#[trigger] self.rows@[i].bindings.0, self.bindings@.len())
        &&& forall|i: int| 0 <= i < self.bindings@.len() ==> readable(bytes, #[trigger] self.bindings@[i].key.0)
            && readable(bytes, self.bindings@[i].value.0)
        &&& forall|i: int| 0 <= i < self.globals@.len() ==> readable(bytes, #[trigger] self.globals@[i].key.0)
            && readable(bytes, self.globals@[i].value.0)
        &&& forall|i: int| 0 <= i < self.images@.len() ==> readable(bytes, #[trigger] self.images@[i].key.0)
        &&& self.lists@.len() > 0 ==> self.lists@.last().rows.0.end() == self.rows@.len()
        &&& self.rows@.len() > 0 ==> self.rows@.last().bindings.0.end() == self.bindings@.len()
    }

    /// Nothing bound.
    pub open spec fn is_empty_data(&self) -> bool {
        &&& self.strings@.len() == 0
        &&& self.lists@.len() == 0
        &&& self.rows@.len() == 0
        &&& self.bindings@.len() == 0
        &&& self.globals@.len() == 0
        &&& self.images@.len() == 0
    }

    pub fn new() -> (d: UiData)
        ensures
            d.well_formed(),
            d.is_empty_data(),
    {
        let d = UiData {
            strings: String::new(),
            lists: Vec::new(),
            rows: Vec::new(),
            bindings: Vec::new(),
            globals: Vec::new(),
            images: Vec::new(),
        };
        assert(string_bytes(&d.strings) =~= Seq::<u8>::empty());
        d
    }

    /// Recycles every buffer: all spans handed out so far are void.
    pub fn clear(&mut self)
        ensures
            final(self).well_formed(),
            final(self).is_empty_data(),
    {
        *self = UiData::new();
    }

    /// The text a span reads.
    pub fn text(&self, span: DataStr) -> (r: &str)
        requires
            self.well_formed(),
            readable(string_bytes(&self.strings), span.0),
        ensures
            r.spec_bytes() == text_of(string_bytes(&self.strings), span.0),
    {
        span.0.str(self.strings.as_str())
    }

    /// Starts a new list; later `begin_row` calls belong to it.
    #[verifier::spinoff_prover]
    pub fn begin_list(&mut self, id: &str)
        requires
            old(self).well_formed(),
            string_bytes(&old(self).strings).len() + id.spec_bytes().len() <= u32::MAX,
        ensures
            final(self).well_formed(),
            string_bytes(&final(self).strings) == string_bytes(&old(self).strings) + id.spec_bytes(),
            final(self).lists@ == old(self).lists@.push(
                ListData {
                    id: DataStr(Span { start: string_bytes(&old(self).strings).len() as u32, len: id.spec_bytes().len() as u32 }),
                    rows: RowRange(Span { start: old(self).rows@.len() as u32, len: 0 }),
                },
            ),
            final(self).rows@ == old(self).rows@,
            final(self).bindings@ == old(self).bindings@,
            final(self).globals@ == old(self).globals@,
            final(self).images@ == old(self).images@,
            model(final(self)) == after_op(model(old(self)), UiOp::List(id.spec_bytes())),
    {
        let ghost before = string_bytes(&self.strings);
        let span = Span::push_str(&mut self.strings, id);
        let rows = Span { start: self.rows.len() as u32, len: 0 };
        self.lists.push(ListData { id: DataStr(span), rows: RowRange(rows) });
        proof {
            let bytes = string_bytes(&self.strings);
            assert forall|i: int| 0 <= i < self.lists@.len() implies readable(bytes, #[trigger] self.lists@[i].id.0)
                && within(self.lists@[i].rows.0, self.rows@.len()) by {
                if i < self.lists@.len() - 1 {
                    let s = self.lists@[i].id.0;
                    assert(readable_range(before, s.start as int, s.end()));
                }
            }
            assert forall|i: int| 0 <= i < self.bindings@.len() implies readable(bytes, #[trigger] self.bindings@[i].key.0)
                && readable(bytes, self.bindings@[i].value.0) by {
                let k = self.bindings@[i].key.0;
                let v = self.bindings@[i].value.0;
                assert(readable_range(before, k.start as int, k.end()));
                assert(readable_range(before, v.start as int, v.end()));
            }
            assert forall|i: int| 0 <= i < self.globals@.len() implies readable(bytes, #[trigger] self.globals@[i].key.0)
                && readable(bytes, self.globals@[i].value.0) by {
                let k = self.globals@[i].key.0;
                let v = self.globals@[i].value.0;
                assert(readable_range(before, k.start as int, k.end()));
                assert(readable_range(before, v.start as int, v.end()));
            }
            assert forall|i: int| 0 <= i < self.images@.len() implies readable(bytes, #[trigger] self.images@[i].key.0) by {
                let k = self.images@[i].key.0;
                assert(readable_range(before, k.start as int, k.end()));
            }
        }
    }

    /// Starts a new row in the current list; later `bind` calls belong to
    /// it. Without a list first, the row is orphaned (harmless: nothing
    /// ranges over it).
    #[verifier::spinoff_prover]
    pub fn begin_row(&mut self)
        requires
            old(self).well_formed(),
            old(self).rows@.len() < u32::MAX,
        ensures
            final(self).well_formed(),
            final(self).strings == old(self).strings,
            final(self).rows@ == old(self).rows@.push(
                Row { bindings: BindingRange(Span { start: old(self).bindings@.len() as u32, len: 0 }) },
            ),
            old(self).lists@.len() == 0 ==> final(self).lists@ == old(self).lists@,
            old(self).lists@.len() > 0 ==> final(self).lists@ == old(self).lists@.update(
                old(self).lists@.len() - 1,
                ({
                    let last = old(self).lists@.last();
                    ListData { id: last.id, rows: RowRange(Span { start: last.rows.0.start, len: (last.rows.0.len + 1) as u32 }) }
                }),
            ),
            final(self).bindings@ == old(self).bindings@,
            final(self).globals@ == old(self).globals@,
            final(self).images@ == old(self).images@,
            model(final(self)) == after_op(model(old(self)), UiOp::Row),
    {
        let row = Row { bindings: BindingRange(Span { start: self.bindings.len() as u32, len: 0 }) };
        self.rows.push(row);
        let n = self.lists.len();
        if n > 0 {
            let last = self.lists[n - 1];
            let grown = ListData { id: last.id, rows: RowRange(Span { start: last.rows.0.start, len: last.rows.0.len + 1 }) };
            self.lists.set(n - 1, grown);
        }
        proof {
            assert forall|i: int| 0 <= i < self.lists@.len() implies readable(string_bytes(&self.strings), #[trigger] self.lists@[i].id.0)
                && within(self.lists@[i].rows.0, self.rows@.len()) by {
                assert(readable(string_bytes(&old(self).strings), old(self).lists@[i].id.0));
                assert(within(old(self).lists@[i].rows.0, old(self).rows@.len()));
            }
        }
    }

    /// Adds a `$key = value` binding to the current row. Without a row
    /// first, the binding is orphaned (harmless).
    #[verifier::spinoff_prover]
    pub fn bind(&mut self, key: &str, value: &str)
        requires
            old(self).well_formed(),
            old(self).bindings@.len() < u32::MAX,
            string_bytes(&old(self).strings).len() + key.spec_bytes().len() + value.spec_bytes().len() <= u32::MAX,
        ensures
            final(self).well_formed(),
            string_bytes(&final(self).strings) == string_bytes(&old(self).strings) + key.spec_bytes() + value.spec_bytes(),
            final(self).bindings@ == old(self).bindings@.push(
                Binding {
                    key: DataStr(Span { start: string_bytes(&old(self).strings).len() as u32, len: key.spec_bytes().len() as u32 }),
                    value: DataStr(
                        Span {
                            start: (string_bytes(&old(self).strings).len() + key.spec_bytes().len()) as u32,
                            len: value.spec_bytes().len() as u32,
                        },
                    ),
                },
            ),
            old(self).rows@.len() == 0 ==> final(self).rows@ == old(self).rows@,
            old(self).rows@.len() > 0 ==> final(self).rows@ == old(self).rows@.update(
                old(self).rows@.len() - 1,
                ({
                    let last = old(self).rows@.last();
                    Row { bindings: BindingRange(Span { start: last.bindings.0.start, len: (last.bindings.0.len + 1) as u32 }) }
                }),
            ),
            final(self).lists@ == old(self).lists@,
            final(self).globals@ == old(self).globals@,
            final(self).images@ == old(self).images@,
            model(final(self)) == after_op(model(old(self)), UiOp::Bind(key.spec_bytes(), value.spec_bytes())),
    {
        let binding = self.push_binding(key, value);
        let ghost mid = *self;
        self.bindings.push(binding);
        let n = self.rows.len();
        if n > 0 {
            let last = self.rows[n - 1];
            let grown = Row { bindings: BindingRange(Span { start: last.bindings.0.start, len: last.bindings.0.len + 1 }) };
            self.rows.set(n - 1, grown);
        }
        proof {
            let bytes = string_bytes(&self.strings);
            assert forall|i: int| 0 <= i < self.rows@.len() implies within(#[trigger] self.rows@[i].bindings.0, self.bindings@.len()) by {
                assert(within(old(self).rows@[i].bindings.0, old(self).bindings@.len()));
            }
            assert forall|i: int| 0 <= i < self.lists@.len() implies readable(bytes, #[trigger] self.lists@[i].id.0)
                && within(self.lists@[i].rows.0, self.rows@.len()) by {
                assert(self.lists@[i] == old(self).lists@[i]);
                assert(readable(string_bytes(&old(self).strings), old(self).lists@[i].id.0));
            }
            assert forall|i: int| 0 <= i < self.bindings@.len() implies readable(bytes, #[trigger] self.bindings@[i].key.0)
                && readable(bytes, self.bindings@[i].value.0) by {
                if i < self.bindings@.len() - 1 {
                    assert(self.bindings@[i] == mid.bindings@[i]);
                    assert(string_bytes(&mid.strings) == bytes);
                    assert(readable(string_bytes(&mid.strings), mid.bindings@[i].key.0));
                    assert(readable(string_bytes(&mid.strings), mid.bindings@[i].value.0));
                }
            }
            assert forall|i: int| 0 <= i < self.globals@.len() implies readable(bytes, #[trigger] self.globals@[i].key.0)
                && readable(bytes, self.globals@[i].value.0) by {
                assert(self.globals@[i] == mid.globals@[i]);
                assert(readable(string_bytes(&mid.strings), mid.globals@[i].key.0));
            }
            assert forall|i: int| 0 <= i < self.images@.len() implies readable(bytes, #[trigger] self.images@[i].key.0) by {
                assert(self.images@[i] == mid.images@[i]);
                assert(readable(string_bytes(&mid.strings), mid.images@[i].key.0));
            }
            assert(bytes.len() <= u32::MAX);
            assert(self.rows@.len() <= u32::MAX);
            assert(self.bindings@.len() <= u32::MAX);
            assert(self.lists@.len() > 0 ==> self.lists@.last().rows.0.end() == self.rows@.len());
            assert(self.rows@.len() > 0 ==> self.rows@.last().bindings.0.end() == self.bindings@.len());
            lemma_wf_intro(&*self);
        }
    }

    /// Adds a `$key = value` binding to the root scope: seen by every
    /// element, shadowed by a row binding of the same key. Legal at any
    /// point: lists, rows and their bindings stay as they were.
    #[verifier::spinoff_prover]
    pub fn bind_global(&mut self, key: &str, value: &str)
        requires
            old(self).well_formed(),
            string_bytes(&old(self).strings).len() + key.spec_bytes().len() + value.spec_bytes().len() <= u32::MAX,
        ensures
            final(self).well_formed(),
            string_bytes(&final(self).strings) == string_bytes(&old(self).strings) + key.spec_bytes() + value.spec_bytes(),
            final(self).globals@ == old(self).globals@.push(
                Binding {
                    key: DataStr(Span { start: string_bytes(&old(self).strings).len() as u32, len: key.spec_bytes().len() as u32 }),
                    value: DataStr(
                        Span {
                            start: (string_bytes(&old(self).strings).len() + key.spec_bytes().len()) as u32,
                            len: value.spec_bytes().len() as u32,
                        },
                    ),
                },
            ),
            final(self).lists@ == old(self).lists@,
            final(self).rows@ == old(self).rows@,
            final(self).bindings@ == old(self).bindings@,
            final(self).images@ == old(self).images@,
            model(final(self)) == after_op(model(old(self)), UiOp::Global(key.spec_bytes(), value.spec_bytes())),
    {
        let binding = self.push_binding(key, value);
        let ghost mid = *self;
        self.globals.push(binding);
        proof {
            let bytes = string_bytes(&self.strings);
            assert forall|i: int| 0 <= i < self.globals@.len() implies readable(bytes, #[trigger] self.globals@[i].key.0)
                && readable(bytes, self.globals@[i].value.0) by {
                if i < self.globals@.len() - 1 {
                    assert(self.globals@[i] == mid.globals@[i]);
                }
            }
            assert forall|i: int| 0 <= i < self.lists@.len() implies readable(bytes, #[trigger] self.lists@[i].id.0)
                && within(self.lists@[i].rows.0, self.rows@.len()) by {
                assert(self.lists@[i] == old(self).lists@[i]);
                assert(readable(string_bytes(&old(self).strings), old(self).lists@[i].id.0));
            }
            assert forall|i: int| 0 <= i < self.rows@.len() implies within(#[trigger] self.rows@[i].bindings.0, self.bindings@.len()) by {
                assert(self.rows@[i] == old(self).rows@[i]);
                assert(within(old(self).rows@[i].bindings.0, old(self).bindings@.len()));
            }
        }
    }

    /// Appends `key` and `value` to the string buffer and returns the
    /// binding that reads them back; every span readable before stays so.
    fn push_binding(&mut self, key: &str, value: &str) -> (b: Binding)
        requires
            old(self).well_formed(),
            string_bytes(&old(self).strings).len() + key.spec_bytes().len() + value.spec_bytes().len() <= u32::MAX,
        ensures
            final(self).lists@ == old(self).lists@,
            final(self).rows@ == old(self).rows@,
            final(self).bindings@ == old(self).bindings@,
            final(self).globals@ == old(self).globals@,
            final(self).images@ == old(self).images@,
            string_bytes(&final(self).strings) == string_bytes(&old(self).strings) + key.spec_bytes() + value.spec_bytes(),
            b == (Binding {
                key: DataStr(Span { start: string_bytes(&old(self).strings).len() as u32, len: key.spec_bytes().len() as u32 }),
                value: DataStr(
                    Span {
                        start: (string_bytes(&old(self).strings).len() + key.spec_bytes().len()) as u32,
                        len: value.spec_bytes().len() as u32,
                    },
                ),
            }),
            readable(string_bytes(&final(self).strings), b.key.0),
            readable(string_bytes(&final(self).strings), b.value.0),
            ({
                let bytes = string_bytes(&final(self).strings);
                &&& bytes.len() <= u32::MAX
                &&& forall|i: int| 0 <= i < final(self).lists@.len() ==> readable(bytes, #[trigger] final(self).lists@[i].id.0)
                &&& forall|i: int| 0 <= i < final(self).bindings@.len() ==> readable(bytes, #[trigger] final(self).bindings@[i].key.0)
                    && readable(bytes, final(self).bindings@[i].value.0)
                &&& forall|i: int| 0 <= i < final(self).globals@.len() ==> readable(bytes, #[trigger] final(self).globals@[i].key.0)
                    && readable(bytes, final(self).globals@[i].value.0)
                &&& forall|i: int| 0 <= i < final(self).images@.len() ==> readable(bytes, #[trigger] final(self).images@[i].key.0)
            }),
    {
        let ghost before = string_bytes(&self.strings);
        let k = Span::push_str(&mut self.strings, key);
        let ghost middle = string_bytes(&self.strings);
        let v = Span::push_str(&mut self.strings, value);
        proof {
            let bytes = string_bytes(&self.strings);
            assert(readable_range(middle, k.start as int, k.end()));
            assert forall|i: int| 0 <= i < self.lists@.len() implies readable(bytes, #[trigger] self.lists@[i].id.0) by {
                let s = self.lists@[i].id.0;
                assert(readable_range(before, s.start as int, s.end()));
                assert(readable_range(middle, s.start as int, s.end()));
            }
            assert forall|i: int| 0 <= i < self.bindings@.len() implies readable(bytes, #[trigger] self.bindings@[i].key.0)
                && readable(bytes, self.bindings@[i].value.0) by {
                let a = self.bindings@[i].key.0;
                let c = self.bindings@[i].value.0;
                assert(readable_range(before, a.start as int, a.end()));
                assert(readable_range(middle, a.start as int, a.end()));
                assert(readable_range(before, c.start as int, c.end()));
                assert(readable_range(middle, c.start as int, c.end()));
            }
            assert forall|i: int| 0 <= i < self.globals@.len() implies readable(bytes, #[trigger] self.globals@[i].key.0)
                && readable(bytes, self.globals@[i].value.0) by {
                let a = self.globals@[i].key.0;
                let c = self.globals@[i].value.0;
                assert(readable_range(before, a.start as int, a.end()));
                assert(readable_range(middle, a.start as int, a.end()));
                assert(readable_range(before, c.start as int, c.end()));
                assert(readable_range(middle, c.start as int, c.end()));
            }
            assert forall|i: int| 0 <= i < self.images@.len() implies readable(bytes, #[trigger] self.images@[i].key.0) by {
                let a = self.images@[i].key.0;
                assert(readable_range(before, a.start as int, a.end()));
                assert(readable_range(middle, a.start as int, a.end()));
            }
        }
        Binding { key: DataStr(k), value: DataStr(v) }
    }

    /// Registers an image the script can reference by `key`.
    #[verifier::spinoff_prover]
    pub fn add_image(&mut self, key: &str, image: ImageId, width: u32, height: u32)
        requires
            old(self).well_formed(),
            string_bytes(&old(self).strings).len() + key.spec_bytes().len() <= u32::MAX,
        ensures
            final(self).well_formed(),
            string_bytes(&final(self).strings) == string_bytes(&old(self).strings) + key.spec_bytes(),
            final(self).images@ == old(self).images@.push(
                ImageData {
                    key: DataStr(Span { start: string_bytes(&old(self).strings).len() as u32, len: key.spec_bytes().len() as u32 }),
                    image,
                    width,
                    height,
                },
            ),
            final(self).lists@ == old(self).lists@,
            final(self).rows@ == old(self).rows@,
            final(self).bindings@ == old(self).bindings@,
            final(self).globals@ == old(self).globals@,
    {
        let ghost before = string_bytes(&self.strings);
        let span = Span::push_str(&mut self.strings, key);
        self.images.push(ImageData { key: DataStr(span), image, width, height });
        proof {
            let bytes = string_bytes(&self.strings);
            assert forall|i: int| 0 <= i < self.lists@.len() implies readable(bytes, #[trigger] self.lists@[i].id.0)
                && within(self.lists@[i].rows.0, self.rows@.len()) by {
                let s = self.lists@[i].id.0;
                assert(readable_range(before, s.start as int, s.end()));
            }
            assert forall|i: int| 0 <= i < self.bindings@.len() implies readable(bytes, #[trigger] self.bindings@[i].key.0)
                && readable(bytes, self.bindings@[i].value.0) by {
                let k = self.bindings@[i].key.0;
                let v = self.bindings@[i].value.0;
                assert(readable_range(before, k.start as int, k.end()));
                assert(readable_range(before, v.start as int, v.end()));
            }
            assert forall|i: int| 0 <= i < self.globals@.len() implies readable(bytes, #[trigger] self.globals@[i].key.0)
                && readable(bytes, self.globals@[i].value.0) by {
                let k = self.globals@[i].key.0;
                let v = self.globals@[i].value.0;
                assert(readable_range(before, k.start as int, k.end()));
                assert(readable_range(before, v.start as int, v.end()));
            }
            assert forall|i: int| 0 <= i < self.images@.len() implies readable(bytes, #[trigger] self.images@[i].key.0) by {
                if i < self.images@.len() - 1 {
                    let k = self.images@[i].key.0;
                    assert(readable_range(before, k.start as int, k.end()));
                }
            }
        }
    }

    /// The rows behind a list.
    pub fn rows(&self, list: ListData) -> (r: &[Row])
        requires
            within(list.rows.0, self.rows@.len()),
            list.rows.0.end() <= u32::MAX,
        ensures
            r@ == self.rows@.subrange(list.rows.0.start as int, list.rows.0.end()),
    {
        list.rows.0.slice(self.rows.as_slice())
    }

    /// The bindings of a row.
    pub fn bindings(&self, row: Row) -> (r: &[Binding])
        requires
            within(row.bindings.0, self.bindings@.len()),
            row.bindings.0.end() <= u32::MAX,
        ensures
            r@ == self.bindings@.subrange(row.bindings.0.start as int, row.bindings.0.end()),
    {
        row.bindings.0.slice(self.bindings.as_slice())
    }
}

impl Default for Row {
    /// The zero row: no bindings, so only globals resolve.
    fn default() -> (r: Row)
        ensures
            r.bindings.0.start == 0 && r.bindings.0.len == 0,
    {
        Row { bindings: BindingRange(Span { start: 0, len: 0 }) }
    }
}

impl Default for UiData {
    fn default() -> (d: UiData)
        ensures
            d.well_formed(),
            d.is_empty_data(),
    {
        UiData::new()
    }
}


/// What a bind appends reads back: over the buffer as it stood plus the
/// key and the value, the new binding's key span reads exactly the key and
/// its value span exactly the value.
pub proof fn lemma_bind_reads_back(before: Seq<u8>, key: Seq<u8>, value: Seq<u8>)
    requires
        before.len() + key.len() + value.len() <= u32::MAX,
    ensures
        text_of(before + key + value, Span { start: before.len() as u32, len: key.len() as u32 }) == key,
        text_of(before + key + value, Span { start: (before.len() + key.len()) as u32, len: value.len() as u32 }) == value,
{
    assert(text_of(before + key + value, Span { start: before.len() as u32, len: key.len() as u32 }) =~= key);
    assert(text_of(before + key + value, Span { start: (before.len() + key.len()) as u32, len: value.len() as u32 }) =~= value);
}


/// One step of filling a [`UiData`], with its texts as bytes.
pub enum UiOp {
    /// `bind_global(key, value)`.
    Global(Seq<u8>, Seq<u8>),
    /// `begin_list(id)`.
    List(Seq<u8>),
    /// `begin_row()`.
    Row,
    /// `bind(key, value)`.
    Bind(Seq<u8>, Seq<u8>),
}

/// A [`UiData`] as plain data.
pub struct UiModel {
    pub bytes: Seq<u8>,
    pub lists: Seq<ListData>,
    pub rows: Seq<Row>,
    pub bindings: Seq<Binding>,
    pub globals: Seq<Binding>,
    pub images: Seq<ImageData>,
}

pub open spec fn model(d: &UiData) -> UiModel {
    UiModel {
        bytes: string_bytes(&d.strings),
        lists: d.lists@,
        rows: d.rows@,
        bindings: d.bindings@,
        globals: d.globals@,
        images: d.images@,
    }
}

/// The binding a `key`/`value` pair lands as, appended after `bytes`.
pub open spec fn binding_at(bytes: Seq<u8>, key: Seq<u8>, value: Seq<u8>) -> Binding {
    Binding {
        key: DataStr(Span { start: bytes.len() as u32, len: key.len() as u32 }),
        value: DataStr(Span { start: (bytes.len() + key.len()) as u32, len: value.len() as u32 }),
    }
}

/// What one fill step makes of the data.
pub open spec fn after_op(m: UiModel, op: UiOp) -> UiModel {
    match op {
        UiOp::Global(k, v) => UiModel { bytes: m.bytes + k + v, globals: m.globals.push(binding_at(m.bytes, k, v)), ..m },
        UiOp::List(id) => UiModel {
            bytes: m.bytes + id,
            lists: m.lists.push(
                ListData {
                    id: DataStr(Span { start: m.bytes.len() as u32, len: id.len() as u32 }),
                    rows: RowRange(Span { start: m.rows.len() as u32, len: 0 }),
                },
            ),
            ..m
        },
        UiOp::Row => UiModel {
            rows: m.rows.push(Row { bindings: BindingRange(Span { start: m.bindings.len() as u32, len: 0 }) }),
            lists: if m.lists.len() == 0 {
                m.lists
            } else {
                m.lists.update(
                    m.lists.len() - 1,
                    ListData {
                        id: m.lists.last().id,
                        rows: RowRange(Span { start: m.lists.last().rows.0.start, len: (m.lists.last().rows.0.len + 1) as u32 }),
                    },
                )
            },
            ..m
        },
        UiOp::Bind(k, v) => UiModel {
            bytes: m.bytes + k + v,
            bindings: m.bindings.push(binding_at(m.bytes, k, v)),
            rows: if m.rows.len() == 0 {
                m.rows
            } else {
                m.rows.update(
                    m.rows.len() - 1,
                    Row {
                        bindings: BindingRange(
                            Span { start: m.rows.last().bindings.0.start, len: (m.rows.last().bindings.0.len + 1) as u32 },
                        ),
                    },
                )
            },
            ..m
        },
    }
}

/// What a run of fill steps makes of the data, in order.
pub open spec fn after_ops(m: UiModel, ops: Seq<UiOp>) -> UiModel
    decreases ops.len(),
{
    if ops.len() == 0 {
        m
    } else {
        after_op(after_ops(m, ops.drop_last()), ops.last())
    }
}

/// Bytes, rows and bindings a run of fill steps adds.
pub open spec fn ops_bytes(ops: Seq<UiOp>) -> int
    decreases ops.len(),
{
    if ops.len() == 0 {
        0
    } else {
        ops_bytes(ops.drop_last()) + match ops.last() {
            UiOp::Global(k, v) => (k.len() + v.len()) as int,
            UiOp::List(id) => id.len() as int,
            UiOp::Row => 0int,
            UiOp::Bind(k, v) => (k.len() + v.len()) as int,
        }
    }
}

pub open spec fn ops_rows(ops: Seq<UiOp>) -> int
    decreases ops.len(),
{
    if ops.len() == 0 {
        0
    } else {
        ops_rows(ops.drop_last()) + if ops.last() is Row { 1int } else { 0int }
    }
}

pub open spec fn ops_bindings(ops: Seq<UiOp>) -> int
    decreases ops.len(),
{
    if ops.len() == 0 {
        0
    } else {
        ops_bindings(ops.drop_last()) + if ops.last() is Bind { 1int } else { 0int }
    }
}

/// Room for `ops` in 32-bit spans.
pub open spec fn has_room(d: &UiData, ops: Seq<UiOp>) -> bool {
    &&& string_bytes(&d.strings).len() + ops_bytes(ops) <= u32::MAX
    &&& d.rows@.len() + ops_rows(ops) < u32::MAX
    &&& d.bindings@.len() + ops_bindings(ops) < u32::MAX
}

/// Running `a` then `b` is running `a + b`.
pub proof fn lemma_after_ops_concat(m: UiModel, a: Seq<UiOp>, b: Seq<UiOp>)
    ensures
        after_ops(m, a + b) == after_ops(after_ops(m, a), b),
        ops_bytes(a + b) == ops_bytes(a) + ops_bytes(b),
        ops_rows(a + b) == ops_rows(a) + ops_rows(b),
        ops_bindings(a + b) == ops_bindings(a) + ops_bindings(b),
    decreases b.len(),
{
    if b.len() == 0 {
        assert(a + b =~= a);
    } else {
        lemma_after_ops_concat(m, a, b.drop_last());
        assert((a + b).drop_last() =~= a + b.drop_last());
        assert((a + b).last() == b.last());
    }
}

/// Filling step by step: the data after one more step.
pub proof fn lemma_after_ops_push(m: UiModel, a: Seq<UiOp>, op: UiOp)
    ensures
        after_ops(m, a.push(op)) == after_op(after_ops(m, a), op),
{
    assert(a.push(op).drop_last() =~= a);
}



/// A string with its `$VAR` references found at compile time, so per-frame
/// interpolation never rescans: a range into [`UiModule::segs`]. The zero
/// value is no text.
#[derive(Clone, Copy, PartialEq, Eq, Debug)]
pub struct Text {
    pub segs: SegRange,
}

impl Text {
    pub fn is_empty(&self) -> (b: bool)
        ensures
            b == (self.segs.0.len == 0),
    {
        self.segs.is_empty()
    }
}

impl Default for Text {
    fn default() -> (t: Text)
        ensures
            t.segs.0.start == 0 && t.segs.0.len == 0,
    {
        Text { segs: SegRange(Span { start: 0, len: 0 }) }
    }
}

/// The texts of a compiled UI script: every string in one buffer, every
/// tokenized text a run of segments. The script's node tree, whose sizes
/// and colors are floating point, is built and walked by the harness.
#[derive(Clone, Debug)]
pub struct UiModule {
    pub strings: String,
    pub segs: Vec<Seg>,
}

/// A name byte: ASCII letter, digit or `_`.
pub open spec fn is_name_byte(c: u8) -> bool {
    (48 <= c <= 57) || (65 <= c <= 90) || (97 <= c <= 122) || c == 95
}

/// Where the run of name bytes from `i` ends.
pub open spec fn name_end(b: Seq<u8>, i: int) -> int
    decreases b.len() - i,
{
    if 0 <= i < b.len() && is_name_byte(b[i]) {
        name_end(b, i + 1)
    } else {
        i
    }
}

/// A name run stays inside the bytes and holds only name bytes.
pub proof fn lemma_name_end(b: Seq<u8>, i: int)
    requires
        0 <= i <= b.len(),
    ensures
        i <= name_end(b, i) <= b.len(),
        forall|k: int| i <= k < name_end(b, i) ==> is_name_byte(#[trigger] b[k]),
        name_end(b, i) < b.len() ==> !is_name_byte(b[name_end(b, i)]),
    decreases b.len() - i,
{
    if i < b.len() && is_name_byte(b[i]) {
        lemma_name_end(b, i + 1);
    }
}

/// The pieces of `b` from `pos` on, with the literal run since `lit` still
/// open: a literal piece has an empty name; a `$NAME` piece keeps its
/// spelling as its literal. A `$` with no name after it is literal text.
pub open spec fn pieces(b: Seq<u8>, lit: int, pos: int) -> Seq<(Seq<u8>, Seq<u8>)>
    decreases b.len() - pos,
{
    if pos >= b.len() {
        if lit < b.len() {
            seq![(b.subrange(lit, b.len() as int), Seq::<u8>::empty())]
        } else {
            Seq::empty()
        }
    } else if pos >= 0 && b[pos] == 36 && name_end(b, pos + 1) > pos + 1 {
        proof {
            lemma_name_end(b, pos + 1);
        }
        let e = name_end(b, pos + 1);
        let head = if lit < pos {
            seq![(b.subrange(lit, pos), Seq::<u8>::empty())]
        } else {
            Seq::empty()
        };
        head + seq![(b.subrange(pos, e), b.subrange(pos + 1, e))] + pieces(b, e, e)
    } else {
        pieces(b, lit, pos + 1)
    }
}

/// A source string cut into literal runs and `$NAME` references.
pub open spec fn tokens(b: Seq<u8>) -> Seq<(Seq<u8>, Seq<u8>)> {
    pieces(b, 0, 0)
}

/// The literals of some pieces, joined.
pub open spec fn literals(p: Seq<(Seq<u8>, Seq<u8>)>) -> Seq<u8>
    decreases p.len(),
{
    if p.len() == 0 {
        Seq::empty()
    } else {
        p[0].0 + literals(p.drop_first())
    }
}

/// Joining distributes over concatenation.
pub proof fn lemma_literals_concat(a: Seq<(Seq<u8>, Seq<u8>)>, b: Seq<(Seq<u8>, Seq<u8>)>)
    ensures
        literals(a + b) == literals(a) + literals(b),
    decreases a.len(),
{
    if a.len() == 0 {
        assert(a + b =~= b);
        assert(literals(a) + literals(b) =~= literals(b));
    } else {
        lemma_literals_concat(a.drop_first(), b);
        assert((a + b).drop_first() =~= a.drop_first() + b);
        assert(literals(a + b) =~= a[0].0 + literals(a.drop_first()) + literals(b));
    }
}

/// One piece joins to its literal.
pub proof fn lemma_literals_single(x: (Seq<u8>, Seq<u8>))
    ensures
        literals(seq![x]) == x.0,
{
    reveal_with_fuel(literals, 2);
    assert(seq![x].drop_first() =~= Seq::<(Seq<u8>, Seq<u8>)>::empty());
    assert(literals(seq![x]) =~= x.0);
}

proof fn lemma_pieces_keep_text(b: Seq<u8>, lit: int, pos: int)
    requires
        0 <= lit <= pos <= b.len(),
    ensures
        literals(pieces(b, lit, pos)) == b.subrange(lit, b.len() as int),
    decreases b.len() - pos,
{
    if pos >= b.len() {
        if lit < b.len() {
            lemma_literals_single((b.subrange(lit, b.len() as int), Seq::<u8>::empty()));
        } else {
            assert(b.subrange(lit, b.len() as int) =~= Seq::<u8>::empty());
        }
    } else if b[pos] == 36 && name_end(b, pos + 1) > pos + 1 {
        lemma_name_end(b, pos + 1);
        let e = name_end(b, pos + 1);
        let head: Seq<(Seq<u8>, Seq<u8>)> = if lit < pos {
            seq![(b.subrange(lit, pos), Seq::<u8>::empty())]
        } else {
            Seq::empty()
        };
        let var = seq![(b.subrange(pos, e), b.subrange(pos + 1, e))];
        lemma_pieces_keep_text(b, e, e);
        lemma_literals_concat(head + var, pieces(b, e, e));
        lemma_literals_concat(head, var);
        lemma_literals_single((b.subrange(pos, e), b.subrange(pos + 1, e)));
        if lit < pos {
            lemma_literals_single((b.subrange(lit, pos), Seq::<u8>::empty()));
        } else {
            assert(literals(head) =~= b.subrange(lit, pos));
        }
        assert(b.subrange(lit, pos) + b.subrange(pos, e) + b.subrange(e, b.len() as int) =~= b.subrange(
            lit,
            b.len() as int,
        ));
    } else {
        lemma_pieces_keep_text(b, lit, pos + 1);
    }
}

/// Tokenizing loses nothing: the pieces' literals, joined, spell the
/// source again.
pub proof fn lemma_tokens_keep_text(b: Seq<u8>)
    ensures
        literals(tokens(b)) == b,
{
    lemma_pieces_keep_text(b, 0, 0);
    assert(b.subrange(0, b.len() as int) =~= b);
}

/// An ASCII byte starts a character, and so does whatever follows it.
proof fn lemma_ascii_boundaries(b: Seq<u8>, i: int)
    requires
        valid_utf8(b),
        0 <= i < b.len(),
        b[i] < 0x80,
    ensures
        is_char_boundary(b, i),
        is_char_boundary(b, i + 1),
{
    is_char_boundary_iff_not_is_continuation_byte(b, i);
    valid_utf8_split(b, i);
    let s = b.subrange(i, b.len() as int);
    assert(s[0] == b[i]);
    assert(pop_first_scalar(s) =~= b.subrange(i + 1, b.len() as int));
    if i + 1 < b.len() {
        let t = b.subrange(i + 1, b.len() as int);
        is_char_boundary_start_end_of_seq(t);
        is_char_boundary_iff_not_is_continuation_byte(t, 0);
        assert(t[0] == b[i + 1]);
        is_char_boundary_iff_not_is_continuation_byte(b, i + 1);
    } else {
        is_char_boundary_start_end_of_seq(b);
    }
}

impl UiModule {
    /// The whole string buffer, as bytes.
    pub open spec fn bytes(&self) -> Seq<u8> {
        string_bytes(&self.strings)
    }

    /// Segment `i` as its literal and its variable name.
    pub open spec fn piece(&self, i: int) -> (Seq<u8>, Seq<u8>) {
        (text_of(self.bytes(), self.segs@[i].literal.0), text_of(self.bytes(), self.segs@[i].var.0))
    }

    /// Every segment, as text.
    pub open spec fn pieces_view(&self) -> Seq<(Seq<u8>, Seq<u8>)> {
        Seq::new(self.segs@.len(), |i: int| self.piece(i))
    }

    /// The segments `text` covers, as text.
    pub open spec fn text_pieces(&self, text: Text) -> Seq<(Seq<u8>, Seq<u8>)> {
        self.pieces_view().subrange(text.segs.0.start as int, text.segs.0.end())
    }

    /// Every segment reads text out of the buffer, and both fit 32 bits.
    pub open spec fn well_formed(&self) -> bool {
        &&& self.bytes().len() <= u32::MAX
        &&& self.segs@.len() <= u32::MAX
        &&& forall|i: int|
            0 <= i < self.segs@.len() ==> readable(self.bytes(), #[trigger] self.segs@[i].literal.0) && readable(
                self.bytes(),
                self.segs@[i].var.0,
            )
    }

    /// A module with no texts.
    pub fn new() -> (m: UiModule)
        ensures
            m.well_formed(),
            m.bytes().len() == 0,
            m.segs@.len() == 0,
    {
        let m = UiModule { strings: String::new(), segs: Vec::new() };
        assert(m.bytes() =~= Seq::<u8>::empty());
        m
    }

    /// The text a span reads.
    pub fn str(&self, span: ModuleStr) -> (r: &str)
        requires
            self.well_formed(),
            readable(self.bytes(), span.0),
        ensures
            r.spec_bytes() == text_of(self.bytes(), span.0),
    {
        span.0.str(self.strings.as_str())
    }

    /// The segments of a text.
    pub fn segs(&self, text: Text) -> (r: &[Seg])
        requires
            self.well_formed(),
            within(text.segs.0, self.segs@.len()),
        ensures
            r@ == self.segs@.subrange(text.segs.0.start as int, text.segs.0.end()),
    {
        text.segs.0.slice(self.segs.as_slice())
    }

    /// Appends one segment whose literal is `literal` and whose name is
    /// `name`, or none when `name` is `None`.
    fn push_seg(&mut self, literal: &str, name: Option<&str>)
        requires
            old(self).well_formed(),
            old(self).segs@.len() < u32::MAX,
            old(self).bytes().len() + literal.spec_bytes().len() + (match name {
                Some(n) => n.spec_bytes().len() as int,
                None => 0int,
            }) <= u32::MAX,
        ensures
            final(self).well_formed(),
            final(self).segs@.len() == old(self).segs@.len() + 1,
            final(self).pieces_view() == old(self).pieces_view().push(
                (
                    literal.spec_bytes(),
                    match name {
                        Some(n) => n.spec_bytes(),
                        None => Seq::<u8>::empty(),
                    },
                ),
            ),
            final(self).bytes().len() == old(self).bytes().len() + literal.spec_bytes().len() + (match name {
                Some(n) => n.spec_bytes().len() as int,
                None => 0int,
            }),
    {
        let ghost before = self.bytes();
        let ghost old_view = self.pieces_view();
        let l = Span::push_str(&mut self.strings, literal);
        let ghost middle = self.bytes();
        let v = match name {
            Some(n) => Span::push_str(&mut self.strings, n),
            None => Span { start: 0, len: 0 },
        };
        proof {
            let bytes = self.bytes();
            lemma_encoded_valid_text(&self.strings);
            assert(readable_range(middle, l.start as int, l.end()));
            assert(readable(bytes, l));
            assert(text_of(bytes, l) == literal.spec_bytes());
            if name is None {
                assert(bytes == middle);
                assert(text_of(bytes, v) =~= Seq::<u8>::empty());
            }
            assert forall|i: int| 0 <= i < self.segs@.len() implies readable(bytes, #[trigger] self.segs@[i].literal.0)
                && readable(bytes, self.segs@[i].var.0) && text_of(bytes, self.segs@[i].literal.0) == text_of(
                before,
                self.segs@[i].literal.0,
            ) && text_of(bytes, self.segs@[i].var.0) == text_of(before, self.segs@[i].var.0) by {
                let a = self.segs@[i].literal.0;
                let c = self.segs@[i].var.0;
                assert(readable_range(before, a.start as int, a.end()));
                assert(readable_range(middle, a.start as int, a.end()));
                assert(readable_range(before, c.start as int, c.end()));
                assert(readable_range(middle, c.start as int, c.end()));
            }
        }
        self.segs.push(Seg { literal: ModuleStr(l), var: ModuleStr(v) });
        proof {
            let bytes = self.bytes();
            assert forall|i: int| 0 <= i < old_view.len() implies #[trigger] self.piece(i) == old_view[i] by {
                assert(self.segs@[i] == old(self).segs@[i]);
            }
            assert(self.pieces_view() =~= old_view.push(self.piece(old_view.len() as int)));
        }
    }
}

/// The bytes of an owned string are valid UTF-8 with boundaries at both ends.
proof fn lemma_encoded_valid_text(s: &String)
    ensures
        valid_utf8(string_bytes(s)),
        is_char_boundary(string_bytes(s), 0),
        is_char_boundary(string_bytes(s), string_bytes(s).len() as int),
{
    crate::util::text::lemma_encoded_valid(s@);
}


impl UiModule {
    /// Tokenizes a source string into literal runs and `$NAME` references,
    /// copying every piece into the module's buffer: the new segments are
    /// contiguous, right after the old ones, and spell [`tokens`] of the
    /// source. An empty source is no text.
    #[verifier::rlimit(40)]
    pub fn text(&mut self, source: &str) -> (t: Text)
        requires
            old(self).well_formed(),
            old(self).bytes().len() + 2 * source.spec_bytes().len() <= u32::MAX,
            old(self).segs@.len() + source.spec_bytes().len() < u32::MAX,
        ensures
            final(self).well_formed(),
            final(self).pieces_view() == old(self).pieces_view() + tokens(source.spec_bytes()),
            source.spec_bytes().len() == 0 ==> t.segs.0.start == 0 && t.segs.0.len == 0,
            source.spec_bytes().len() > 0 ==> t.segs.0.start == old(self).segs@.len(),
            t.segs.0.len == tokens(source.spec_bytes()).len(),
            within(t.segs.0, final(self).segs@.len()),
            final(self).text_pieces(t) == tokens(source.spec_bytes()),
    {
        let ghost b = source.spec_bytes();
        let ghost old_view = self.pieces_view();
        let ghost old_len = self.bytes().len();
        let bytes = source.as_bytes();
        let n = bytes.len();
        if n == 0 {
            proof {
                assert(tokens(b) =~= Seq::<(Seq<u8>, Seq<u8>)>::empty());
                assert(self.pieces_view() + tokens(b) =~= self.pieces_view());
                assert(self.text_pieces(Text { segs: SegRange(Span { start: 0, len: 0 }) }) =~= Seq::<(Seq<u8>, Seq<u8>)>::empty());
            }
            return Text { segs: SegRange(Span { start: 0, len: 0 }) };
        }
        let start = self.segs.len() as u32;
        proof {
            crate::util::text::lemma_encoded_valid(source@);
        }
        let mut pos: usize = 0;
        let mut lit: usize = 0;
        let ghost mut done: Seq<(Seq<u8>, Seq<u8>)> = Seq::empty();
        while pos < n
            invariant
                bytes@ == b,
                n == b.len(),
                b == source.spec_bytes(),
                valid_utf8(b),
                self.well_formed(),
                0 <= lit <= pos <= n,
                is_char_boundary(b, lit as int),
                start == old_view.len(),
                self.pieces_view() == old_view + done,
                done + pieces(b, lit as int, pos as int) == tokens(b),
                self.bytes().len() <= old_len + 2 * lit,
                self.segs@.len() <= old_view.len() + lit,
                old_len + 2 * n <= u32::MAX,
                old_view.len() + n < u32::MAX,
            decreases n - pos,
        {
            let mut advanced = false;
            if bytes[pos] == 36 {
                let name_start = pos + 1;
                let mut e = name_start;
                proof {
                    lemma_name_end(b, name_start as int);
                }
                while e < n && (48 <= bytes[e] && bytes[e] <= 57 || 65 <= bytes[e] && bytes[e] <= 90 || 97 <= bytes[e]
                    && bytes[e] <= 122 || bytes[e] == 95)
                    invariant
                        bytes@ == b,
                        n == b.len(),
                        name_start <= e <= n,
                        name_end(b, name_start as int) == name_end(b, e as int),
                    decreases n - e,
                {
                    e = e + 1;
                }
                if e > name_start {
                    proof {
                        lemma_name_end(b, name_start as int);
                        assert(e as int == name_end(b, name_start as int));
                        lemma_ascii_boundaries(b, pos as int);
                        assert(is_name_byte(b[e - 1]));
                        lemma_ascii_boundaries(b, e - 1);
                        is_char_boundary_start_end_of_seq(b);
                    }
                    let ghost head: Seq<(Seq<u8>, Seq<u8>)> = if lit < pos {
                        seq![(b.subrange(lit as int, pos as int), Seq::<u8>::empty())]
                    } else {
                        Seq::empty()
                    };
                    if lit < pos {
                        let piece = substr(source, lit, pos);
                        self.push_seg(piece, None);
                    }
                    let spelled = substr(source, pos, e);
                    let name = substr(source, name_start, e);
                    self.push_seg(spelled, Some(name));
                    proof {
                        let var = seq![(b.subrange(pos as int, e as int), b.subrange(name_start as int, e as int))];
                        assert(pieces(b, lit as int, pos as int) == head + var + pieces(b, e as int, e as int));
                        assert(done + pieces(b, lit as int, pos as int) =~= (done + head + var) + pieces(
                            b,
                            e as int,
                            e as int,
                        ));
                        done = done + head + var;
                        assert(self.pieces_view() =~= old_view + done);
                    }
                    pos = e;
                    lit = e;
                    advanced = true;
                }
            }
            if !advanced {
                proof {
                    assert(pieces(b, lit as int, pos as int) == pieces(b, lit as int, pos + 1));
                }
                pos = pos + 1;
            }
        }
        if lit < n {
            proof {
                is_char_boundary_start_end_of_seq(b);
            }
            let piece = substr(source, lit, n);
            self.push_seg(piece, None);
            proof {
                done = done.push((b.subrange(lit as int, n as int), Seq::<u8>::empty()));
            }
        }
        proof {
            assert(done =~= tokens(b)) by {
                if lit < n {
                } else {
                    assert(pieces(b, lit as int, n as int) =~= Seq::<(Seq<u8>, Seq<u8>)>::empty());
                }
            }
            assert(self.pieces_view() =~= old_view + tokens(b));
        }
        let t = Text { segs: SegRange(Span { start, len: (self.segs.len() as u32) - start }) };
        proof {
            assert(self.text_pieces(t) =~= tokens(b));
        }
        t
    }
}

} // verus!
