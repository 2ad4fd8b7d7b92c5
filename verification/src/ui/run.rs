//! The per-frame half of the binding language: `$NAME` references in a
//! compiled text are looked up in the current template row, then in the
//! globals, and the text is interpolated. A missing binding keeps its
//! `$NAME` spelling, so mistakes show on screen.

use vstd::prelude::*;
use vstd::string::StringSliceAdditionalSpecFns;
use vstd::utf8::*;
use crate::ui::ir::{
    lemma_literals_concat, lemma_literals_single, lemma_tokens_keep_text, literals, readable, text_of, tokens,
    within, Binding, Row, Text, UiData, UiModule,
};
use crate::util::text::{append_text, same_text, string_bytes};

verus! {

/// The bindings a row sees, nearest first: its own, then the globals.
pub open spec fn scope(d: &UiData, row: Row) -> Seq<Binding> {
    d.bindings@.subrange(row.bindings.0.start as int, row.bindings.0.end()) + d.globals@
}

/// The value of the first binding in `s` keyed `var`, if any.
pub open spec fn first_match(bytes: Seq<u8>, s: Seq<Binding>, var: Seq<u8>) -> Option<Seq<u8>>
    decreases s.len(),
{
    if s.len() == 0 {
        None
    } else if text_of(bytes, s[0].key.0) == var {
        Some(text_of(bytes, s[0].value.0))
    } else {
        first_match(bytes, s.drop_first(), var)
    }
}

/// What one piece reads as: a bound `$NAME` its value, anything else its
/// literal.
pub open spec fn piece_text(bytes: Seq<u8>, s: Seq<Binding>, p: (Seq<u8>, Seq<u8>)) -> Seq<u8> {
    if p.1.len() > 0 && first_match(bytes, s, p.1) is Some {
        first_match(bytes, s, p.1)->0
    } else {
        p.0
    }
}

/// Some pieces read against the bindings `s`, joined.
pub open spec fn interpolate(bytes: Seq<u8>, s: Seq<Binding>, p: Seq<(Seq<u8>, Seq<u8>)>) -> Seq<u8>
    decreases p.len(),
{
    if p.len() == 0 {
        Seq::empty()
    } else {
        interpolate(bytes, s, p.drop_last()) + piece_text(bytes, s, p.last())
    }
}

/// Searching two lists in turn: the first one's match wins, and only where
/// it has none does the second one answer. A row's binding shadows a global
/// of the same key.
pub proof fn lemma_row_shadows_global(bytes: Seq<u8>, near: Seq<Binding>, far: Seq<Binding>, var: Seq<u8>)
    ensures
        first_match(bytes, near + far, var) == (if first_match(bytes, near, var) is Some {
            first_match(bytes, near, var)
        } else {
            first_match(bytes, far, var)
        }),
    decreases near.len(),
{
    if near.len() == 0 {
        assert(near + far =~= far);
    } else {
        assert((near + far)[0] == near[0]);
        assert((near + far).drop_first() =~= near.drop_first() + far);
        lemma_row_shadows_global(bytes, near.drop_first(), far, var);
    }
}

/// With nothing bound, every piece reads as its literal.
proof fn lemma_unbound_reads_literals(bytes: Seq<u8>, p: Seq<(Seq<u8>, Seq<u8>)>)
    ensures
        interpolate(bytes, Seq::empty(), p) == literals(p),
    decreases p.len(),
{
    if p.len() > 0 {
        lemma_unbound_reads_literals(bytes, p.drop_last());
        lemma_literals_concat(p.drop_last(), seq![p.last()]);
        lemma_literals_single(p.last());
        assert(p.drop_last() + seq![p.last()] =~= p);
    } else {
        assert(literals(p) =~= Seq::<u8>::empty());
    }
}

/// With nothing bound, a tokenized text reads back as its source: every
/// `$NAME` keeps its spelling.
pub proof fn lemma_nothing_bound_reads_source(bytes: Seq<u8>, source: Seq<u8>)
    ensures
        interpolate(bytes, Seq::empty(), tokens(source)) == source,
{
    lemma_unbound_reads_literals(bytes, tokens(source));
    lemma_tokens_keep_text(source);
}

/// Two texts are the same characters exactly when they are the same bytes.
proof fn lemma_same_bytes(a: &str, b: &str)
    ensures
        (a@ == b@) == (a.spec_bytes() == b.spec_bytes()),
{
    encode_utf8_decode_utf8(a@);
    encode_utf8_decode_utf8(b@);
}

/// The first binding in `list` keyed `var`.
fn find<'a>(d: &'a UiData, list: &[Binding], var: &str) -> (r: Option<&'a str>)
    requires
        d.well_formed(),
        forall|i: int|
            0 <= i < list@.len() ==> readable(string_bytes(&d.strings), #[trigger] list@[i].key.0) && readable(
                string_bytes(&d.strings),
                list@[i].value.0,
            ),
    ensures
        match r {
            Some(v) => first_match(string_bytes(&d.strings), list@, var.spec_bytes()) == Some(v.spec_bytes()),
            None => first_match(string_bytes(&d.strings), list@, var.spec_bytes()) is None,
        },
{
    let ghost bytes = string_bytes(&d.strings);
    let mut i: usize = 0;
    proof {
        assert(list@.subrange(0, list@.len() as int) =~= list@);
    }
    while i < list.len()
        invariant
            d.well_formed(),
            bytes == string_bytes(&d.strings),
            i <= list@.len(),
            forall|k: int|
                0 <= k < list@.len() ==> readable(bytes, #[trigger] list@[k].key.0) && readable(bytes, list@[k].value.0),
            first_match(bytes, list@, var.spec_bytes()) == first_match(
                bytes,
                list@.subrange(i as int, list@.len() as int),
                var.spec_bytes(),
            ),
        decreases list@.len() - i,
    {
        let binding = list[i];
        let key = d.text(binding.key);
        proof {
            lemma_same_bytes(key, var);
        }
        let ghost rest = list@.subrange(i as int, list@.len() as int);
        if same_text(key, var) {
            proof {
                assert(rest[0] == binding);
            }
            return Some(d.text(binding.value));
        }
        proof {
            assert(rest[0] == binding);
            assert(rest.drop_first() =~= list@.subrange(i + 1, list@.len() as int));
        }
        i = i + 1;
    }
    None
}

/// Looks `var` up in the row's bindings, then in the globals; a row
/// binding shadows a global of the same key.
pub fn lookup<'a>(d: &'a UiData, row: Row, var: &str) -> (r: Option<&'a str>)
    requires
        d.well_formed(),
        within(row.bindings.0, d.bindings@.len()),
    ensures
        match r {
            Some(v) => first_match(string_bytes(&d.strings), scope(d, row), var.spec_bytes()) == Some(v.spec_bytes()),
            None => first_match(string_bytes(&d.strings), scope(d, row), var.spec_bytes()) is None,
        },
{
    let ghost bytes = string_bytes(&d.strings);
    let near = row.bindings.0.slice(d.bindings.as_slice());
    proof {
        lemma_row_shadows_global(bytes, near@, d.globals@, var.spec_bytes());
        assert forall|i: int| 0 <= i < near@.len() implies readable(bytes, #[trigger] near@[i].key.0) && readable(
            bytes,
            near@[i].value.0,
        ) by {
            assert(near@[i] == d.bindings@[row.bindings.0.start + i]);
        }
    }
    let far = d.globals.as_slice();
    proof {
        assert forall|i: int| 0 <= i < far@.len() implies readable(bytes, #[trigger] far@[i].key.0) && readable(
            bytes,
            far@[i].value.0,
        ) by {
            assert(far@[i] == d.globals@[i]);
        }
    }
    match find(d, near, var) {
        Some(v) => Some(v),
        None => find(d, far, var),
    }
}

/// Interpolates a compiled text against the row and the globals.
pub fn resolve(module: &UiModule, d: &UiData, row: Row, text: Text) -> (r: String)
    requires
        module.well_formed(),
        d.well_formed(),
        within(text.segs.0, module.segs@.len()),
        within(row.bindings.0, d.bindings@.len()),
    ensures
        string_bytes(&r) == interpolate(string_bytes(&d.strings), scope(d, row), module.text_pieces(text)),
{
    let ghost bytes = string_bytes(&d.strings);
    let ghost s = scope(d, row);
    let ghost p = module.text_pieces(text);
    let segs = module.segs(text);
    let mut out = String::new();
    let mut i: usize = 0;
    proof {
        assert(string_bytes(&out) =~= Seq::<u8>::empty());
        assert(p.subrange(0, 0) =~= Seq::<(Seq<u8>, Seq<u8>)>::empty());
    }
    while i < segs.len()
        invariant
            module.well_formed(),
            d.well_formed(),
            within(text.segs.0, module.segs@.len()),
            within(row.bindings.0, d.bindings@.len()),
            bytes == string_bytes(&d.strings),
            s == scope(d, row),
            p == module.text_pieces(text),
            segs@ == module.segs@.subrange(text.segs.0.start as int, text.segs.0.end()),
            i <= segs@.len(),
            string_bytes(&out) == interpolate(bytes, s, p.subrange(0, i as int)),
        decreases segs@.len() - i,
    {
        let seg = segs[i];
        proof {
            assert(seg == module.segs@[text.segs.0.start + i]);
            assert(p[i as int] == module.piece(text.segs.0.start + i));
            assert(p.subrange(0, i + 1).drop_last() =~= p.subrange(0, i as int));
            assert(p.subrange(0, i + 1).last() == p[i as int]);
        }
        let var = module.str(seg.var);
        let literal = module.str(seg.literal);
        if var.len() > 0 {
            match lookup(d, row, var) {
                Some(value) => append_text(&mut out, value),
                None => append_text(&mut out, literal),
            }
        } else {
            append_text(&mut out, literal);
        }
        i = i + 1;
    }
    proof {
        assert(p.subrange(0, segs@.len() as int) =~= p);
    }
    out
}

/// A `visible` condition: unset, or interpolating to `yes`.
pub fn visible(module: &UiModule, d: &UiData, row: Row, condition: Text) -> (b: bool)
    requires
        module.well_formed(),
        d.well_formed(),
        within(condition.segs.0, module.segs@.len()),
        within(row.bindings.0, d.bindings@.len()),
    ensures
        b == ({
            let t = interpolate(string_bytes(&d.strings), scope(d, row), module.text_pieces(condition));
            t.len() == 0 || t == seq![121u8, 101u8, 115u8]
        }),
{
    let r = resolve(module, d, row, condition);
    let bytes = r.as_str().as_bytes();
    if bytes.len() == 0 {
        return true;
    }
    let yes = bytes.len() == 3 && bytes[0] == 121 && bytes[1] == 101 && bytes[2] == 115;
    proof {
        if yes {
            assert(bytes@ =~= seq![121u8, 101u8, 115u8]);
        }
    }
    yes
}

} // verus!
