//! Layout vocabulary shared with the renderer: stable element ids and the
//! plain enums a layout is described with.

use vstd::prelude::*;
use vstd::string::StringSliceAdditionalSpecFns;

verus! {

/// Opaque handle to a renderer-owned font.
#[derive(Clone, Copy, PartialEq, Eq, PartialOrd, Ord, Hash, Debug)]
pub struct FontId(pub u64);

/// Opaque handle to a renderer-owned texture; `0` means no image.
#[derive(Clone, Copy, PartialEq, Eq, PartialOrd, Ord, Hash, Debug)]
pub struct ImageId(pub u64);

impl Default for FontId {
    fn default() -> (f: FontId)
        ensures
            f.0 == 0,
    {
        FontId(0)
    }
}

impl Default for ImageId {
    fn default() -> (i: ImageId)
        ensures
            i.0 == 0,
    {
        ImageId(0)
    }
}

/// FNV-1a's starting value.
pub const FNV_OFFSET: u64 = 0xcbf2_9ce4_8422_2325u64;

/// FNV-1a's multiplier.
pub const FNV_PRIME: u64 = 0x100_0000_01b3u64;

/// The multiplier that spreads a parent id before a child index is added.
pub const CHILD_SPREAD: u64 = 0x9e37_79b1_85eb_ca87u64;

/// 64-bit FNV-1a over `bytes`.
pub open spec fn fnv1a(bytes: Seq<u8>) -> u64
    decreases bytes.len(),
{
    if bytes.len() == 0 {
        FNV_OFFSET
    } else {
        (((fnv1a(bytes.drop_last()) ^ (bytes.last() as u64)) as nat * FNV_PRIME as nat) % 0x1_0000_0000_0000_0000nat) as u64
    }
}

/// `h`, or 1 in place of 0 (zero is the "no id" value).
pub open spec fn nonzero(h: u64) -> u64 {
    if h == 0 {
        1
    } else {
        h
    }
}

/// The id of a child `index` under `parent`.
pub open spec fn child_hash(parent: u64, index: u32) -> u64 {
    nonzero((((parent as nat * CHILD_SPREAD as nat) % 0x1_0000_0000_0000_0000nat + index as nat + 1)
        % 0x1_0000_0000_0000_0000nat) as u64)
}

/// A stable element identity, hashed from a name (and an index for
/// elements declared in loops). Zero is "no id".
#[derive(Clone, Copy, PartialEq, Eq, PartialOrd, Ord, Debug)]
pub struct ElementId(pub u64);

impl Default for ElementId {
    fn default() -> (e: ElementId)
        ensures
            e.0 == 0,
    {
        ElementId(0)
    }
}

impl ElementId {
    /// The id of the element that holds the whole frame.
    pub fn root() -> (e: ElementId)
        ensures
            e.0 == u64::MAX,
    {
        ElementId(u64::MAX)
    }

    /// The id a name hashes to: FNV-1a over its bytes, never zero.
    pub fn named(name: &str) -> (e: ElementId)
        ensures
            e.0 == nonzero(fnv1a(name.spec_bytes())),
    {
        let bytes = name.as_bytes();
        let mut hash: u64 = FNV_OFFSET;
        let mut i: usize = 0;
        while i < bytes.len()
            invariant
                i <= bytes@.len(),
                bytes@ == name.spec_bytes(),
                hash == fnv1a(bytes@.take(i as int)),
            decreases bytes@.len() - i,
        {
            assert(bytes@.take(i + 1).drop_last() =~= bytes@.take(i as int));
            hash = hash ^ (bytes[i] as u64);
            hash = hash.wrapping_mul(FNV_PRIME);
            i = i + 1;
        }
        assert(bytes@.take(i as int) =~= bytes@);
        ElementId(if hash == 0 { 1 } else { hash })
    }

    /// A name plus a counter, for elements declared in loops.
    pub fn indexed(name: &str, index: u32) -> (e: ElementId)
        ensures
            e.0 == child_hash(nonzero(fnv1a(name.spec_bytes())), index),
    {
        ElementId::named(name).child(index)
    }

    /// The id of child `index` under this one, never zero.
    pub fn child(self, index: u32) -> (e: ElementId)
        ensures
            e.0 == child_hash(self.0, index),
    {
        let hash = self.0.wrapping_mul(CHILD_SPREAD).wrapping_add(index as u64 + 1);
        ElementId(if hash == 0 { 1 } else { hash })
    }
}

/// Which way a container stacks its children.
#[derive(Clone, Copy, PartialEq, Eq, Structural, Debug)]
pub enum Direction {
    LeftToRight,
    TopToBottom,
}

impl Default for Direction {
    fn default() -> (d: Direction)
        ensures
            d == Direction::LeftToRight,
    {
        Direction::LeftToRight
    }
}

/// Where children sit along an axis.
#[derive(Clone, Copy, PartialEq, Eq, Structural, Debug)]
pub enum Align {
    Start,
    Center,
    End,
}

impl Default for Align {
    fn default() -> (a: Align)
        ensures
            a == Align::Start,
    {
        Align::Start
    }
}

/// A point on a rectangle, for pinning floating elements.
#[derive(Clone, Copy, PartialEq, Eq, Structural, Debug)]
pub enum Anchor {
    TopLeft,
    TopCenter,
    TopRight,
    CenterLeft,
    Center,
    CenterRight,
    BottomLeft,
    BottomCenter,
    BottomRight,
}

impl Default for Anchor {
    fn default() -> (a: Anchor)
        ensures
            a == Anchor::TopLeft,
    {
        Anchor::TopLeft
    }
}

/// What the pointer did to an element last frame.
#[derive(Clone, Copy, PartialEq, Eq, Structural, Debug)]
pub struct Sense {
    pub clicked: bool,
    pub hovered: bool,
}

impl Default for Sense {
    fn default() -> (s: Sense)
        ensures
            !s.clicked && !s.hovered,
    {
        Sense { clicked: false, hovered: false }
    }
}

/// What a draw command paints.
#[derive(Clone, Copy, PartialEq, Eq, Structural, Debug)]
pub enum DrawKind {
    /// Nothing to draw.
    Nothing,
    Rectangle,
    Text,
    Border,
    /// The texture behind `image`, stretched over the bounds.
    Image,
    /// Restrict drawing to the bounds until the matching `ClipEnd`.
    ClipStart,
    ClipEnd,
}

impl Default for DrawKind {
    fn default() -> (k: DrawKind)
        ensures
            k == DrawKind::Nothing,
    {
        DrawKind::Nothing
    }
}

} // verus!
