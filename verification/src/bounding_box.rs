//! Axis-aligned rectangles and their algebra.

use vstd::prelude::*;
use vstd::string::StringExecFns;
use crate::point::Point;
use crate::text::{push_signed, signed_text};

verus! {

/// The smaller of two coordinates.
pub open spec fn spec_min(a: int, b: int) -> int {
    if a <= b { a } else { b }
}

/// The larger of two coordinates.
pub open spec fn spec_max(a: int, b: int) -> int {
    if a >= b { a } else { b }
}

/// A closed axis-aligned rectangle given by two corners. Nothing forces
/// `min` to lie below `max`; see [`BoundingBox::is_ordered`].
#[derive(Copy, Clone, Debug, PartialEq, Eq, Structural)]
pub struct BoundingBox {
    pub min: Point,
    pub max: Point,
}

fn min_coord(a: i32, b: i32) -> (r: i32)
    ensures
        r == spec_min(a as int, b as int),
{
    if a <= b { a } else { b }
}

fn max_coord(a: i32, b: i32) -> (r: i32)
    ensures
        r == spec_max(a as int, b as int),
{
    if a >= b { a } else { b }
}

impl BoundingBox {
    /// Both corners are in order on both axes.
    pub open spec fn is_ordered(self) -> bool {
        self.min.x <= self.max.x && self.min.y <= self.max.y
    }

    /// `self` covers `other`: on each axis its interval reaches at least as
    /// far in both directions.
    pub open spec fn covers(self, other: BoundingBox) -> bool {
        &&& self.min.x <= other.min.x
        &&& self.min.y <= other.min.y
        &&& other.max.x <= self.max.x
        &&& other.max.y <= self.max.y
    }

    /// The smallest box that covers both operands.
    pub open spec fn spec_union(self, b: BoundingBox) -> BoundingBox {
        BoundingBox {
            min: Point {
                x: spec_min(self.min.x as int, b.min.x as int) as i32,
                y: spec_min(self.min.y as int, b.min.y as int) as i32,
            },
            max: Point {
                x: spec_max(self.max.x as int, b.max.x as int) as i32,
                y: spec_max(self.max.y as int, b.max.y as int) as i32,
            },
        }
    }

    /// Width times height, signed: negative when exactly one axis is
    /// inverted.
    pub open spec fn spec_area(self) -> int {
        (self.max.x - self.min.x) * (self.max.y - self.min.y)
    }

    /// The closed rectangles share at least one point (for ordered boxes);
    /// touching edges count.
    pub open spec fn spec_intersects(self, other: BoundingBox) -> bool {
        &&& self.min.x <= other.max.x
        &&& other.min.x <= self.max.x
        &&& self.min.y <= other.max.y
        &&& other.min.y <= self.max.y
    }

    /// The box with corners `(x0, y0)` and `(x1, y1)`.
    pub fn new(x0: i32, y0: i32, x1: i32, y1: i32) -> (b: Self)
        ensures
            b == (BoundingBox { min: Point { x: x0, y: y0 }, max: Point { x: x1, y: y1 } }),
    {
        Self { min: Point { x: x0, y: y0 }, max: Point { x: x1, y: y1 } }
    }

    /// The box with the given corners.
    pub fn from_minmax(min: Point, max: Point) -> (b: Self)
        ensures
            b == (BoundingBox { min, max }),
    {
        Self { min, max }
    }

    /// The smallest box that covers both `self` and `b`.
    pub fn get_union(&self, b: &BoundingBox) -> (u: BoundingBox)
        ensures
            u == self.spec_union(*b),
    {
        BoundingBox {
            min: Point { x: min_coord(self.min.x, b.min.x), y: min_coord(self.min.y, b.min.y) },
            max: Point { x: max_coord(self.max.x, b.max.x), y: max_coord(self.max.y, b.max.y) },
        }
    }

    /// Width times height. The result is wide enough for any pair of corners.
    pub fn get_area(&self) -> (a: i128)
        ensures
            a == self.spec_area(),
    {
        let w: i128 = self.max.x as i128 - self.min.x as i128;
        let h: i128 = self.max.y as i128 - self.min.y as i128;
        proof {
            lemma_area_bounds(w as int, h as int);
        }
        w * h
    }

    /// The box as text: its four coordinates, `min` first, in parentheses.
    pub fn to_text(&self) -> (s: String)
        ensures
            s@ == box_text(*self),
    {
        let mut s = String::from_str("");
        push_box(&mut s, self);
        proof {
            reveal_strlit("");
            assert(""@ + box_text(*self) =~= box_text(*self));
        }
        s
    }

    /// Whether the two closed rectangles overlap on both axes.
    pub fn intersects(&self, other: &Self) -> (r: bool)
        ensures
            r == self.spec_intersects(*other),
    {
        self.min.x <= other.max.x && other.min.x <= self.max.x && self.min.y <= other.max.y
            && other.min.y <= self.max.y
    }
}

/// A box as its four coordinates in parentheses.
pub open spec fn box_text(b: BoundingBox) -> Seq<char> {
    "("@ + signed_text(b.min.x as int) + ", "@ + signed_text(b.min.y as int) + ", "@ + signed_text(
        b.max.x as int,
    ) + ", "@ + signed_text(b.max.y as int) + ")"@
}

/// Appends the four coordinates of `b` in parentheses.
pub(crate) fn push_box(out: &mut String, b: &BoundingBox)
    ensures
        final(out)@ == old(out)@ + box_text(*b),
{
    out.append("(");
    push_signed(out, b.min.x);
    out.append(", ");
    push_signed(out, b.min.y);
    out.append(", ");
    push_signed(out, b.max.x);
    out.append(", ");
    push_signed(out, b.max.y);
    out.append(")");
    proof {
        assert(out@ =~= old(out)@ + box_text(*b));
    }
}

/// The largest magnitude a side of a box can have.
pub open spec fn max_side() -> int {
    0xffff_ffff
}

/// A product of two sides stays within the square of the largest side.
pub proof fn lemma_area_bounds(w: int, h: int)
    requires
        -max_side() <= w <= max_side(),
        -max_side() <= h <= max_side(),
    ensures
        -max_side() * max_side() <= w * h <= max_side() * max_side(),
{
    assert(-max_side() * max_side() <= w * h <= max_side() * max_side()) by (nonlinear_arith)
        requires
            -max_side() <= w <= max_side(),
            -max_side() <= h <= max_side(),
    ;
}

/// The area of any box stays within the square of the largest side.
pub proof fn lemma_box_area_bounds(b: BoundingBox)
    ensures
        -max_side() * max_side() <= b.spec_area() <= max_side() * max_side(),
{
    lemma_area_bounds(b.max.x - b.min.x, b.max.y - b.min.y);
}

/// `outer` is exactly the bounding box of `boxes`: it covers every one of
/// them, and each of its four sides is reached by one of them.
pub open spec fn tight(outer: BoundingBox, boxes: Seq<BoundingBox>) -> bool {
    &&& forall|k: int| 0 <= k < boxes.len() ==> outer.covers(#[trigger] boxes[k])
    &&& exists|k: int| 0 <= k < boxes.len() && (#[trigger] boxes[k]).min.x == outer.min.x
    &&& exists|k: int| 0 <= k < boxes.len() && (#[trigger] boxes[k]).min.y == outer.min.y
    &&& exists|k: int| 0 <= k < boxes.len() && (#[trigger] boxes[k]).max.x == outer.max.x
    &&& exists|k: int| 0 <= k < boxes.len() && (#[trigger] boxes[k]).max.y == outer.max.y
}

/// The union of a non-empty sequence of boxes, taken from the left.
pub open spec fn union_of(boxes: Seq<BoundingBox>) -> BoundingBox
    decreases boxes.len(),
{
    if boxes.len() <= 1 {
        boxes[0]
    } else {
        union_of(boxes.drop_last()).spec_union(boxes.last())
    }
}

/// Only one box is the bounding box of a given sequence.
pub proof fn lemma_tight_unique(a: BoundingBox, b: BoundingBox, boxes: Seq<BoundingBox>)
    requires
        tight(a, boxes),
        tight(b, boxes),
    ensures
        a == b,
{
}

/// The union taken from the left is the bounding box of the sequence.
pub proof fn lemma_union_of_is_tight(boxes: Seq<BoundingBox>)
    requires
        boxes.len() > 0,
    ensures
        tight(union_of(boxes), boxes),
    decreases boxes.len(),
{
    if boxes.len() == 1 {
        assert(boxes[0] == union_of(boxes));
    } else {
        let front = boxes.drop_last();
        let last = boxes.last();
        lemma_union_of_is_tight(front);
        lemma_tight_push(union_of(front), front, last);
        assert(front.push(last) =~= boxes);
    }
}

/// Adding a box to a sequence enlarges its bounding box by that box.
pub proof fn lemma_tight_push(outer: BoundingBox, boxes: Seq<BoundingBox>, b: BoundingBox)
    requires
        tight(outer, boxes),
    ensures
        tight(outer.spec_union(b), boxes.push(b)),
{
    let u = outer.spec_union(b);
    let s = boxes.push(b);
    let n = boxes.len() as int;
    assert(s[n] == b);
    assert forall|k: int| 0 <= k < s.len() implies u.covers(#[trigger] s[k]) by {
        if k < n {
            assert(outer.covers(boxes[k]));
        }
    }
    let k0 = choose|k: int| 0 <= k < boxes.len() && (#[trigger] boxes[k]).min.x == outer.min.x;
    let k1 = choose|k: int| 0 <= k < boxes.len() && (#[trigger] boxes[k]).min.y == outer.min.y;
    let k2 = choose|k: int| 0 <= k < boxes.len() && (#[trigger] boxes[k]).max.x == outer.max.x;
    let k3 = choose|k: int| 0 <= k < boxes.len() && (#[trigger] boxes[k]).max.y == outer.max.y;
    assert(s[k0] == boxes[k0] && s[k1] == boxes[k1] && s[k2] == boxes[k2] && s[k3] == boxes[k3]);
    assert(s[if outer.min.x <= b.min.x { k0 } else { n }].min.x == u.min.x);
    assert(s[if outer.min.y <= b.min.y { k1 } else { n }].min.y == u.min.y);
    assert(s[if outer.max.x >= b.max.x { k2 } else { n }].max.x == u.max.x);
    assert(s[if outer.max.y >= b.max.y { k3 } else { n }].max.y == u.max.y);
}

/// Enlarging one box of a sequence by `b` enlarges the bounding box by `b`.
pub proof fn lemma_tight_grow(outer: BoundingBox, boxes: Seq<BoundingBox>, at: int, b: BoundingBox)
    requires
        tight(outer, boxes),
        0 <= at < boxes.len(),
    ensures
        tight(outer.spec_union(b), boxes.update(at, boxes[at].spec_union(b))),
{
    let u = outer.spec_union(b);
    let s = boxes.update(at, boxes[at].spec_union(b));
    assert(outer.covers(boxes[at]));
    assert forall|k: int| 0 <= k < s.len() implies u.covers(#[trigger] s[k]) by {
        assert(outer.covers(boxes[k]));
    }
    let k0 = choose|k: int| 0 <= k < boxes.len() && (#[trigger] boxes[k]).min.x == outer.min.x;
    let k1 = choose|k: int| 0 <= k < boxes.len() && (#[trigger] boxes[k]).min.y == outer.min.y;
    let k2 = choose|k: int| 0 <= k < boxes.len() && (#[trigger] boxes[k]).max.x == outer.max.x;
    let k3 = choose|k: int| 0 <= k < boxes.len() && (#[trigger] boxes[k]).max.y == outer.max.y;
    assert(s[if outer.min.x <= b.min.x { k0 } else { at }].min.x == u.min.x);
    assert(s[if outer.min.y <= b.min.y { k1 } else { at }].min.y == u.min.y);
    assert(s[if outer.max.x >= b.max.x { k2 } else { at }].max.x == u.max.x);
    assert(s[if outer.max.y >= b.max.y { k3 } else { at }].max.y == u.max.y);
}

/// A box that covers another takes it in without growing; and a box that
/// takes another in without growing covers it.
pub proof fn lemma_covers_absorbs(a: BoundingBox, b: BoundingBox)
    ensures
        a.covers(b) <==> a.spec_union(b) == a,
{
}

/// For boxes whose corners are in order, a union is at least as large as
/// either operand.
pub proof fn lemma_union_area_monotone(a: BoundingBox, b: BoundingBox)
    requires
        a.is_ordered(),
        b.is_ordered(),
    ensures
        a.spec_union(b).spec_area() >= a.spec_area(),
        a.spec_union(b).spec_area() >= b.spec_area(),
        a.spec_union(b).is_ordered(),
{
    let u = a.spec_union(b);
    lemma_area_grows(a.max.x - a.min.x, a.max.y - a.min.y, u.max.x - u.min.x, u.max.y - u.min.y);
    lemma_area_grows(b.max.x - b.min.x, b.max.y - b.min.y, u.max.x - u.min.x, u.max.y - u.min.y);
}

/// A rectangle with longer sides has no less area.
pub proof fn lemma_area_grows(w: int, h: int, w2: int, h2: int)
    requires
        0 <= w <= w2,
        0 <= h <= h2,
    ensures
        w * h <= w2 * h2,
{
    assert(w * h <= w2 * h2) by (nonlinear_arith)
        requires
            0 <= w <= w2,
            0 <= h <= h2,
    ;
}

} // verus!
