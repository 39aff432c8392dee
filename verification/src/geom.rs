//! Integer rectangles in device pixels.

use vstd::prelude::*;

verus! {

/// A point.
#[derive(Clone, Copy, Debug, PartialEq, Eq, Structural)]
pub struct Point {
    /// How far along.
    pub x: i32,
    /// How far down.
    pub y: i32,
}

/// A width and a height.
#[derive(Clone, Copy, Debug, PartialEq, Eq, Structural)]
pub struct Size {
    /// How wide.
    pub width: i32,
    /// How tall.
    pub height: i32,
}

/// How far to move each side of a rectangle outwards.
#[derive(Clone, Copy, Debug, PartialEq, Eq, Structural)]
pub struct Edges {
    /// The left side.
    pub left: i32,
    /// The top side.
    pub top: i32,
    /// The right side.
    pub right: i32,
    /// The bottom side.
    pub bottom: i32,
}

/// A rectangle, from its origin up to and not including its far corner.
#[derive(Clone, Copy, Debug, PartialEq, Eq, Structural)]
pub struct Rect {
    /// Its top left corner.
    pub origin: Point,
    /// How large it is. A side of zero or less holds nothing.
    pub size: Size,
}

/// The smaller of two integers.
pub open spec fn least(a: int, b: int) -> int {
    if a <= b {
        a
    } else {
        b
    }
}

/// The larger of two integers.
pub open spec fn most(a: int, b: int) -> int {
    if a >= b {
        a
    } else {
        b
    }
}

/// The smaller of two coordinates.
pub fn lesser(a: i32, b: i32) -> (r: i32)
    ensures
        r == least(a as int, b as int),
{
    if a <= b {
        a
    } else {
        b
    }
}

/// The larger of two coordinates.
pub fn greater(a: i32, b: i32) -> (r: i32)
    ensures
        r == most(a as int, b as int),
{
    if a >= b {
        a
    } else {
        b
    }
}

/// Whether a number is a coordinate.
pub open spec fn fits(value: int) -> bool {
    i32::MIN <= value <= i32::MAX
}

impl Point {
    /// A point at `x` and `y`.
    pub fn new(x: i32, y: i32) -> (r: Point)
        ensures
            r == (Point { x, y }),
    {
        Point { x, y }
    }
}

impl Size {
    /// A size of `width` by `height`.
    pub fn new(width: i32, height: i32) -> (r: Size)
        ensures
            r == (Size { width, height }),
    {
        Size { width, height }
    }
}

impl Edges {
    /// The same distance on every side.
    pub fn uniform(distance: i32) -> (r: Edges)
        ensures
            r.left == distance,
            r.top == distance,
            r.right == distance,
            r.bottom == distance,
    {
        Edges { left: distance, top: distance, right: distance, bottom: distance }
    }

    /// One distance for the two sides along, one for the two sides down.
    pub fn axes(x: i32, y: i32) -> (r: Edges)
        ensures
            r.left == x,
            r.right == x,
            r.top == y,
            r.bottom == y,
    {
        Edges { left: x, top: y, right: x, bottom: y }
    }
}

impl Rect {
    /// The rectangle of nothing at the origin.
    pub open spec fn nothing() -> Rect {
        Rect { origin: Point { x: 0, y: 0 }, size: Size { width: 0, height: 0 } }
    }

    /// The rectangle of nothing at the origin.
    pub fn zero() -> (r: Rect)
        ensures
            r == Rect::nothing(),
            r.wf(),
            r.void(),
    {
        Rect { origin: Point { x: 0, y: 0 }, size: Size { width: 0, height: 0 } }
    }

    /// Where it starts, along.
    pub open spec fn x0(self) -> int {
        self.origin.x as int
    }

    /// Where it starts, down.
    pub open spec fn y0(self) -> int {
        self.origin.y as int
    }

    /// Where it ends, along.
    pub open spec fn x1(self) -> int {
        self.origin.x + self.size.width
    }

    /// Where it ends, down.
    pub open spec fn y1(self) -> int {
        self.origin.y + self.size.height
    }

    /// Whether its far corner is a coordinate too.
    pub open spec fn wf(self) -> bool {
        fits(self.x1()) && fits(self.y1())
    }

    /// Whether it holds no pixel.
    pub open spec fn void(self) -> bool {
        self.size.width <= 0 || self.size.height <= 0
    }

    /// Whether it holds one pixel.
    pub open spec fn has(self, x: int, y: int) -> bool {
        self.x0() <= x < self.x1() && self.y0() <= y < self.y1()
    }

    /// Whether some pixel lies in both.
    pub open spec fn meets(self, other: Rect) -> bool {
        &&& most(self.x0(), other.x0()) < least(self.x1(), other.x1())
        &&& most(self.y0(), other.y0()) < least(self.y1(), other.y1())
    }

    /// Whether the corners of `inner` lie within this one's.
    pub open spec fn holds(self, inner: Rect) -> bool {
        &&& self.x0() <= inner.x0()
        &&& self.y0() <= inner.y0()
        &&& inner.x1() <= self.x1()
        &&& inner.y1() <= self.y1()
    }

    /// How many pixels it holds.
    pub open spec fn pixels(self) -> int {
        if self.void() {
            0
        } else {
            self.size.width * self.size.height
        }
    }

    /// The rectangle with these corners.
    pub open spec fn cornered(x0: int, y0: int, x1: int, y1: int) -> Rect {
        Rect {
            origin: Point { x: x0 as i32, y: y0 as i32 },
            size: Size { width: (x1 - x0) as i32, height: (y1 - y0) as i32 },
        }
    }

    /// The smallest rectangle holding both.
    pub open spec fn joined(self, other: Rect) -> Rect {
        Rect::cornered(
            least(self.x0(), other.x0()),
            least(self.y0(), other.y0()),
            most(self.x1(), other.x1()),
            most(self.y1(), other.y1()),
        )
    }

    /// What two rectangles that meet share.
    pub open spec fn shared(self, other: Rect) -> Rect {
        Rect::cornered(
            most(self.x0(), other.x0()),
            most(self.y0(), other.y0()),
            least(self.x1(), other.x1()),
            least(self.y1(), other.y1()),
        )
    }

    /// What both hold, or the rectangle of nothing.
    pub open spec fn cut(self, other: Rect) -> Rect {
        if self.meets(other) {
            self.shared(other)
        } else {
            Rect::nothing()
        }
    }

    /// This rectangle with each side moved outwards.
    pub open spec fn grown(self, by: Edges) -> Rect {
        Rect::cornered(
            self.x0() - by.left,
            self.y0() - by.top,
            self.x1() + by.right,
            self.y1() + by.bottom,
        )
    }

    /// Whether moving each side outwards stays within what a rectangle can hold.
    pub open spec fn can_grow(self, by: Edges) -> bool {
        &&& fits(self.x0() - by.left)
        &&& fits(self.y0() - by.top)
        &&& fits(self.x1() + by.right)
        &&& fits(self.y1() + by.bottom)
        &&& fits(by.left + by.right)
        &&& fits(by.top + by.bottom)
        &&& fits(self.size.width + by.left + by.right)
        &&& fits(self.size.height + by.top + by.bottom)
    }

    /// A rectangle at `origin` of `size`.
    pub fn new(origin: Point, size: Size) -> (r: Rect)
        ensures
            r == (Rect { origin, size }),
    {
        Rect { origin, size }
    }

    /// The rectangle between two corners.
    pub fn from_corners(near: Point, far: Point) -> (r: Rect)
        requires
            fits(far.x - near.x),
            fits(far.y - near.y),
        ensures
            r == Rect::cornered(near.x as int, near.y as int, far.x as int, far.y as int),
            r.wf(),
            r.x0() == near.x,
            r.y0() == near.y,
            r.x1() == far.x,
            r.y1() == far.y,
    {
        Rect { origin: near, size: Size { width: far.x - near.x, height: far.y - near.y } }
    }

    /// Where it starts, along.
    pub fn left(&self) -> (r: i32)
        ensures
            r == self.x0(),
    {
        self.origin.x
    }

    /// Where it starts, down.
    pub fn top(&self) -> (r: i32)
        ensures
            r == self.y0(),
    {
        self.origin.y
    }

    /// Where it ends, along.
    pub fn right(&self) -> (r: i32)
        requires
            self.wf(),
        ensures
            r == self.x1(),
    {
        self.origin.x + self.size.width
    }

    /// Where it ends, down.
    pub fn bottom(&self) -> (r: i32)
        requires
            self.wf(),
        ensures
            r == self.y1(),
    {
        self.origin.y + self.size.height
    }

    /// Whether it holds no pixel.
    pub fn is_empty(&self) -> (r: bool)
        ensures
            r == self.void(),
    {
        self.size.width <= 0 || self.size.height <= 0
    }

    /// Whether some pixel lies in both.
    pub fn intersects(&self, other: Rect) -> (r: bool)
        requires
            self.wf(),
            other.wf(),
        ensures
            r == self.meets(other),
    {
        greater(self.left(), other.left()) < lesser(self.right(), other.right()) && greater(
            self.top(),
            other.top(),
        ) < lesser(self.bottom(), other.bottom())
    }

    /// What both hold, when they share a pixel.
    pub fn intersection(&self, other: Rect) -> (r: Option<Rect>)
        requires
            self.wf(),
            other.wf(),
        ensures
            r is Some <==> self.meets(other),
            r matches Some(both) ==> {
                &&& both == self.shared(other)
                &&& both.wf()
                &&& !both.void()
                &&& both.x0() == most(self.x0(), other.x0())
                &&& both.y0() == most(self.y0(), other.y0())
                &&& both.x1() == least(self.x1(), other.x1())
                &&& both.y1() == least(self.y1(), other.y1())
            },
    {
        let near = Point::new(
            greater(self.left(), other.left()),
            greater(self.top(), other.top()),
        );
        let far = Point::new(
            lesser(self.right(), other.right()),
            lesser(self.bottom(), other.bottom()),
        );
        if near.x < far.x && near.y < far.y {
            // A side shared with `self` is no longer than `self`'s own.
            Some(Rect::from_corners(near, far))
        } else {
            None
        }
    }

    /// What both hold, or the rectangle of nothing.
    pub fn clipped(&self, other: Rect) -> (r: Rect)
        requires
            self.wf(),
            other.wf(),
        ensures
            r == self.cut(other),
            r.wf(),
    {
        match self.intersection(other) {
            Some(both) => both,
            None => Rect::zero(),
        }
    }

    /// Whether `inner` lies within this rectangle.
    pub fn contains_rect(&self, inner: Rect) -> (r: bool)
        requires
            self.wf(),
            inner.wf(),
        ensures
            r == self.holds(inner),
    {
        self.left() <= inner.left() && self.top() <= inner.top() && inner.right() <= self.right()
            && inner.bottom() <= self.bottom()
    }

    /// This rectangle with each side moved outwards.
    pub fn outset(&self, by: Edges) -> (r: Rect)
        requires
            self.wf(),
            self.can_grow(by),
        ensures
            r == self.grown(by),
            r.wf(),
            r.x0() == self.x0() - by.left,
            r.y0() == self.y0() - by.top,
            r.x1() == self.x1() + by.right,
            r.y1() == self.y1() + by.bottom,
    {
        Rect {
            origin: Point { x: self.origin.x - by.left, y: self.origin.y - by.top },
            size: Size {
                width: self.size.width + (by.left + by.right),
                height: self.size.height + (by.top + by.bottom),
            },
        }
    }
}

/// A rectangle holds a pixel just when it is not empty.
pub proof fn a_rectangle_is_empty_when_it_has_no_pixel(rect: Rect)
    ensures
        rect.void() <==> forall|x: int, y: int| !rect.has(x, y),
{
    if !rect.void() {
        assert(rect.has(rect.x0(), rect.y0()));
    }
}

/// Two rectangles meet just when a pixel lies in both, and what they share is exactly those.
pub proof fn what_two_rectangles_share(a: Rect, b: Rect, x: int, y: int)
    requires
        a.wf(),
        b.wf(),
    ensures
        a.has(x, y) && b.has(x, y) ==> a.meets(b),
        a.cut(b).has(x, y) <==> a.has(x, y) && b.has(x, y),
        a.meets(b) ==> exists|p: int, q: int| a.has(p, q) && b.has(p, q),
{
    if a.meets(b) {
        let p = most(a.x0(), b.x0());
        let q = most(a.y0(), b.y0());
        assert(a.has(p, q) && b.has(p, q));
    }
}

/// A rectangle that holds a non-empty one holds each of its pixels.
pub proof fn what_a_holding_rectangle_has(outer: Rect, inner: Rect)
    requires
        !inner.void(),
    ensures
        outer.holds(inner) <==> forall|x: int, y: int|
            inner.has(x, y) ==> #[trigger] outer.has(x, y),
{
    if forall|x: int, y: int| inner.has(x, y) ==> #[trigger] outer.has(x, y) {
        assert(inner.has(inner.x0(), inner.y0()));
        assert(inner.has(inner.x1() - 1, inner.y1() - 1));
        assert(outer.has(inner.x0(), inner.y0()));
        assert(outer.has(inner.x1() - 1, inner.y1() - 1));
    }
}

} // verus!
