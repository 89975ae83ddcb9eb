//! A square spiral on the column grid, walked outwards from the origin.
//!
//! ```text
//! A-B-C-D-E-F-0
//! |
//! 9 4-5-6-7-8-9
//! | |         |
//! 8 3 6-7-8-9 A
//! | | |     | |
//! 7 2 5 0-1 A B
//! | | |   | | |
//! 6 1 4-3-2 B C
//! | |       | |
//! 5 0-F-E-D-C D
//! |           |
//! 4-3-2-1-0-F-E
//! ```
//!
//! The walk is made of straight arms of lengths 1, 1, 2, 2, 3, 3, ..., each
//! turned a quarter to the right of the one before. Enumerating coordinates
//! in this order visits the nearest columns first.

use vstd::prelude::*;
use crate::coord::ColumnCoord;

verus! {

/// The number of points on all arms shorter than `len`: two arms of each
/// length below it.
pub open spec fn points_before(len: int) -> int {
    len * (len - 1)
}

/// The length of the arm that point `n` of the walk lies on.
pub open spec fn arm_length(n: nat) -> int {
    choose|len: int|
        len >= 1 && #[trigger] points_before(len) <= n && n < points_before(len + 1)
}

/// Point `steps` of an arm of length `len`, the first (`second == false`) or
/// the second of that length. Arms of odd length start at the upper left
/// corner and run right, then down; arms of even length start at the lower
/// right corner and run left, then up.
pub open spec fn arm_point(len: int, second: bool, steps: int) -> ColumnCoord {
    let half = len / 2;
    if len % 2 == 1 {
        if !second {
            ColumnCoord { x: (steps - half) as i64, y: half as i64 }
        } else {
            ColumnCoord { x: (half + 1) as i64, y: (half - steps) as i64 }
        }
    } else {
        if !second {
            ColumnCoord { x: (half - steps) as i64, y: (-half) as i64 }
        } else {
            ColumnCoord { x: (-half) as i64, y: (steps - half) as i64 }
        }
    }
}

/// The direction in which such an arm runs.
pub open spec fn arm_direction(len: int, second: bool) -> ColumnCoord {
    if len % 2 == 1 {
        if !second {
            ColumnCoord { x: 1, y: 0 }
        } else {
            ColumnCoord { x: 0, y: -1i64 }
        }
    } else {
        if !second {
            ColumnCoord { x: -1i64, y: 0 }
        } else {
            ColumnCoord { x: 0, y: 1 }
        }
    }
}

/// Point `n` of the spiral, counted from 0 at the origin.
pub open spec fn spiral_point(n: nat) -> ColumnCoord {
    let len = arm_length(n);
    let along = n - points_before(len);
    if along < len {
        arm_point(len, false, along)
    } else {
        arm_point(len, true, along - len)
    }
}

proof fn lemma_points_before_monotone(a: int, b: int)
    by (nonlinear_arith)
    requires
        1 <= a < b,
    ensures
        points_before(a + 1) <= points_before(b),
        points_before(a + 1) == points_before(a) + 2 * a,
{
}

proof fn lemma_arm_length_bound(len: int, n: int)
    by (nonlinear_arith)
    requires
        len >= 1,
        points_before(len) <= n <= u64::MAX,
    ensures
        len <= 0x2_0000_0000,
        len >= 3 ==> len + 1 < n,
{
}

/// The arm length of a point is determined by the two bounds that define it.
pub proof fn lemma_arm_length(n: nat, len: int)
    requires
        len >= 1,
        points_before(len) <= n < points_before(len + 1),
    ensures
        arm_length(n) == len,
{
    let other = arm_length(n);
    if other < len {
        lemma_points_before_monotone(other, len);
    } else if len < other {
        lemma_points_before_monotone(len, other);
    }
}

/// What a [`Spiral`] stands for: how many points it has yielded, and how many
/// it yields in all.
pub struct SpiralState {
    pub count: nat,
    pub end: nat,
}

/// An enumeration of the first `end` points of the spiral.
#[derive(Debug)]
pub struct Spiral {
    next: ColumnCoord,
    dir: ColumnCoord,
    pos: usize,
    length: usize,
    segment: usize,
    count: usize,
    end: usize,
}

impl View for Spiral {
    type V = SpiralState;

    closed spec fn view(&self) -> SpiralState {
        SpiralState { count: self.count as nat, end: self.end as nat }
    }
}

impl Spiral {
    #[verifier::type_invariant]
    spec fn well_formed(self) -> bool {
        &&& self.length >= 1
        &&& 1 <= self.segment <= 2
        &&& self.pos < self.length
        &&& self.count <= self.end
        &&& self.count == points_before(self.length as int) + (if self.segment == 1 {
            self.length as int
        } else {
            0
        }) + self.pos
        &&& self.next == arm_point(self.length as int, self.segment == 1, self.pos as int)
        &&& self.dir == arm_direction(self.length as int, self.segment == 1)
    }

    /// The spiral's first `end` points, none of them yielded yet.
    pub fn new(end: usize) -> (spiral: Spiral)
        ensures
            spiral@ == (SpiralState { count: 0, end: end as nat }),
    {
        assert(points_before(1) == 0) by (nonlinear_arith);
        Spiral {
            next: ColumnCoord { x: 0, y: 0 },
            dir: ColumnCoord { x: 1, y: 0 },
            pos: 0,
            length: 1,
            segment: 2,
            count: 0,
            end,
        }
    }

    /// The next point of the spiral, or `None` once `end` points have been
    /// yielded. The `n`-th call, counted from 0, yields `spiral_point(n)`.
    pub fn next(&mut self) -> (point: Option<ColumnCoord>)
        ensures
            old(self)@.count == old(self)@.end ==> point.is_none() && final(self)@ == old(self)@,
            old(self)@.count != old(self)@.end ==> point == Some(spiral_point(old(self)@.count))
                && final(self)@ == (SpiralState {
                count: old(self)@.count + 1,
                end: old(self)@.end,
            }),
    {
        proof {
            use_type_invariant(&*self);
        }
        if self.count == self.end {
            return None;
        }
        let ret = self.next;
        let ghost len = self.length as int;
        let ghost second = self.segment == 1;
        proof {
            lemma_arm_length_bound(len, self.count as int);
            lemma_points_before_monotone(len, len + 1);
            lemma_arm_length(self.count as nat, len);
        }
        let mut next = ColumnCoord { x: self.next.x + self.dir.x, y: self.next.y + self.dir.y };
        let mut dir = self.dir;
        let mut pos = self.pos + 1;
        let mut length = self.length;
        let mut segment = self.segment;
        if pos == length {
            segment -= 1;
            if segment == 0 {
                length += 1;
                segment = 2;
            }
            pos = 0;
            dir = ColumnCoord { x: dir.y, y: -dir.x };
        }
        *self = Spiral { next, dir, pos, length, segment, count: self.count + 1, end: self.end };
        Some(ret)
    }
}

} // verus!
