use vstd::prelude::*;

use crate::grid::Point;

verus! {

/// An immutable snapshot of a candidate path's tip: the position reached,
/// the path taken to reach it (excluding the start cell), and the path's
/// length. Children are built by copying the parent's path and appending
/// the new position; the parent is never mutated.
#[derive(Debug, Clone)]
pub struct Node {
    pub position: Point,
    pub path: Vec<Point>,
    pub length: usize,
}

/// Manhattan distance between two coordinates.
pub open spec fn manhattan(a: Point, b: Point) -> int {
    abs_diff(a.x as int, b.x as int) + abs_diff(a.y as int, b.y as int)
}

pub open spec fn abs_diff(a: int, b: int) -> int {
    if a < b {
        b - a
    } else {
        a - b
    }
}

/// The A*-style evaluation of a node: path cost so far plus the admissible
/// Manhattan estimate of the remaining cost.
pub open spec fn score_spec(n: Node, goal: Point) -> int {
    manhattan(n.position, goal) + n.length
}

impl Node {
    /// `f = g + h`: `length` plus the Manhattan distance to `goal`.
    /// Computed in wide integers, so no input can overflow it.
    pub fn score(&self, goal: &Point) -> (r: u128)
        ensures
            r == score_spec(*self, *goal),
    {
        let dx = (goal.x as i64) - (self.position.x as i64);
        let dy = (goal.y as i64) - (self.position.y as i64);
        let adx: i64 = if dx < 0 {
            -dx
        } else {
            dx
        };
        let ady: i64 = if dy < 0 {
            -dy
        } else {
            dy
        };
        (adx as u128) + (ady as u128) + (self.length as u128)
    }

    /// The four candidate children, one per axis-aligned unit direction, in
    /// the fixed order up, right, down, left. Each child appends its own
    /// position to this node's path and is one step longer. No bounds or
    /// passability filtering happens here; that is the search driver's job.
    pub fn children(&self) -> (r: Vec<Node>)
        requires
            self.length == self.path@.len(),
            i32::MIN < self.position.x < i32::MAX,
            i32::MIN < self.position.y < i32::MAX,
        ensures
            r@.len() == 4,
            forall|j: int|
                0 <= j < 4 ==> (#[trigger] r@[j]).path@ == self.path@.push(r@[j].position)
                    && r@[j].length == self.length + 1,
            r@[0].position.x == self.position.x && r@[0].position.y == self.position.y - 1,
            r@[1].position.x == self.position.x + 1 && r@[1].position.y == self.position.y,
            r@[2].position.x == self.position.x && r@[2].position.y == self.position.y + 1,
            r@[3].position.x == self.position.x - 1 && r@[3].position.y == self.position.y,
    {
        let mut r: Vec<Node> = Vec::new();
        let p0 = Point { x: self.position.x, y: self.position.y - 1 };
        let p1 = Point { x: self.position.x + 1, y: self.position.y };
        let p2 = Point { x: self.position.x, y: self.position.y + 1 };
        let p3 = Point { x: self.position.x - 1, y: self.position.y };
        r.push(self.child_at(p0));
        r.push(self.child_at(p1));
        r.push(self.child_at(p2));
        r.push(self.child_at(p3));
        r
    }

    /// One child of this node, placed at `next`.
    fn child_at(&self, next: Point) -> (c: Node)
        requires
            self.length == self.path@.len(),
        ensures
            c.position == next,
            c.path@ == self.path@.push(next),
            c.length == self.length + 1,
    {
        let mut new_path = clone_points(&self.path);
        new_path.push(next);
        let new_length = new_path.len();
        Node { position: next, path: new_path, length: new_length }
    }
}

/// An explicit copy of a coordinate sequence.
fn clone_points(v: &Vec<Point>) -> (r: Vec<Point>)
    ensures
        r@ == v@,
{
    let mut r: Vec<Point> = Vec::new();
    let mut i: usize = 0;
    while i < v.len()
        invariant
            i <= v@.len(),
            r@ == v@.take(i as int),
        decreases v@.len() - i,
    {
        r.push(v[i]);
        proof {
            assert(r@ =~= v@.take(i + 1 as int));
        }
        i = i + 1;
    }
    proof {
        assert(v@.take(v@.len() as int) =~= v@);
    }
    r
}

} // verus!
