use vstd::prelude::*;

use crate::grid::{adjacent, lemma_cell_index_in_range, Board, Point};
use crate::node::{manhattan, score_spec, Node};

verus! {

/// A legal walk out of `start`: every coordinate in bounds and passable,
/// every consecutive pair (and the first coordinate with `start`) exactly
/// one unit step apart.
pub open spec fn valid_path(b: Board, start: Point, p: Seq<Point>) -> bool {
    forall|i: int|
        0 <= i < p.len() ==> {
            &&& b.spec_in_bounds(#[trigger] p[i])
            &&& !b.spec_blocked(p[i])
            &&& adjacent(
                if i == 0 {
                    start
                } else {
                    p[i - 1]
                },
                p[i],
            )
        }
}

/// Where a path that left `start` now stands.
pub open spec fn path_end(start: Point, p: Seq<Point>) -> Point {
    if p.len() == 0 {
        start
    } else {
        p.last()
    }
}

/// A node is internally consistent: its length counts its path, its path is
/// a legal walk out of `start`, and its position is the walk's tip.
pub open spec fn valid_node(b: Board, start: Point, n: Node) -> bool {
    &&& n.length == n.path@.len()
    &&& valid_path(b, start, n.path@)
    &&& n.position == path_end(start, n.path@)
}

/// Some legal walk out of `start` ends at `goal`.
pub open spec fn reachable(b: Board, start: Point, goal: Point) -> bool {
    exists|p: Seq<Point>| valid_path(b, start, p) && path_end(start, p) == goal
}

/// A position a search node may occupy: an in-bounds cell, or the start
/// cell itself (the start is never bounds-checked by the search).
pub open spec fn pos_ok(b: Board, start: Point, p: Point) -> bool {
    b.spec_in_bounds(p) || p == start
}

/// The cell a walk stands on after `i` of its steps.
pub open spec fn cell_at(start: Point, p: Seq<Point>, i: int) -> Point {
    if i == 0 {
        start
    } else {
        p[i - 1]
    }
}

/// No cell occurs twice on the walk, the start included.
#[verifier::opaque]
pub open spec fn simple_path(start: Point, p: Seq<Point>) -> bool {
    forall|i: int, j: int|
        0 <= i < j <= p.len() ==> #[trigger] cell_at(start, p, i) != #[trigger] cell_at(
            start,
            p,
            j,
        )
}

/// Whether some node of `s` sits on position `p`.
pub open spec fn holds_position(s: Seq<Node>, p: Point) -> bool {
    exists|i: int| 0 <= i < s.len() && (#[trigger] s[i]).position == p
}

/// Whether some node of `s` sits on position `p` with a path no longer
/// than `l`.
pub open spec fn holds_position_within(s: Seq<Node>, p: Point, l: int) -> bool {
    exists|i: int| 0 <= i < s.len() && (#[trigger] s[i]).position == p && s[i].length <= l
}

/// The frontier guards the walk `p` at step `i`: a frontier node stands on
/// the walk's `i`-th cell having taken at most `i` steps of its own, and
/// every later cell of the walk is unexplored.
pub open spec fn guard_at(
    frontier: Seq<Node>,
    explored: Seq<Node>,
    start: Point,
    p: Seq<Point>,
    i: int,
) -> bool {
    &&& 0 <= i <= p.len()
    &&& holds_position_within(frontier, cell_at(start, p, i), i)
    &&& forall|j: int| i < j <= p.len() ==> !holds_position(explored, cell_at(start, p, j))
}

pub open spec fn guards(
    frontier: Seq<Node>,
    explored: Seq<Node>,
    start: Point,
    p: Seq<Point>,
) -> bool {
    exists|i: int| guard_at(frontier, explored, start, p, i)
}

/// Every simple legal walk from `start` to `goal` is guarded: the search
/// cannot lose all traces of a way to the goal.
pub open spec fn all_guarded(
    b: Board,
    frontier: Seq<Node>,
    explored: Seq<Node>,
    start: Point,
    goal: Point,
) -> bool {
    forall|p: Seq<Point>|
        valid_path(b, start, p) && path_end(start, p) == goal && simple_path(start, p)
            ==> #[trigger] guards(frontier, explored, start, p)
}

/// Any legal walk to `goal` can be shortened to a simple one: cutting the
/// stretch between two visits of the same cell keeps the walk legal.
pub proof fn lemma_simple_path_exists(b: Board, start: Point, goal: Point, p: Seq<Point>)
    requires
        valid_path(b, start, p),
        path_end(start, p) == goal,
    ensures
        exists|q: Seq<Point>|
            valid_path(b, start, q) && path_end(start, q) == goal && q.len() <= p.len()
                && #[trigger] simple_path(start, q),
    decreases p.len(),
{
    reveal(simple_path);
    if simple_path(start, p) {
    } else {
        let (i, j) = choose|i: int, j: int|
            0 <= i < j <= p.len() && cell_at(start, p, i) == cell_at(start, p, j);
        let q = p.take(i) + p.skip(j);
        assert(q.len() == i + (p.len() - j));
        assert forall|t: int| 0 <= t < q.len() implies {
            &&& b.spec_in_bounds(#[trigger] q[t])
            &&& !b.spec_blocked(q[t])
            &&& adjacent(
                if t == 0 {
                    start
                } else {
                    q[t - 1]
                },
                q[t],
            )
        } by {
            if t < i {
                assert(q[t] == p[t]);
                if t > 0 {
                    assert(q[t - 1] == p[t - 1]);
                }
            } else {
                assert(q[t] == p[j + (t - i)]);
                assert(adjacent(
                    if j + (t - i) == 0 {
                        start
                    } else {
                        p[j + (t - i) - 1]
                    },
                    p[j + (t - i)],
                ));
                if t == i {
                    // The walk stands on the duplicated cell after `i`
                    // steps, and the cut stretch ends on the same cell.
                    assert(cell_at(start, p, i) == cell_at(start, p, j));
                    if i == 0 {
                        assert(cell_at(start, p, j) == p[j - 1] || j == 0);
                    } else {
                        assert(q[t - 1] == p[i - 1]);
                    }
                } else {
                    assert(q[t - 1] == p[j + (t - i) - 1]);
                }
            }
        }
        assert(valid_path(b, start, q));
        assert(path_end(start, q) == goal) by {
            if q.len() == 0 {
                assert(i == 0 && j == p.len());
                assert(cell_at(start, p, 0) == start);
                assert(cell_at(start, p, p.len() as int) == path_end(start, p));
            } else {
                if p.len() - j > 0 {
                    assert(q.last() == p[p.len() - 1]);
                } else {
                    assert(j == p.len());
                    assert(q.last() == p[i - 1]);
                    assert(cell_at(start, p, i) == cell_at(start, p, j));
                }
            }
        }
        lemma_simple_path_exists(b, start, goal, q);
    }
}

pub open spec fn all_valid(b: Board, start: Point, s: Seq<Node>) -> bool {
    forall|i: int| 0 <= i < s.len() ==> valid_node(b, start, #[trigger] s[i])
}

pub open spec fn all_pos_ok(b: Board, start: Point, s: Seq<Node>) -> bool {
    forall|i: int| 0 <= i < s.len() ==> pos_ok(b, start, (#[trigger] s[i]).position)
}

/// At most one node per grid position.
pub open spec fn positions_distinct(s: Seq<Node>) -> bool {
    forall|i: int, j: int|
        0 <= i < j < s.len() ==> (#[trigger] s[i]).position != (#[trigger] s[j]).position
}

/// No position occurs on both sides.
pub open spec fn disjoint_positions(a: Seq<Node>, b: Seq<Node>) -> bool {
    forall|i: int, j: int|
        0 <= i < a.len() && 0 <= j < b.len() ==> (#[trigger] a[i]).position != (
        #[trigger] b[j]).position
}

/// The index of the frontier node with the lowest score; ties go to the
/// earliest index in storage order.
pub open spec fn min_score_index(s: Seq<Node>, goal: Point) -> int
    decreases s.len(),
{
    if s.len() <= 1 {
        0
    } else {
        let k = min_score_index(s.drop_last(), goal);
        if score_spec(s.last(), goal) < score_spec(s[k], goal) {
            s.len() - 1
        } else {
            k
        }
    }
}

/// `min_score_index` picks an in-range index whose score no other node
/// beats, and that every earlier node strictly exceeds.
pub proof fn lemma_min_score_index_props(s: Seq<Node>, goal: Point)
    requires
        s.len() > 0,
    ensures
        0 <= min_score_index(s, goal) < s.len(),
        forall|j: int|
            0 <= j < s.len() ==> score_spec(s[min_score_index(s, goal)], goal) <= score_spec(
                #[trigger] s[j],
                goal,
            ),
        forall|j: int|
            0 <= j < min_score_index(s, goal) ==> score_spec(#[trigger] s[j], goal) > score_spec(
                s[min_score_index(s, goal)],
                goal,
            ),
    decreases s.len(),
{
    if s.len() > 1 {
        let d = s.drop_last();
        let k = min_score_index(s, goal);
        let kd = min_score_index(d, goal);
        lemma_min_score_index_props(d, goal);
        assert(s.last() == s[s.len() - 1]);
        assert forall|j: int| 0 <= j < s.len() implies score_spec(
            s[min_score_index(s, goal)],
            goal,
        ) <= score_spec(#[trigger] s[j], goal) by {
            if j < s.len() - 1 {
                assert(d[j] == s[j]);
                assert(score_spec(d[kd], goal) <= score_spec(d[j], goal));
            }
        }
        assert forall|j: int| 0 <= j < min_score_index(s, goal) implies score_spec(
            #[trigger] s[j],
            goal,
        ) > score_spec(s[min_score_index(s, goal)], goal) by {
            assert(d[j] == s[j]);
            if j < kd {
                assert(score_spec(d[j], goal) > score_spec(d[kd], goal));
            } else if j < s.len() - 1 {
                assert(score_spec(d[kd], goal) <= score_spec(d[j], goal));
            }
        }
    }
}

/// Removes and returns the frontier node with the lowest score relative to
/// `goal`, breaking ties towards the earliest stored node. The last node is
/// swapped into the removed slot, as `Vec::swap_remove` does.
pub fn pop_smallest(nodes: &mut Vec<Node>, goal: &Point) -> (r: Node)
    requires
        old(nodes)@.len() > 0,
    ensures
        r == old(nodes)@[min_score_index(old(nodes)@, *goal)],
        final(nodes)@ == old(nodes)@.update(
            min_score_index(old(nodes)@, *goal),
            old(nodes)@.last(),
        ).drop_last(),
{
    let ghost s = nodes@;
    let mut index: usize = 0;
    let mut smallest_index: usize = 0;
    let mut smallest_score: u128 = 0;
    while index < nodes.len()
        invariant
            nodes@ == s,
            s.len() > 0,
            index <= s.len(),
            index > 0 ==> {
                &&& smallest_index < index
                &&& smallest_index == min_score_index(s.take(index as int), *goal)
                &&& smallest_score == score_spec(s[smallest_index as int], *goal)
            },
        decreases s.len() - index,
    {
        let score = nodes[index].score(goal);
        if index == 0 || score < smallest_score {
            smallest_index = index;
            smallest_score = score;
        }
        proof {
            let t = s.take(index + 1 as int);
            assert(t.drop_last() =~= s.take(index as int));
            assert(t.last() == s[index as int]);
            if index > 0 {
                lemma_min_score_index_props(s.take(index as int), *goal);
            }
        }
        index = index + 1;
    }
    proof {
        assert(s.take(s.len() as int) =~= s);
    }
    nodes.swap_remove(smallest_index)
}

/// The identifier a search position maps to when counting explored cells:
/// in-bounds cells map to their tile index, the start cell to one past the
/// last tile index.
pub open spec fn cell_id(b: Board, start: Point, p: Point) -> int {
    if p == start {
        b.width * b.height
    } else {
        b.cell_index(p)
    }
}

pub proof fn lemma_cell_id_injective(b: Board, start: Point, p: Point, q: Point)
    requires
        pos_ok(b, start, p),
        pos_ok(b, start, q),
        p != q,
    ensures
        cell_id(b, start, p) != cell_id(b, start, q),
{
    if p == start {
        lemma_cell_index_in_range(b.width as int, b.height as int, q.x as int, q.y as int);
    } else if q == start {
        lemma_cell_index_in_range(b.width as int, b.height as int, p.x as int, p.y as int);
    } else {
        if b.cell_index(p) == b.cell_index(q) {
            vstd::arithmetic::div_mod::lemma_fundamental_div_mod_converse(
                b.cell_index(p),
                b.width as int,
                p.y as int,
                p.x as int,
            );
            vstd::arithmetic::div_mod::lemma_fundamental_div_mod_converse(
                b.cell_index(q),
                b.width as int,
                q.y as int,
                q.x as int,
            );
            assert(p.x == q.x && p.y == q.y);
            assert(false);
        }
    }
}

/// Nodes with pairwise distinct legal positions cannot outnumber the grid's
/// cells plus the start cell.
pub proof fn lemma_distinct_positions_len_bound(b: Board, start: Point, s: Seq<Node>)
    requires
        positions_distinct(s),
        all_pos_ok(b, start, s),
    ensures
        s.len() <= b.width * b.height + 1,
{
    let ids = Seq::new(s.len(), |i: int| cell_id(b, start, s[i].position));
    assert forall|i: int, j: int|
        0 <= i < ids.len() && 0 <= j < ids.len() && i != j implies ids[i] != ids[j] by {
        if i < j {
            lemma_cell_id_injective(b, start, s[i].position, s[j].position);
        } else {
            lemma_cell_id_injective(b, start, s[j].position, s[i].position);
        }
    }
    ids.unique_seq_to_set();
    let range = vstd::set_lib::set_int_range(0, b.width * b.height + 1);
    assert forall|e: int| ids.to_set().contains(e) implies range.contains(e) by {
        let i = choose|i: int| 0 <= i < ids.len() && ids[i] == e;
        if s[i].position == start {
        } else {
            lemma_cell_index_in_range(
                b.width as int,
                b.height as int,
                s[i].position.x as int,
                s[i].position.y as int,
            );
        }
    }
    vstd::set_lib::lemma_int_range(0, b.width * b.height + 1);
    vstd::set_lib::lemma_len_subset(ids.to_set(), range);
}

/// A legal walk stays legal when it is extended by one adjacent, in-bounds,
/// passable coordinate.
pub proof fn lemma_valid_path_extend(b: Board, start: Point, p: Seq<Point>, q: Point)
    requires
        valid_path(b, start, p),
        b.spec_in_bounds(q),
        !b.spec_blocked(q),
        adjacent(path_end(start, p), q),
    ensures
        valid_path(b, start, p.push(q)),
{
    let e = p.push(q);
    assert forall|i: int| 0 <= i < e.len() implies {
        &&& b.spec_in_bounds(#[trigger] e[i])
        &&& !b.spec_blocked(e[i])
        &&& adjacent(
            if i == 0 {
                start
            } else {
                e[i - 1]
            },
            e[i],
        )
    } by {
        if i < p.len() {
            assert(e[i] == p[i]);
            if i > 0 {
                assert(e[i - 1] == p[i - 1]);
            }
        } else {
            assert(e[i] == q);
            if p.len() == 0 {
            } else {
                assert(e[i - 1] == p[p.len() - 1]);
            }
        }
    }
}

/// A consistent node stands on a legal search position.
pub proof fn lemma_valid_node_pos_ok(b: Board, start: Point, n: Node)
    requires
        valid_node(b, start, n),
    ensures
        pos_ok(b, start, n.position),
{
    if n.path@.len() > 0 {
        assert(b.spec_in_bounds(n.path@[n.path@.len() - 1]));
    }
}

/// After the best node is swapped out of the frontier (`f1` is `f0` with
/// the node at the minimal-score index replaced by the last node and the
/// last slot dropped), the remainder is still a set of consistent nodes on
/// pairwise distinct positions, all away from the popped node's position
/// and from the explored positions.
#[verifier::rlimit(100)]
#[verifier::spinoff_prover]
pub proof fn lemma_frontier_after_pop(
    b: Board,
    start: Point,
    f0: Seq<Node>,
    f1: Seq<Node>,
    ex: Seq<Node>,
    goal: Point,
)
    requires
        f0.len() > 0,
        all_valid(b, start, f0),
        positions_distinct(f0),
        disjoint_positions(f0, ex),
        f1 == f0.update(min_score_index(f0, goal), f0.last()).drop_last(),
    ensures
        valid_node(b, start, f0[min_score_index(f0, goal)]),
        all_valid(b, start, f1),
        positions_distinct(f1),
        disjoint_positions(f1, ex),
        forall|i: int|
            0 <= i < f1.len() ==> (#[trigger] f1[i]).position != f0[min_score_index(
                f0,
                goal,
            )].position,
        forall|j: int|
            0 <= j < ex.len() ==> (#[trigger] ex[j]).position != f0[min_score_index(
                f0,
                goal,
            )].position,
        forall|q: Point, l: int|
            holds_position_within(f0, q, l) && q != f0[min_score_index(f0, goal)].position
                ==> #[trigger] holds_position_within(f1, q, l),
{
    let k = min_score_index(f0, goal);
    lemma_min_score_index_props(f0, goal);
    assert forall|q: Point, l: int|
        holds_position_within(f0, q, l) && q != f0[k].position implies holds_position_within(
        f1,
        q,
        l,
    ) by {
        let w = choose|w: int|
            0 <= w < f0.len() && (#[trigger] f0[w]).position == q && f0[w].length <= l;
        if w == f0.len() - 1 {
            assert(f1[k] == f0[f0.len() - 1]);
            assert(f1[k].position == q && f1[k].length <= l);
        } else {
            assert(w != k);
            assert(f1[w] == f0.update(k, f0.last()).drop_last()[w]);
            assert(f1[w].position == q && f1[w].length <= l);
        }
    }
    assert(f0.last() == f0[f0.len() - 1]);
    assert forall|i: int| 0 <= i < f1.len() implies #[trigger] f1[i] == f0[origin_index(
        f0.len() as int,
        k,
        i,
    )] by {}
    assert forall|i: int| 0 <= i < f1.len() implies valid_node(b, start, #[trigger] f1[i])
        && f1[i].position != f0[k].position by {
        let a = origin_index(f0.len() as int, k, i);
        assert(f1[i] == f0[a]);
        assert(f0[a].position != f0[k].position);
    }
    assert forall|i: int, j: int| 0 <= i < j < f1.len() implies (#[trigger] f1[i]).position != (
    #[trigger] f1[j]).position by {
        let a = origin_index(f0.len() as int, k, i);
        let c = origin_index(f0.len() as int, k, j);
        assert(f1[i] == f0[a] && f1[j] == f0[c]);
        assert(a != c);
    }
    assert forall|i: int, j: int| 0 <= i < f1.len() && 0 <= j < ex.len() implies (
    #[trigger] f1[i]).position != (#[trigger] ex[j]).position by {
        let a = origin_index(f0.len() as int, k, i);
        assert(f1[i] == f0[a]);
    }
}

/// The index in the original frontier that slot `i` holds after a
/// swap-remove of index `k`.
pub open spec fn origin_index(len: int, k: int, i: int) -> int {
    if i == k {
        len - 1
    } else {
        i
    }
}

/// Pushing the popped node onto the explored set keeps the explored
/// positions distinct and legal, and keeps the frontier clear of them.
pub proof fn lemma_explored_after_push(
    b: Board,
    start: Point,
    f1: Seq<Node>,
    ex0: Seq<Node>,
    ex1: Seq<Node>,
    n: Node,
)
    requires
        ex1 == ex0.push(n),
        positions_distinct(ex0),
        all_pos_ok(b, start, ex0),
        pos_ok(b, start, n.position),
        disjoint_positions(f1, ex0),
        forall|i: int| 0 <= i < f1.len() ==> (#[trigger] f1[i]).position != n.position,
        forall|j: int| 0 <= j < ex0.len() ==> (#[trigger] ex0[j]).position != n.position,
    ensures
        positions_distinct(ex1),
        all_pos_ok(b, start, ex1),
        disjoint_positions(f1, ex1),
{
    assert forall|i: int, j: int| 0 <= i < j < ex1.len() implies (#[trigger] ex1[i]).position != (
    #[trigger] ex1[j]).position by {
        assert(ex1[i] == ex0[i]);
        if j < ex0.len() {
            assert(ex1[j] == ex0[j]);
        } else {
            assert(ex1[j] == n);
        }
    }
    assert forall|i: int| 0 <= i < ex1.len() implies pos_ok(b, start, (
    #[trigger] ex1[i]).position) by {
        if i < ex0.len() {
            assert(ex1[i] == ex0[i]);
        } else {
            assert(ex1[i] == n);
        }
    }
    assert forall|i: int, j: int| 0 <= i < f1.len() && 0 <= j < ex1.len() implies (
    #[trigger] f1[i]).position != (#[trigger] ex1[j]).position by {
        if j < ex0.len() {
            assert(ex1[j] == ex0[j]);
        } else {
            assert(ex1[j] == n);
        }
    }
}

/// The Manhattan distance to `goal` changes by at most one per step of a
/// legal walk: the heuristic is consistent.
pub proof fn lemma_manhattan_steps(
    b: Board,
    start: Point,
    goal: Point,
    p: Seq<Point>,
    a: int,
    c: int,
)
    requires
        valid_path(b, start, p),
        0 <= a <= c <= p.len(),
    ensures
        manhattan(cell_at(start, p, a), goal) <= (c - a) + manhattan(cell_at(start, p, c), goal),
    decreases c - a,
{
    if a < c {
        lemma_manhattan_steps(b, start, goal, p, a + 1, c);
        assert(b.spec_in_bounds(p[a]));
        assert(adjacent(cell_at(start, p, a), cell_at(start, p, a + 1)));
    }
}

/// A popped node of minimal score that stands on the `j`-th cell of a
/// guarded walk has taken at most `j` steps: its score is at most the
/// guard's, and the Manhattan estimate between the two cells is covered by
/// the walk's steps between them.
pub proof fn lemma_popped_on_walk_bound(
    b: Board,
    start: Point,
    goal: Point,
    f0: Seq<Node>,
    m: Node,
    p: Seq<Point>,
    gi: int,
    j: int,
)
    requires
        valid_path(b, start, p),
        0 <= gi <= j <= p.len(),
        holds_position_within(f0, cell_at(start, p, gi), gi),
        forall|k: int| 0 <= k < f0.len() ==> score_spec(m, goal) <= score_spec(#[trigger] f0[k], goal),
        m.position == cell_at(start, p, j),
    ensures
        m.length <= j,
{
    let w = choose|w: int|
        0 <= w < f0.len() && (#[trigger] f0[w]).position == cell_at(start, p, gi) && f0[w].length
            <= gi;
    assert(score_spec(m, goal) <= score_spec(f0[w], goal));
    assert(score_spec(f0[w], goal) == manhattan(cell_at(start, p, gi), goal) + f0[w].length);
    lemma_manhattan_steps(b, start, goal, p, gi, j);
    assert(score_spec(m, goal) == manhattan(cell_at(start, p, j), goal) + m.length);
}

/// Membership in a grown node list: the new node's position joins, all
/// others stay.
pub proof fn lemma_holds_position_push(s: Seq<Node>, n: Node, q: Point)
    ensures
        holds_position(s.push(n), q) <==> (holds_position(s, q) || n.position == q),
{
    if holds_position(s.push(n), q) {
        let w = choose|w: int| 0 <= w < s.push(n).len() && s.push(n)[w].position == q;
        if w < s.len() {
            assert(s[w].position == q);
        }
    }
    if holds_position(s, q) {
        let w = choose|w: int| 0 <= w < s.len() && s[w].position == q;
        assert(s.push(n)[w].position == q);
    }
    if n.position == q {
        assert(s.push(n)[s.len() as int].position == q);
    }
}

/// Screening the four children only ever adds frontier positions and
/// never lengthens the shortest node on one: whatever position the
/// frontier held after the pop, with whatever path length, it still holds
/// at the end, and each child's position is present within the child's own
/// length if its screening let it in. `f1` is the frontier after the pop,
/// `f2` to `f5` after each screening.
pub proof fn lemma_frontier_round(
    b: Board,
    f1: Seq<Node>,
    f2: Seq<Node>,
    f3: Seq<Node>,
    f4: Seq<Node>,
    f5: Seq<Node>,
    e1: Seq<Node>,
    c0: Node,
    c1: Node,
    c2: Node,
    c3: Node,
)
    requires
        forall|q: Point, l: int|
            holds_position_within(f1, q, l) ==> #[trigger] holds_position_within(f2, q, l),
        forall|q: Point, l: int|
            holds_position_within(f2, q, l) ==> #[trigger] holds_position_within(f3, q, l),
        forall|q: Point, l: int|
            holds_position_within(f3, q, l) ==> #[trigger] holds_position_within(f4, q, l),
        forall|q: Point, l: int|
            holds_position_within(f4, q, l) ==> #[trigger] holds_position_within(f5, q, l),
        b.spec_in_bounds(c0.position) && !b.spec_blocked(c0.position) && !holds_position(
            e1,
            c0.position,
        ) ==> holds_position_within(f2, c0.position, c0.length as int),
        b.spec_in_bounds(c1.position) && !b.spec_blocked(c1.position) && !holds_position(
            e1,
            c1.position,
        ) ==> holds_position_within(f3, c1.position, c1.length as int),
        b.spec_in_bounds(c2.position) && !b.spec_blocked(c2.position) && !holds_position(
            e1,
            c2.position,
        ) ==> holds_position_within(f4, c2.position, c2.length as int),
        b.spec_in_bounds(c3.position) && !b.spec_blocked(c3.position) && !holds_position(
            e1,
            c3.position,
        ) ==> holds_position_within(f5, c3.position, c3.length as int),
    ensures
        forall|q: Point, l: int|
            holds_position_within(f1, q, l) ==> #[trigger] holds_position_within(f5, q, l),
        b.spec_in_bounds(c0.position) && !b.spec_blocked(c0.position) && !holds_position(
            e1,
            c0.position,
        ) ==> holds_position_within(f5, c0.position, c0.length as int),
        b.spec_in_bounds(c1.position) && !b.spec_blocked(c1.position) && !holds_position(
            e1,
            c1.position,
        ) ==> holds_position_within(f5, c1.position, c1.length as int),
        b.spec_in_bounds(c2.position) && !b.spec_blocked(c2.position) && !holds_position(
            e1,
            c2.position,
        ) ==> holds_position_within(f5, c2.position, c2.length as int),
        b.spec_in_bounds(c3.position) && !b.spec_blocked(c3.position) && !holds_position(
            e1,
            c3.position,
        ) ==> holds_position_within(f5, c3.position, c3.length as int),
{
    assert forall|q: Point, l: int| holds_position_within(f1, q, l) implies holds_position_within(
        f5,
        q,
        l,
    ) by {
        assert(holds_position_within(f2, q, l));
        assert(holds_position_within(f3, q, l));
        assert(holds_position_within(f4, q, l));
    }
    if b.spec_in_bounds(c0.position) && !b.spec_blocked(c0.position) && !holds_position(
        e1,
        c0.position,
    ) {
        assert(holds_position_within(f3, c0.position, c0.length as int));
        assert(holds_position_within(f4, c0.position, c0.length as int));
        assert(holds_position_within(f5, c0.position, c0.length as int));
    }
    if b.spec_in_bounds(c1.position) && !b.spec_blocked(c1.position) && !holds_position(
        e1,
        c1.position,
    ) {
        assert(holds_position_within(f4, c1.position, c1.length as int));
        assert(holds_position_within(f5, c1.position, c1.length as int));
    }
    if b.spec_in_bounds(c2.position) && !b.spec_blocked(c2.position) && !holds_position(
        e1,
        c2.position,
    ) {
        assert(holds_position_within(f5, c2.position, c2.length as int));
    }
}

/// The node's walk revisits no cell, and every cell of the walk except
/// its tip is an explored position: the search explored its way there.
pub open spec fn node_trace_ok(start: Point, explored: Seq<Node>, n: Node) -> bool {
    &&& simple_path(start, n.path@)
    &&& forall|i: int|
        0 <= i < n.path@.len() ==> holds_position(explored, #[trigger] cell_at(start, n.path@, i))
}

pub open spec fn all_trace_ok(start: Point, explored: Seq<Node>, s: Seq<Node>) -> bool {
    forall|k: int| 0 <= k < s.len() ==> node_trace_ok(start, explored, #[trigger] s[k])
}

/// Growing the explored set never breaks a node's trace.
pub proof fn lemma_trace_ok_explored_push(start: Point, e0: Seq<Node>, m: Node, s: Seq<Node>)
    requires
        all_trace_ok(start, e0, s),
    ensures
        all_trace_ok(start, e0.push(m), s),
{
    assert forall|k: int| 0 <= k < s.len() implies node_trace_ok(
        start,
        e0.push(m),
        #[trigger] s[k],
    ) by {
        assert(node_trace_ok(start, e0, s[k]));
        assert forall|i: int| 0 <= i < s[k].path@.len() implies holds_position(
            e0.push(m),
            #[trigger] cell_at(start, s[k].path@, i),
        ) by {
            lemma_holds_position_push(e0, m, cell_at(start, s[k].path@, i));
        }
    }
}

/// Popping the best node keeps every remaining node's trace, and the
/// popped node's own trace holds of the explored set it leaves behind.
pub proof fn lemma_trace_after_pop(
    start: Point,
    ex: Seq<Node>,
    f0: Seq<Node>,
    f1: Seq<Node>,
    goal: Point,
)
    requires
        f0.len() > 0,
        all_trace_ok(start, ex, f0),
        f1 == f0.update(min_score_index(f0, goal), f0.last()).drop_last(),
    ensures
        all_trace_ok(start, ex, f1),
        node_trace_ok(start, ex, f0[min_score_index(f0, goal)]),
{
    let k = min_score_index(f0, goal);
    lemma_min_score_index_props(f0, goal);
    assert(f0.last() == f0[f0.len() - 1]);
    assert forall|i: int| 0 <= i < f1.len() implies node_trace_ok(
        start,
        ex,
        #[trigger] f1[i],
    ) by {
        let a = origin_index(f0.len() as int, k, i);
        assert(f1[i] == f0[a]);
        assert(node_trace_ok(start, ex, f0[a]));
    }
}

/// A freshly expanded child's walk runs through explored cells only, its
/// parent's tip included, and its prefix revisits none of them.
pub proof fn lemma_child_trace(start: Point, e0: Seq<Node>, e1: Seq<Node>, m: Node, c: Node)
    requires
        simple_path(start, m.path@),
        forall|i: int|
            0 <= i < m.path@.len() ==> holds_position(e0, #[trigger] cell_at(start, m.path@, i)),
        m.position == path_end(start, m.path@),
        c.path@ == m.path@.push(c.position),
        e1 == e0.push(m),
    ensures
        simple_path(start, c.path@.drop_last()),
        forall|i: int|
            0 <= i < c.path@.len() ==> holds_position(e1, #[trigger] cell_at(start, c.path@, i)),
{
    assert(c.path@.drop_last() =~= m.path@);
    assert forall|i: int| 0 <= i < c.path@.len() implies holds_position(
        e1,
        #[trigger] cell_at(start, c.path@, i),
    ) by {
        assert(cell_at(start, c.path@, i) == cell_at(start, m.path@, i));
        if i < m.path@.len() {
            lemma_holds_position_push(e0, m, cell_at(start, m.path@, i));
        } else {
            assert(cell_at(start, m.path@, i) == path_end(start, m.path@));
            lemma_holds_position_push(e0, m, m.position);
        }
    }
}

/// After the four children are screened, the frontier holds the walk's
/// next cell within one step more than the popped node took: the child on
/// that cell entered the frontier, or a node at least as short already
/// stood there.
pub proof fn lemma_child_present_bound(
    b: Board,
    f5: Seq<Node>,
    e1: Seq<Node>,
    m: Node,
    c0: Node,
    c1: Node,
    c2: Node,
    c3: Node,
    nc: Point,
    j: int,
)
    requires
        b.spec_in_bounds(nc),
        !b.spec_blocked(nc),
        !holds_position(e1, nc),
        nc == c0.position || nc == c1.position || nc == c2.position || nc == c3.position,
        b.spec_in_bounds(c0.position) && !b.spec_blocked(c0.position) && !holds_position(
            e1,
            c0.position,
        ) ==> holds_position_within(f5, c0.position, c0.length as int),
        b.spec_in_bounds(c1.position) && !b.spec_blocked(c1.position) && !holds_position(
            e1,
            c1.position,
        ) ==> holds_position_within(f5, c1.position, c1.length as int),
        b.spec_in_bounds(c2.position) && !b.spec_blocked(c2.position) && !holds_position(
            e1,
            c2.position,
        ) ==> holds_position_within(f5, c2.position, c2.length as int),
        b.spec_in_bounds(c3.position) && !b.spec_blocked(c3.position) && !holds_position(
            e1,
            c3.position,
        ) ==> holds_position_within(f5, c3.position, c3.length as int),
        c0.length == m.length + 1,
        c1.length == m.length + 1,
        c2.length == m.length + 1,
        c3.length == m.length + 1,
        m.length <= j,
    ensures
        holds_position_within(f5, nc, j + 1),
{
    assert(holds_position_within(f5, nc, m.length + 1)) by {
        if nc == c0.position {
            assert(holds_position_within(f5, nc, c0.length as int));
        } else if nc == c1.position {
            assert(holds_position_within(f5, nc, c1.length as int));
        } else if nc == c2.position {
            assert(holds_position_within(f5, nc, c2.length as int));
        } else {
            assert(holds_position_within(f5, nc, c3.length as int));
        }
    }
    let w = choose|w: int|
        0 <= w < f5.len() && (#[trigger] f5[w]).position == nc && f5[w].length <= m.length + 1;
    assert(f5[w].position == nc && f5[w].length <= j + 1);
}

/// A guard whose walk runs through the popped node's position moves one
/// step past it, keeping its length bound: the popped node took at most as
/// many steps as the walk needs to reach its cell, so its child on the
/// walk's next cell is within that cell's step count.
pub proof fn lemma_guard_moved(
    b: Board,
    start: Point,
    goal: Point,
    f0: Seq<Node>,
    f5: Seq<Node>,
    e0: Seq<Node>,
    e1: Seq<Node>,
    m: Node,
    c0: Node,
    c1: Node,
    c2: Node,
    c3: Node,
    p: Seq<Point>,
    gi: int,
    j: int,
)
    requires
        valid_path(b, start, p),
        simple_path(start, p),
        0 <= gi <= j < p.len(),
        cell_at(start, p, j) == m.position,
        holds_position_within(f0, cell_at(start, p, gi), gi),
        forall|t: int| gi < t <= p.len() ==> !holds_position(e0, #[trigger] cell_at(start, p, t)),
        e1 == e0.push(m),
        forall|k: int|
            0 <= k < f0.len() ==> score_spec(m, goal) <= score_spec(#[trigger] f0[k], goal),
        b.spec_in_bounds(c0.position) && !b.spec_blocked(c0.position) && !holds_position(
            e1,
            c0.position,
        ) ==> holds_position_within(f5, c0.position, c0.length as int),
        b.spec_in_bounds(c1.position) && !b.spec_blocked(c1.position) && !holds_position(
            e1,
            c1.position,
        ) ==> holds_position_within(f5, c1.position, c1.length as int),
        b.spec_in_bounds(c2.position) && !b.spec_blocked(c2.position) && !holds_position(
            e1,
            c2.position,
        ) ==> holds_position_within(f5, c2.position, c2.length as int),
        b.spec_in_bounds(c3.position) && !b.spec_blocked(c3.position) && !holds_position(
            e1,
            c3.position,
        ) ==> holds_position_within(f5, c3.position, c3.length as int),
        c0.position.x == m.position.x && c0.position.y == m.position.y - 1,
        c1.position.x == m.position.x + 1 && c1.position.y == m.position.y,
        c2.position.x == m.position.x && c2.position.y == m.position.y + 1,
        c3.position.x == m.position.x - 1 && c3.position.y == m.position.y,
        c0.length == m.length + 1,
        c1.length == m.length + 1,
        c2.length == m.length + 1,
        c3.length == m.length + 1,
    ensures
        guard_at(f5, e1, start, p, j + 1),
{
    reveal(simple_path);
    lemma_popped_on_walk_bound(b, start, goal, f0, m, p, gi, j);
    let nc = cell_at(start, p, j + 1);
    assert(nc == p[j]);
    assert(b.spec_in_bounds(nc) && !b.spec_blocked(nc));
    assert(adjacent(cell_at(start, p, j), p[j]));
    assert(nc != m.position);
    assert(!holds_position(e0, nc));
    lemma_holds_position_push(e0, m, nc);
    assert(!holds_position(e1, nc));
    assert(nc == c0.position || nc == c1.position || nc == c2.position || nc == c3.position);
    lemma_child_present_bound(b, f5, e1, m, c0, c1, c2, c3, nc, j);
    assert forall|t: int| j + 1 < t <= p.len() implies !holds_position(
        e1,
        cell_at(start, p, t),
    ) by {
        assert(!holds_position(e0, cell_at(start, p, t)));
        assert(cell_at(start, p, j) != cell_at(start, p, t));
        lemma_holds_position_push(e0, m, cell_at(start, p, t));
    }
}

/// Decides whether the walk `p` stands on position `q` at some step `t0`
/// or later, and if so at which step.
pub proof fn lemma_find_touch(start: Point, p: Seq<Point>, q: Point, t0: int) -> (r: (bool, int))
    requires
        0 <= t0,
    ensures
        r.0 ==> t0 <= r.1 <= p.len() && cell_at(start, p, r.1) == q,
        !r.0 ==> forall|t: int| t0 <= t <= p.len() ==> #[trigger] cell_at(start, p, t) != q,
    decreases p.len() + 1 - t0,
{
    if t0 > p.len() {
        (false, 0)
    } else if cell_at(start, p, t0) == q {
        (true, t0)
    } else {
        lemma_find_touch(start, p, q, t0 + 1)
    }
}

/// A guard whose walk never touches the popped node's position keeps its
/// place and its length bound: the guarding node survives the round, and
/// the popped position explores no cell of the walk's tail.
pub proof fn lemma_guard_kept(
    f0: Seq<Node>,
    f5: Seq<Node>,
    e0: Seq<Node>,
    e1: Seq<Node>,
    m: Node,
    start: Point,
    p: Seq<Point>,
    gi: int,
)
    requires
        guard_at(f0, e0, start, p, gi),
        forall|t: int| gi <= t <= p.len() ==> #[trigger] cell_at(start, p, t) != m.position,
        e1 == e0.push(m),
        forall|q: Point, l: int|
            holds_position_within(f0, q, l) && q != m.position
                ==> #[trigger] holds_position_within(f5, q, l),
    ensures
        guard_at(f5, e1, start, p, gi),
{
    assert(cell_at(start, p, gi) != m.position);
    assert(holds_position_within(f0, cell_at(start, p, gi), gi));
    assert(holds_position_within(f5, cell_at(start, p, gi), gi));
    assert forall|t: int| gi < t <= p.len() implies !holds_position(
        e1,
        cell_at(start, p, t),
    ) by {
        assert(!holds_position(e0, cell_at(start, p, t)));
        assert(cell_at(start, p, t) != m.position);
        lemma_holds_position_push(e0, m, cell_at(start, p, t));
    }
}

/// One round of the search keeps one simple walk to the goal guarded.
/// `f0` is the frontier before the best node `m` was popped, `f5` the
/// frontier after `m`'s four children `c0` to `c3` were screened, and `e1`
/// the explored set with `m` added.
#[verifier::rlimit(100)]
#[verifier::spinoff_prover]
pub proof fn lemma_guard_maintained_one(
    b: Board,
    start: Point,
    goal: Point,
    f0: Seq<Node>,
    f5: Seq<Node>,
    e0: Seq<Node>,
    e1: Seq<Node>,
    m: Node,
    c0: Node,
    c1: Node,
    c2: Node,
    c3: Node,
    p: Seq<Point>,
)
    requires
        m.position != goal,
        e1 == e0.push(m),
        forall|k: int|
            0 <= k < f0.len() ==> score_spec(m, goal) <= score_spec(#[trigger] f0[k], goal),
        forall|q: Point, l: int|
            holds_position_within(f0, q, l) && q != m.position
                ==> #[trigger] holds_position_within(f5, q, l),
        b.spec_in_bounds(c0.position) && !b.spec_blocked(c0.position) && !holds_position(
            e1,
            c0.position,
        ) ==> holds_position_within(f5, c0.position, c0.length as int),
        b.spec_in_bounds(c1.position) && !b.spec_blocked(c1.position) && !holds_position(
            e1,
            c1.position,
        ) ==> holds_position_within(f5, c1.position, c1.length as int),
        b.spec_in_bounds(c2.position) && !b.spec_blocked(c2.position) && !holds_position(
            e1,
            c2.position,
        ) ==> holds_position_within(f5, c2.position, c2.length as int),
        b.spec_in_bounds(c3.position) && !b.spec_blocked(c3.position) && !holds_position(
            e1,
            c3.position,
        ) ==> holds_position_within(f5, c3.position, c3.length as int),
        c0.position.x == m.position.x && c0.position.y == m.position.y - 1,
        c1.position.x == m.position.x + 1 && c1.position.y == m.position.y,
        c2.position.x == m.position.x && c2.position.y == m.position.y + 1,
        c3.position.x == m.position.x - 1 && c3.position.y == m.position.y,
        c0.length == m.length + 1,
        c1.length == m.length + 1,
        c2.length == m.length + 1,
        c3.length == m.length + 1,
        valid_path(b, start, p),
        path_end(start, p) == goal,
        simple_path(start, p),
        guards(f0, e0, start, p),
    ensures
        guards(f5, e1, start, p),
{
    let gi = choose|gi: int| guard_at(f0, e0, start, p, gi);
    assert(cell_at(start, p, p.len() as int) == path_end(start, p));
    if exists|j: int| gi <= j <= p.len() && cell_at(start, p, j) == m.position {
        let j = choose|j: int| gi <= j <= p.len() && cell_at(start, p, j) == m.position;
        assert(j < p.len());
        lemma_guard_moved(b, start, goal, f0, f5, e0, e1, m, c0, c1, c2, c3, p, gi, j);
        assert(guard_at(f5, e1, start, p, j + 1));
    } else {
        lemma_guard_kept(f0, f5, e0, e1, m, start, p, gi);
        assert(guard_at(f5, e1, start, p, gi));
    }
}

/// One round of the search keeps every simple walk to the goal guarded.
pub proof fn lemma_guards_maintained(
    b: Board,
    start: Point,
    goal: Point,
    f0: Seq<Node>,
    f5: Seq<Node>,
    e0: Seq<Node>,
    e1: Seq<Node>,
    m: Node,
    c0: Node,
    c1: Node,
    c2: Node,
    c3: Node,
)
    requires
        all_guarded(b, f0, e0, start, goal),
        m.position != goal,
        e1 == e0.push(m),
        forall|k: int|
            0 <= k < f0.len() ==> score_spec(m, goal) <= score_spec(#[trigger] f0[k], goal),
        forall|q: Point, l: int|
            holds_position_within(f0, q, l) && q != m.position
                ==> #[trigger] holds_position_within(f5, q, l),
        b.spec_in_bounds(c0.position) && !b.spec_blocked(c0.position) && !holds_position(
            e1,
            c0.position,
        ) ==> holds_position_within(f5, c0.position, c0.length as int),
        b.spec_in_bounds(c1.position) && !b.spec_blocked(c1.position) && !holds_position(
            e1,
            c1.position,
        ) ==> holds_position_within(f5, c1.position, c1.length as int),
        b.spec_in_bounds(c2.position) && !b.spec_blocked(c2.position) && !holds_position(
            e1,
            c2.position,
        ) ==> holds_position_within(f5, c2.position, c2.length as int),
        b.spec_in_bounds(c3.position) && !b.spec_blocked(c3.position) && !holds_position(
            e1,
            c3.position,
        ) ==> holds_position_within(f5, c3.position, c3.length as int),
        c0.position.x == m.position.x && c0.position.y == m.position.y - 1,
        c1.position.x == m.position.x + 1 && c1.position.y == m.position.y,
        c2.position.x == m.position.x && c2.position.y == m.position.y + 1,
        c3.position.x == m.position.x - 1 && c3.position.y == m.position.y,
        c0.length == m.length + 1,
        c1.length == m.length + 1,
        c2.length == m.length + 1,
        c3.length == m.length + 1,
    ensures
        all_guarded(b, f5, e1, start, goal),
{
    assert forall|p: Seq<Point>|
        valid_path(b, start, p) && path_end(start, p) == goal && simple_path(start, p)
            implies #[trigger] guards(f5, e1, start, p) by {
        assert(guards(f0, e0, start, p));
        lemma_guard_maintained_one(b, start, goal, f0, f5, e0, e1, m, c0, c1, c2, c3, p);
    }
}

/// When the node popped with minimal score stands on the goal, no legal
/// walk to the goal is shorter than its path: every such walk is guarded,
/// the guard's score is at most the walk's length by the Manhattan
/// estimate's consistency, and the popped node's score - its bare length,
/// the estimate at the goal being zero - is at most the guard's.
pub proof fn lemma_popped_goal_minimal(
    b: Board,
    start: Point,
    goal: Point,
    f0: Seq<Node>,
    e0: Seq<Node>,
    m: Node,
    q: Seq<Point>,
)
    requires
        all_guarded(b, f0, e0, start, goal),
        f0.len() > 0,
        m == f0[min_score_index(f0, goal)],
        m.position == goal,
        valid_path(b, start, q),
        path_end(start, q) == goal,
    ensures
        m.length <= q.len(),
{
    lemma_min_score_index_props(f0, goal);
    lemma_simple_path_exists(b, start, goal, q);
    let q2 = choose|q2: Seq<Point>|
        valid_path(b, start, q2) && path_end(start, q2) == goal && q2.len() <= q.len()
            && #[trigger] simple_path(start, q2);
    assert(guards(f0, e0, start, q2));
    let gi = choose|gi: int| guard_at(f0, e0, start, q2, gi);
    assert(cell_at(start, q2, q2.len() as int) == goal);
    lemma_popped_on_walk_bound(b, start, goal, f0, m, q2, gi, q2.len() as int);
}

/// A freshly expanded child is ready for screening: it extends its
/// parent's legal walk by one adjacent step onto its own position.
pub proof fn lemma_child_ready(b: Board, start: Point, parent: Node, c: Node)
    requires
        valid_node(b, start, parent),
        c.path@ == parent.path@.push(c.position),
        c.length == parent.length + 1,
        adjacent(parent.position, c.position),
    ensures
        c.length == c.path@.len(),
        c.path@.len() > 0,
        c.position == c.path@.last(),
        valid_path(b, start, c.path@.drop_last()),
        adjacent(path_end(start, c.path@.drop_last()), c.position),
{
    assert(c.path@.drop_last() =~= parent.path@);
}

/// An unexplored tip extends a fully explored simple prefix into a simple
/// walk: the tip cannot coincide with any explored cell of the prefix.
pub proof fn lemma_child_simple(start: Point, explored: Seq<Node>, child: Node)
    requires
        child.path@.len() > 0,
        child.position == child.path@.last(),
        simple_path(start, child.path@.drop_last()),
        forall|i: int|
            0 <= i < child.path@.len() ==> holds_position(
                explored,
                #[trigger] cell_at(start, child.path@, i),
            ),
        !holds_position(explored, child.position),
    ensures
        node_trace_ok(start, explored, child),
{
    reveal(simple_path);
    let cl = child.path@.len() as int;
    assert(child.position == cell_at(start, child.path@, cl));
    assert forall|i: int, j: int|
        0 <= i < j <= child.path@.len() implies #[trigger] cell_at(start, child.path@, i)
        != #[trigger] cell_at(start, child.path@, j) by {
        let dl = child.path@.drop_last();
        if j < cl {
            assert(cell_at(start, child.path@, i) == cell_at(start, dl, i));
            assert(cell_at(start, child.path@, j) == cell_at(start, dl, j));
        } else {
            assert(holds_position(explored, cell_at(start, child.path@, i)));
            assert(cell_at(start, child.path@, j) == child.position);
        }
    }
}

impl Board {
    /// Folds one candidate child into the frontier: a child whose position
    /// was already explored is dropped; one whose position is already on the
    /// frontier replaces the incumbent only when its score is strictly
    /// lower; any other child joins the frontier as a new entry.
    #[verifier::rlimit(100)]
    #[verifier::spinoff_prover]
    fn offer(
        &self,
        frontier: &mut Vec<Node>,
        explored: &Vec<Node>,
        child: Node,
        goal: &Point,
        Ghost(start): Ghost<Point>,
    )
        requires
            all_valid(*self, start, old(frontier)@),
            positions_distinct(old(frontier)@),
            disjoint_positions(old(frontier)@, explored@),
            all_trace_ok(start, explored@, old(frontier)@),
            valid_node(*self, start, child),
            self.spec_in_bounds(child.position),
            child.path@.len() > 0,
            simple_path(start, child.path@.drop_last()),
            forall|i: int|
                0 <= i < child.path@.len() ==> holds_position(
                    explored@,
                    #[trigger] cell_at(start, child.path@, i),
                ),
        ensures
            all_valid(*self, start, final(frontier)@),
            positions_distinct(final(frontier)@),
            disjoint_positions(final(frontier)@, explored@),
            all_trace_ok(start, explored@, final(frontier)@),
            forall|q: Point, l: int|
                holds_position_within(old(frontier)@, q, l) ==> #[trigger] holds_position_within(
                    final(frontier)@,
                    q,
                    l,
                ),
            !holds_position(explored@, child.position) ==> holds_position_within(
                final(frontier)@,
                child.position,
                child.length as int,
            ),
    {
        if contains_position(explored, &child.position) {
            return ;
        }
        proof {
            lemma_child_simple(start, explored@, child);
        }
        let found = find_position(frontier, &child.position);
        match found {
            Option::Some(i) => {
                let child_score = child.score(goal);
                let incumbent_score = frontier[i].score(goal);
                if child_score < incumbent_score {
                    let ghost f0 = frontier@;
                    frontier[i] = child;
                    proof {
                        assert forall|a: int, c: int|
                            0 <= a < c < frontier@.len() implies (
                        #[trigger] frontier@[a]).position != (#[trigger] frontier@[c]).position by {
                            assert(f0[a].position != f0[c].position);
                        }
                        assert forall|q: Point, l: int| holds_position_within(
                            f0,
                            q,
                            l,
                        ) implies holds_position_within(frontier@, q, l) by {
                            let w = choose|w: int|
                                0 <= w < f0.len() && (#[trigger] f0[w]).position == q
                                    && f0[w].length <= l;
                            if w == i {
                                assert(child.length < f0[w].length);
                                assert(frontier@[w].position == q && frontier@[w].length <= l);
                            } else {
                                assert(frontier@[w].position == q && frontier@[w].length <= l);
                            }
                        }
                        assert(frontier@[i as int].position == child.position
                            && frontier@[i as int].length <= child.length);
                        assert forall|k: int| 0 <= k < frontier@.len() implies node_trace_ok(
                            start,
                            explored@,
                            #[trigger] frontier@[k],
                        ) by {
                            if k != i {
                                assert(frontier@[k] == f0[k]);
                            }
                        }
                    }
                } else {
                    proof {
                        assert(frontier@[i as int].position == child.position
                            && frontier@[i as int].length <= child.length);
                    }
                }
            },
            Option::None => {
                let ghost f0 = frontier@;
                frontier.push(child);
                proof {
                    assert forall|q: Point, l: int| holds_position_within(
                        f0,
                        q,
                        l,
                    ) implies holds_position_within(frontier@, q, l) by {
                        let w = choose|w: int|
                            0 <= w < f0.len() && (#[trigger] f0[w]).position == q && f0[w].length
                                <= l;
                        assert(frontier@[w].position == q && frontier@[w].length <= l);
                    }
                    assert(frontier@[frontier@.len() - 1].position == child.position
                        && frontier@[frontier@.len() - 1].length <= child.length);
                    assert forall|k: int| 0 <= k < frontier@.len() implies node_trace_ok(
                        start,
                        explored@,
                        #[trigger] frontier@[k],
                    ) by {
                        if k < f0.len() {
                            assert(frontier@[k] == f0[k]);
                        } else {
                            assert(frontier@[k] == child);
                        }
                    }
                }
            },
        }
    }

    /// The sole entry point of the search: a shortest-path attempt from
    /// `start` to `goal`. `Some(path)` lists the coordinates from the cell
    /// after `start` through `goal` inclusive; `None` reports that no legal
    /// walk reaches `goal`, an expected outcome and not a defect.
    #[verifier::loop_isolation(false)]
    #[verifier::rlimit(100)]
    pub fn pathfind(&self, start: &Point, goal: &Point) -> (r: Option<Vec<Point>>)
        requires
            self.wf(),
            self.width <= i32::MAX,
            self.height <= i32::MAX,
            i32::MIN < start.x < i32::MAX,
            i32::MIN < start.y < i32::MAX,
        ensures
            match r {
                Option::Some(p) => {
                    &&& valid_path(*self, *start, p@)
                    &&& path_end(*start, p@) == *goal
                    &&& simple_path(*start, p@)
                    &&& (p@.len() == 0 <==> *start == *goal)
                    &&& forall|q: Seq<Point>|
                        #[trigger] valid_path(*self, *start, q) && path_end(*start, q) == *goal
                            ==> p@.len() <= q.len()
                },
                Option::None => *start != *goal,
            },
            r is Some ==> reachable(*self, *start, *goal),
            !reachable(*self, *start, *goal) ==> r is None,
            r is None ==> !reachable(*self, *start, *goal),
    {
        let mut frontier: Vec<Node> = Vec::new();
        frontier.push(Node { position: Point { x: start.x, y: start.y }, path: Vec::new(), length: 0 });
        let mut explored: Vec<Node> = Vec::new();

        proof {
            assert(frontier@[0].position == *start);
            assert forall|p: Seq<Point>|
                valid_path(*self, *start, p) && path_end(*start, p) == *goal && simple_path(
                    *start,
                    p,
                ) implies #[trigger] guards(frontier@, explored@, *start, p) by {
                assert(cell_at(*start, p, 0) == *start);
                assert(frontier@[0].length <= 0);
                assert(holds_position_within(frontier@, *start, 0));
                assert(guard_at(frontier@, explored@, *start, p, 0));
            }
            assert(node_trace_ok(*start, explored@, frontier@[0])) by {
                reveal(simple_path);
            }
        }
        loop
            invariant
                all_valid(*self, *start, frontier@),
                positions_distinct(frontier@),
                all_pos_ok(*self, *start, explored@),
                positions_distinct(explored@),
                disjoint_positions(frontier@, explored@),
                all_trace_ok(*start, explored@, frontier@),
                all_guarded(*self, frontier@, explored@, *start, *goal),
                *start == *goal ==> {
                    &&& frontier@.len() == 1
                    &&& frontier@[0].position == *start
                    &&& frontier@[0].path@.len() == 0
                },
            decreases self.width * self.height + 1 - explored@.len(),
        {
            proof {
                lemma_distinct_positions_len_bound(*self, *start, explored@);
            }
            if frontier.len() == 0 {
                proof {
                    if reachable(*self, *start, *goal) {
                        let p0 = choose|p0: Seq<Point>|
                            valid_path(*self, *start, p0) && path_end(*start, p0) == *goal;
                        lemma_simple_path_exists(*self, *start, *goal, p0);
                        let q = choose|q: Seq<Point>|
                            valid_path(*self, *start, q) && path_end(*start, q) == *goal
                                && q.len() <= p0.len() && #[trigger] simple_path(*start, q);
                        assert(guards(frontier@, explored@, *start, q));
                        let gi = choose|gi: int| guard_at(frontier@, explored@, *start, q, gi);
                        assert(holds_position_within(frontier@, cell_at(*start, q, gi), gi));
                        assert(false);
                    }
                }
                return None;
            }

            let ghost f0 = frontier@;
            let smallest = pop_smallest(&mut frontier, goal);
            proof {
                lemma_frontier_after_pop(*self, *start, f0, frontier@, explored@, *goal);
                lemma_trace_after_pop(*start, explored@, f0, frontier@, *goal);
                lemma_valid_node_pos_ok(*self, *start, smallest);
            }

            if smallest.position.x == goal.x && smallest.position.y == goal.y {
                proof {
                    assert(smallest.position == *goal);
                    assert(valid_path(*self, *start, smallest.path@) && path_end(
                        *start,
                        smallest.path@,
                    ) == *goal);
                    if *start == *goal {
                        assert(smallest == f0[min_score_index(f0, *goal)]);
                        assert(f0.len() == 1 && min_score_index(f0, *goal) == 0);
                    }
                    assert forall|q: Seq<Point>|
                        #[trigger] valid_path(*self, *start, q) && path_end(*start, q)
                            == *goal implies smallest.path@.len() <= q.len() by {
                        lemma_popped_goal_minimal(
                            *self,
                            *start,
                            *goal,
                            f0,
                            explored@,
                            smallest,
                            q,
                        );
                    }
                }
                return Some(smallest.path);
            }

            proof {
                if *start == *goal {
                    assert(f0.len() == 1 && min_score_index(f0, *goal) == 0);
                    assert(smallest.position == *start);
                    assert(false);
                }
                if smallest.position != *start {
                    assert(self.spec_in_bounds(smallest.position));
                }
            }
            let children = smallest.children();
            let ghost e0 = explored@;
            explored.push(smallest);
            proof {
                lemma_explored_after_push(*self, *start, frontier@, e0, explored@, smallest);
                lemma_trace_ok_explored_push(*start, e0, smallest, frontier@);
            }

            let ghost ch = children@;
            let mut children = children;
            let c0 = children.remove(0);
            let c1 = children.remove(0);
            let c2 = children.remove(0);
            let c3 = children.remove(0);
            proof {
                assert(c0 == ch[0] && c1 == ch[1] && c2 == ch[2] && c3 == ch[3]);
                assert(adjacent(smallest.position, c0.position));
                assert(adjacent(smallest.position, c1.position));
                assert(adjacent(smallest.position, c2.position));
                assert(adjacent(smallest.position, c3.position));
                lemma_child_ready(*self, *start, smallest, c0);
                lemma_child_ready(*self, *start, smallest, c1);
                lemma_child_ready(*self, *start, smallest, c2);
                lemma_child_ready(*self, *start, smallest, c3);
                lemma_child_trace(*start, e0, explored@, smallest, c0);
                lemma_child_trace(*start, e0, explored@, smallest, c1);
                lemma_child_trace(*start, e0, explored@, smallest, c2);
                lemma_child_trace(*start, e0, explored@, smallest, c3);
            }
            let ghost f1 = frontier@;
            self.screen(&mut frontier, &explored, c0, goal, Ghost(*start));
            let ghost f2 = frontier@;
            self.screen(&mut frontier, &explored, c1, goal, Ghost(*start));
            let ghost f3 = frontier@;
            self.screen(&mut frontier, &explored, c2, goal, Ghost(*start));
            let ghost f4 = frontier@;
            self.screen(&mut frontier, &explored, c3, goal, Ghost(*start));

            proof {
                lemma_distinct_positions_len_bound(*self, *start, explored@);
                lemma_frontier_round(*self, f1, f2, f3, f4, frontier@, explored@, c0, c1, c2, c3);
                assert(smallest.position != *goal);
                lemma_min_score_index_props(f0, *goal);
                assert forall|q: Point, l: int|
                    holds_position_within(f0, q, l) && q != smallest.position
                    implies #[trigger] holds_position_within(frontier@, q, l) by {
                    assert(holds_position_within(f1, q, l));
                }
                lemma_guards_maintained(
                    *self,
                    *start,
                    *goal,
                    f0,
                    frontier@,
                    e0,
                    explored@,
                    smallest,
                    c0,
                    c1,
                    c2,
                    c3,
                );
            }
        }
    }

    /// Bounds- and passability-checks one candidate child, then lets
    /// `offer` fold it into the frontier. The child arrives before any
    /// filtering: all that is known is that it extends some legal walk by
    /// one adjacent step onto its own position.
    fn screen(
        &self,
        frontier: &mut Vec<Node>,
        explored: &Vec<Node>,
        child: Node,
        goal: &Point,
        Ghost(start): Ghost<Point>,
    )
        requires
            self.wf(),
            all_valid(*self, start, old(frontier)@),
            positions_distinct(old(frontier)@),
            disjoint_positions(old(frontier)@, explored@),
            all_trace_ok(start, explored@, old(frontier)@),
            child.length == child.path@.len(),
            child.path@.len() > 0,
            child.position == child.path@.last(),
            valid_path(*self, start, child.path@.drop_last()),
            adjacent(path_end(start, child.path@.drop_last()), child.position),
            simple_path(start, child.path@.drop_last()),
            forall|i: int|
                0 <= i < child.path@.len() ==> holds_position(
                    explored@,
                    #[trigger] cell_at(start, child.path@, i),
                ),
        ensures
            all_valid(*self, start, final(frontier)@),
            positions_distinct(final(frontier)@),
            disjoint_positions(final(frontier)@, explored@),
            all_trace_ok(start, explored@, final(frontier)@),
            forall|q: Point, l: int|
                holds_position_within(old(frontier)@, q, l) ==> #[trigger] holds_position_within(
                    final(frontier)@,
                    q,
                    l,
                ),
            self.spec_in_bounds(child.position) && !self.spec_blocked(child.position)
                && !holds_position(explored@, child.position) ==> holds_position_within(
                final(frontier)@,
                child.position,
                child.length as int,
            ),
    {
        if self.in_bounds(&child.position) {
            if !self.is_blocked(&child.position) {
                proof {
                    lemma_valid_path_extend(
                        *self,
                        start,
                        child.path@.drop_last(),
                        child.position,
                    );
                    assert(child.path@.drop_last().push(child.position) =~= child.path@);
                }
                self.offer(frontier, explored, child, goal, Ghost(start));
            }
        }
    }
}

/// Whether any node in `nodes` already sits on position `p`.
fn contains_position(nodes: &Vec<Node>, p: &Point) -> (r: bool)
    ensures
        r == holds_position(nodes@, *p),
{
    let mut i: usize = 0;
    while i < nodes.len()
        invariant
            i <= nodes@.len(),
            forall|j: int| 0 <= j < i ==> (#[trigger] nodes@[j]).position != *p,
        decreases nodes@.len() - i,
    {
        if nodes[i].position.x == p.x && nodes[i].position.y == p.y {
            assert(nodes@[i as int].position == *p);
            return true;
        }
        i = i + 1;
    }
    false
}

/// The index of a node on position `p`, if the frontier holds one.
fn find_position(nodes: &Vec<Node>, p: &Point) -> (r: Option<usize>)
    ensures
        match r {
            Option::Some(i) => i < nodes@.len() && nodes@[i as int].position == *p,
            Option::None => forall|j: int|
                0 <= j < nodes@.len() ==> (#[trigger] nodes@[j]).position != *p,
        },
{
    let mut i: usize = 0;
    while i < nodes.len()
        invariant
            i <= nodes@.len(),
            forall|j: int| 0 <= j < i ==> (#[trigger] nodes@[j]).position != *p,
        decreases nodes@.len() - i,
    {
        if nodes[i].position.x == p.x && nodes[i].position.y == p.y {
            return Some(i);
        }
        i = i + 1;
    }
    None
}

} // verus!
