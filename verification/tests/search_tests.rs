use gridpath::grid::{Board, Point};
use gridpath::node::Node;
use gridpath::search::pop_smallest;

fn board_from(text: &str) -> Board {
    Board::from_text(text)
}

fn point(x: i32, y: i32) -> Point {
    Point { x, y }
}

fn adjacent(a: Point, b: Point) -> bool {
    (a.x == b.x && (b.y == a.y - 1 || b.y == a.y + 1))
        || (a.y == b.y && (b.x == a.x - 1 || b.x == a.x + 1))
}

fn blocked(b: &Board, p: Point) -> bool {
    b.tiles[p.x as usize + p.y as usize * b.width]
}

/// Plain breadth-first search, the reference for shortest distances.
fn bfs_distance(b: &Board, start: Point, goal: Point) -> Option<usize> {
    if start == goal {
        return Some(0);
    }
    let w = b.width as i32;
    let h = b.height as i32;
    let mut dist = vec![usize::MAX; b.width * b.height];
    let mut queue = std::collections::VecDeque::new();
    if start.x >= 0 && start.y >= 0 && start.x < w && start.y < h {
        dist[start.x as usize + start.y as usize * b.width] = 0;
    }
    queue.push_back(start);
    while let Some(p) = queue.pop_front() {
        let d = if p.x >= 0 && p.y >= 0 && p.x < w && p.y < h {
            dist[p.x as usize + p.y as usize * b.width]
        } else {
            0
        };
        for (dx, dy) in [(0, -1), (1, 0), (0, 1), (-1, 0)] {
            let q = point(p.x + dx, p.y + dy);
            if q.x < 0 || q.y < 0 || q.x >= w || q.y >= h {
                continue;
            }
            let qi = q.x as usize + q.y as usize * b.width;
            if b.tiles[qi] || dist[qi] != usize::MAX {
                continue;
            }
            if q == goal {
                return Some(d + 1);
            }
            dist[qi] = d + 1;
            queue.push_back(q);
        }
    }
    None
}

fn check_path_valid(b: &Board, start: Point, goal: Point, path: &[Point]) {
    let w = b.width as i32;
    let h = b.height as i32;
    let mut prev = start;
    for &p in path {
        assert!(p.x >= 0 && p.y >= 0 && p.x < w && p.y < h);
        assert!(!blocked(b, p));
        assert!(adjacent(prev, p));
        prev = p;
    }
    if path.is_empty() {
        assert_eq!(start, goal);
    } else {
        assert_eq!(*path.last().unwrap(), goal);
    }
}

const RING: &str = "XXXXX\nX   X\nX X X\nX   X\nXXXXX";

const MAIN_GRID: &str = "XXXXXXXXXXXXXXXX\n\
X              X\n\
X XXXXX   XXXXXX\n\
X     X        X\n\
X     X   XXX  X\n\
X     X    X   X\n\
X         X    X\n\
X        X     X\n\
XXXXXXXXXXXXXXXX";

#[test]
fn ring_grid_shortest_path() {
    let b = board_from(RING);
    let start = point(1, 1);
    let goal = point(3, 3);
    let path = b.pathfind(&start, &goal).expect("goal is reachable");
    assert_eq!(path.len(), 4);
    check_path_valid(&b, start, goal, &path);
    for p in &path {
        assert_ne!(*p, point(2, 2));
    }
}

#[test]
fn enclosed_goal_returns_none() {
    // The goal at (2, 2) is walled in on all four sides.
    let text = "XXXXX\n\
                XXXXX\n\
                XX XX\n\
                XXXXX\n\
                XXXXX";
    let b = board_from(text);
    assert!(blocked(&b, point(2, 1)));
    assert!(blocked(&b, point(2, 3)));
    assert!(blocked(&b, point(1, 2)));
    assert!(blocked(&b, point(3, 2)));
    assert_eq!(b.pathfind(&point(0, 0), &point(2, 2)), None);
}

#[test]
fn start_equals_goal_gives_empty_path() {
    let b = board_from(RING);
    let path = b.pathfind(&point(1, 1), &point(1, 1)).expect("trivially reachable");
    assert!(path.is_empty());
}

#[test]
fn pathfind_is_deterministic() {
    let b = board_from(MAIN_GRID);
    let start = point(5, 3);
    let goal = point(11, 7);
    let first = b.pathfind(&start, &goal);
    let second = b.pathfind(&start, &goal);
    assert_eq!(first, second);
}

#[test]
fn path_length_matches_bfs() {
    let cases = [
        (RING, point(1, 1), point(3, 3)),
        (MAIN_GRID, point(5, 3), point(11, 7)),
        (MAIN_GRID, point(1, 1), point(14, 7)),
        (MAIN_GRID, point(1, 1), point(1, 1)),
    ];
    for (text, start, goal) in cases {
        let b = board_from(text);
        let expected = bfs_distance(&b, start, goal);
        let found = b.pathfind(&start, &goal);
        match (expected, found) {
            (Some(d), Some(path)) => {
                assert_eq!(path.len(), d);
                check_path_valid(&b, start, goal, &path);
            }
            (None, None) => {}
            (e, f) => panic!("reachability disagrees: bfs {:?}, search {:?}", e, f.map(|p| p.len())),
        }
    }
}

#[test]
fn unreachable_goal_on_main_grid() {
    // A goal standing on a wall is never entered: every path coordinate
    // must be passable.
    let b = board_from(MAIN_GRID);
    assert_eq!(b.pathfind(&point(1, 1), &point(0, 0)), None);
}

#[test]
fn score_is_manhattan_plus_length() {
    let n = Node {
        position: point(2, 3),
        path: vec![point(1, 3), point(2, 3)],
        length: 2,
    };
    assert_eq!(n.score(&point(7, 1)), 5 + 2 + 2);
    assert_eq!(n.score(&point(2, 3)), 2);
    let origin = Node { position: point(0, 0), path: Vec::new(), length: 0 };
    assert_eq!(origin.score(&point(-4, 6)), 10);
}

#[test]
fn children_come_in_fixed_order() {
    let n = Node {
        position: point(4, 5),
        path: vec![point(4, 5)],
        length: 1,
    };
    let kids = n.children();
    assert_eq!(kids.len(), 4);
    let expected = [point(4, 4), point(5, 5), point(4, 6), point(3, 5)];
    for (k, e) in kids.iter().zip(expected.iter()) {
        assert_eq!(k.position, *e);
        assert_eq!(k.length, 2);
        assert_eq!(k.path, vec![point(4, 5), *e]);
    }
}

#[test]
fn pop_smallest_takes_earliest_minimum() {
    let goal = point(0, 0);
    let mk = |x: i32, len: usize| Node {
        position: point(x, 0),
        path: Vec::new(),
        length: len,
    };
    // Scores against (0, 0): 5, 3, 3, 7 — the earliest 3 wins.
    let mut nodes = vec![mk(5, 0), mk(1, 2), mk(3, 0), mk(2, 5)];
    let popped = pop_smallest(&mut nodes, &goal);
    assert_eq!(popped.position, point(1, 0));
    // The last node is swapped into the freed slot.
    assert_eq!(nodes.len(), 3);
    assert_eq!(nodes[0].position, point(5, 0));
    assert_eq!(nodes[1].position, point(2, 0));
    assert_eq!(nodes[2].position, point(3, 0));
}

#[test]
fn board_new_is_all_passable() {
    let b = Board::new(4, 3);
    assert_eq!(b.width, 4);
    assert_eq!(b.height, 3);
    assert_eq!(b.tiles.len(), 12);
    assert!(b.tiles.iter().all(|t| !t));
    assert!(b.in_bounds(&point(3, 2)));
    assert!(!b.in_bounds(&point(4, 2)));
    assert!(!b.in_bounds(&point(-1, 0)));
    assert!(!b.is_blocked(&point(2, 1)));
}
