use gridpath::grid::{Board, Point};

fn point(x: i32, y: i32) -> Point {
    Point { x, y }
}

const RING: &str = "XXXXX\nX   X\nX X X\nX   X\nXXXXX";

#[test]
fn from_text_parses_ring() {
    let b = Board::from_text(RING);
    assert_eq!(b.width, 5);
    assert_eq!(b.height, 5);
    assert_eq!(b.tiles.len(), 25);
    let expected = [
        true, true, true, true, true,
        true, false, false, false, true,
        true, false, true, false, true,
        true, false, false, false, true,
        true, true, true, true, true,
    ];
    assert_eq!(b.tiles, expected.to_vec());
}

#[test]
fn from_text_empty_degenerates() {
    let b = Board::from_text("");
    assert_eq!(b.width, 0);
    assert_eq!(b.height, 0);
    assert!(b.tiles.is_empty());
}

#[test]
fn from_text_without_newline_degenerates() {
    let b = Board::from_text("XX X");
    assert_eq!(b.width, 0);
    assert_eq!(b.height, 0);
    assert!(b.tiles.is_empty());
}

#[test]
fn from_text_with_leading_newline_degenerates() {
    let b = Board::from_text("\nXXX");
    assert_eq!(b.width, 0);
    assert_eq!(b.height, 0);
    assert!(b.tiles.is_empty());
}

#[test]
fn from_text_drops_ragged_tail() {
    let b = Board::from_text("XX \nX");
    assert_eq!(b.width, 3);
    assert_eq!(b.height, 1);
    assert_eq!(b.tiles, vec![true, true, false]);
}

#[test]
fn from_text_reads_foreign_characters_as_passable() {
    let b = Board::from_text("X.X\n. .");
    assert_eq!(b.width, 3);
    // Every character except the newline is a cell; only 'X' blocks.
    assert_eq!(b.height, 2);
    assert_eq!(b.tiles, vec![true, false, true, false, false, false]);
}

#[test]
fn render_grid_matches_layout() {
    let b = Board::from_text(RING);
    let text = b.render_grid();
    assert_eq!(text.as_str(), "XXXXX\nX   X\nX X X\nX   X\nXXXXX\n");
}

#[test]
fn render_then_ingest_round_trips() {
    let b = Board::from_text(RING);
    let again = Board::from_text(b.render_grid().as_str());
    assert_eq!(again.width, b.width);
    assert_eq!(again.height, b.height);
    assert_eq!(again.tiles, b.tiles);
}

#[test]
fn marked_render_then_ingest_round_trips() {
    // The markers stand on passable cells, so the snapshot re-ingests to
    // the same blocked/passable pattern.
    let b = Board::from_text("X  \n   ");
    let again = Board::from_text(b.render(&point(1, 0), &point(2, 1)).as_str());
    assert_eq!(again.width, b.width);
    assert_eq!(again.height, b.height);
    assert_eq!(again.tiles, b.tiles);
}

#[test]
fn render_marks_walker_and_goal() {
    let b = Board::from_text("X  \n   ");
    let text = b.render(&point(1, 0), &point(2, 1));
    assert_eq!(text.as_str(), "XO \n  G\n");
}

#[test]
fn render_walker_marker_wins_over_goal() {
    let b = Board::from_text("  \n  ");
    let text = b.render(&point(0, 0), &point(0, 0));
    assert_eq!(text.as_str(), "O \n  \n");
}
