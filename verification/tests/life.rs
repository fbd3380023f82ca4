use game_of_life::cell::Cell;
use game_of_life::world::{LocationOccupied, World};

/// A deterministic grid: every coordinate populated, alive exactly at the
/// listed coordinates, with the neighbour topology resolved.
fn build_world(width: u32, height: u32, alive: &[(u32, u32)]) -> World {
    let mut w = World::empty(width, height);
    for y in 0..height {
        for x in 0..width {
            let is_alive = alive.iter().any(|&(ax, ay)| ax == x && ay == y);
            w.add_cell(x, y, is_alive).unwrap();
        }
    }
    w.prepopulate_neighbours();
    w
}

fn alive_at(w: &World, x: u32, y: u32) -> bool {
    w.cell_at(x, y).expect("coordinate must hold a cell").alive
}

#[test]
fn cell_new_sets_fields() {
    let c = Cell::new(2, 3, true);
    assert_eq!(c.x, 2);
    assert_eq!(c.y, 3);
    assert!(c.alive);
    assert!(!c.next_state);
    assert!(c.neighbours.is_empty());
}

#[test]
fn cell_to_char_symbols() {
    assert_eq!(Cell::new(0, 0, true).to_char(), 'o');
    assert_eq!(Cell::new(0, 0, false).to_char(), ' ');
}

#[test]
fn new_world_populates_every_coordinate() {
    let w = World::new(5, 4);
    assert_eq!(w.tick, 0);
    for y in 0..4 {
        for x in 0..5 {
            let c = w.cell_at(x, y).expect("every coordinate holds a cell");
            assert_eq!(c.x, x);
            assert_eq!(c.y, y);
        }
    }
}

#[test]
fn neighbour_references_follow_offsets() {
    // 3x3 grid, row-major slots: (x, y) sits at y * 3 + x.
    let w = build_world(3, 3, &[]);
    // A corner keeps only the three in-bounds offsets, in the fixed order:
    // row above first, then the sides, then the row below.
    let corner = w.cell_at(0, 0).unwrap();
    assert_eq!(corner.neighbours, vec![3, 4, 1]);
    // The centre has all eight.
    let centre = w.cell_at(1, 1).unwrap();
    assert_eq!(centre.neighbours, vec![6, 7, 8, 3, 5, 0, 1, 2]);
    // A side cell keeps five.
    let side = w.cell_at(2, 1).unwrap();
    assert_eq!(side.neighbours, vec![7, 8, 4, 1, 2]);
}

#[test]
fn alive_neighbours_counts_live_cells() {
    let w = build_world(3, 3, &[(0, 0), (1, 0), (2, 2)]);
    let centre = w.cell_at(1, 1).unwrap();
    assert_eq!(centre.alive_neighbours(&w.cells), 3);
    let corner = w.cell_at(0, 0).unwrap();
    assert_eq!(corner.alive_neighbours(&w.cells), 1);
    let side = w.cell_at(2, 1).unwrap();
    assert_eq!(side.alive_neighbours(&w.cells), 2);
}

#[test]
fn alive_neighbours_ignores_reference_order() {
    let w = build_world(3, 3, &[(0, 0), (2, 0), (1, 2)]);
    let centre = w.cell_at(1, 1).unwrap();
    let n = centre.alive_neighbours(&w.cells);
    assert_eq!(n, 3);
    // The same references in reverse order count the same cells.
    let mut reversed = Cell::new(1, 1, centre.alive);
    reversed.neighbours = centre.neighbours.iter().rev().cloned().collect();
    assert_eq!(reversed.alive_neighbours(&w.cells), n);
}

#[test]
fn alive_neighbours_skips_unresolvable_references() {
    let mut w = World::empty(2, 2);
    w.add_cell(0, 0, true).unwrap();
    // One reference resolves to a live cell, one to an unoccupied slot, one
    // to no slot at all: only the first is counted.
    let mut probe = Cell::new(1, 1, false);
    probe.neighbours = vec![0, 3, 99];
    assert_eq!(probe.alive_neighbours(&w.cells), 1);
}

#[test]
fn blinker_becomes_horizontal() {
    // 3 wide, 4 tall, a vertical line in column 1 at rows 1..=3.
    let mut w = build_world(3, 4, &[(1, 1), (1, 2), (1, 3)]);
    assert_eq!(w.render(), "   \n o \n o \n o \n");
    w.tick();
    // One generation later the line lies horizontally through the middle
    // cell (1, 2).
    assert_eq!(w.render(), "   \n   \nooo\n   \n");
    for y in 0..4 {
        for x in 0..3 {
            assert_eq!(alive_at(&w, x, y), y == 2);
        }
    }
}

#[test]
fn blinker_returns_after_two_ticks() {
    let mut w = build_world(3, 4, &[(1, 1), (1, 2), (1, 3)]);
    let before = w.render();
    w.tick();
    w.tick();
    assert_eq!(w.render(), before);
    for y in 0..4 {
        for x in 0..3 {
            assert_eq!(alive_at(&w, x, y), x == 1 && y >= 1);
        }
    }
}

#[test]
fn render_length_matches_dimensions() {
    for &(width, height) in &[(1u32, 1u32), (5, 3), (150, 40)] {
        let w = World::new(width, height);
        let text = w.render();
        assert_eq!(
            text.chars().count(),
            (width * height + height) as usize,
            "rendering a {}x{} grid",
            width,
            height
        );
    }
}

#[test]
fn add_cell_reports_occupied() {
    let mut w = World::empty(4, 4);
    assert_eq!(w.add_cell(2, 2, true), Ok(()));
    // Placing on the same coordinate is refused, and the cell already there
    // is left untouched.
    assert_eq!(w.add_cell(2, 2, false), Err(LocationOccupied(2, 2)));
    assert!(alive_at(&w, 2, 2));
    // A randomly populated world has every coordinate occupied already.
    let mut full = World::new(3, 3);
    assert_eq!(full.add_cell(0, 0, true), Err(LocationOccupied(0, 0)));
}

#[test]
fn tick_counts_generations() {
    let mut w = World::new(6, 5);
    assert_eq!(w.tick, 0);
    w.tick();
    assert_eq!(w.tick, 1);
    w.tick();
    w.tick();
    assert_eq!(w.tick, 3);
}

#[test]
fn random_world_holds_both_states() {
    // With 400 cells each alive with probability 0.20, a grid that is all
    // dead or all alive is out of reach in practice.
    let w = World::new(20, 20);
    let mut seen_alive = false;
    let mut seen_dead = false;
    for y in 0..20 {
        for x in 0..20 {
            if alive_at(&w, x, y) {
                seen_alive = true;
            } else {
                seen_dead = true;
            }
        }
    }
    assert!(seen_alive);
    assert!(seen_dead);
}

#[test]
fn empty_world_has_no_cells() {
    let w = World::empty(2, 2);
    for y in 0..2 {
        for x in 0..2 {
            assert!(w.cell_at(x, y).is_none());
        }
    }
    // Off the grid there is never a cell.
    assert!(w.cell_at(2, 0).is_none());
    assert!(w.cell_at(0, 7).is_none());
}
