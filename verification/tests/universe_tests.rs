use toroidal_life::universe::{Cell, Universe};

/// The (row, column) pairs of the alive cells, in row-major order.
fn alive_positions(u: &Universe) -> Vec<(u32, u32)> {
    let w = u.width();
    let mut out = Vec::new();
    for (i, c) in u.get_cells().iter().enumerate() {
        if *c == Cell::Alive {
            out.push((i as u32 / w, i as u32 % w));
        }
    }
    out
}

fn count_alive(u: &Universe) -> usize {
    u.get_cells().iter().filter(|c| **c == Cell::Alive).count()
}

#[test]
fn new_grid_is_128_by_128_and_dead() {
    let u = Universe::new();
    assert_eq!(u.width(), 128);
    assert_eq!(u.height(), 128);
    assert_eq!(u.get_cells().len(), 128 * 128);
    assert_eq!(count_alive(&u), 0);
}

#[test]
fn cell_toggle_roundtrip() {
    let mut c = Cell::Dead;
    c.toggle();
    assert_eq!(c, Cell::Alive);
    c.toggle();
    assert_eq!(c, Cell::Dead);
}

#[test]
fn toggle_cell_flips_and_wraps() {
    let mut u = Universe::new();
    u.toggle_cell(2, 5);
    assert_eq!(alive_positions(&u), vec![(2, 5)]);
    // 130 wraps to row 2 by the width, 133 wraps to column 5 by the height
    u.toggle_cell(130, 133);
    assert_eq!(count_alive(&u), 0);
}

#[test]
fn random_follows_the_draws() {
    let mut draws = Vec::new();
    for i in 0..(128 * 128) {
        draws.push(i % 3 == 0);
    }
    let u = Universe::random(&draws);
    assert_eq!(u.width(), 128);
    assert_eq!(u.height(), 128);
    let cells = u.get_cells();
    for i in 0..(128 * 128) {
        assert_eq!(cells[i] == Cell::Alive, i % 3 == 0);
    }
}

#[test]
fn spaceship_seeds_the_glider() {
    let u = Universe::new_spaceship();
    assert_eq!(alive_positions(&u), vec![(1, 2), (2, 3), (3, 1), (3, 2), (3, 3)]);
}

#[test]
fn set_cells_round_trip() {
    let mut u = Universe::new();
    u.toggle_cell(0, 0);
    u.set_cells(&[(1, 1), (2, 2)]);
    // the listed coordinates are alive, prior state elsewhere is untouched
    assert_eq!(alive_positions(&u), vec![(0, 0), (1, 1), (2, 2)]);
    // setting an already-alive coordinate is idempotent
    u.set_cells(&[(1, 1)]);
    assert_eq!(alive_positions(&u), vec![(0, 0), (1, 1), (2, 2)]);
}

#[test]
fn empty_grid_stays_dead() {
    let mut u = Universe::new();
    for _ in 0..6 {
        u.tick();
        assert_eq!(count_alive(&u), 0);
    }
}

#[test]
fn equal_seeds_evolve_identically() {
    let mut a = Universe::new_spaceship();
    let mut b = Universe::new_spaceship();
    for _ in 0..3 {
        a.tick();
        b.tick();
        assert_eq!(a.get_cells(), b.get_cells());
    }
    assert_eq!(a.render(), b.render());
}

#[test]
fn glider_translates_in_four_ticks() {
    let mut u = Universe::new_spaceship();
    for _ in 0..4 {
        u.tick();
    }
    // the glider reappears one row down and one column right; nothing else
    assert_eq!(alive_positions(&u), vec![(2, 3), (3, 4), (4, 2), (4, 3), (4, 4)]);
}

#[test]
fn three_cell_diagonal_fills_the_small_torus() {
    let mut u = Universe::new();
    u.set_width(3);
    u.set_height(3);
    u.set_cells(&[(0, 1), (1, 2), (2, 0)]);
    u.tick();
    // on a 3 by 3 torus every cell neighbors every other cell: each alive
    // cell sees the other two and survives, each dead cell sees three and
    // is born
    assert_eq!(count_alive(&u), 9);
    u.tick();
    // now every cell has eight live neighbors and dies of overpopulation
    assert_eq!(count_alive(&u), 0);
}

#[test]
fn live_neighbor_counts() {
    let mut u = Universe::new();
    assert_eq!(u.live_neighbor_count(5, 5), 0);
    u.set_cells(&[(4, 4), (4, 5)]);
    assert_eq!(u.live_neighbor_count(5, 5), 2);
    assert_eq!(u.live_neighbor_count(4, 4), 1);
    let mut v = Universe::new();
    v.set_cells(&[
        (9, 9),
        (9, 10),
        (9, 11),
        (10, 9),
        (10, 11),
        (11, 9),
        (11, 10),
        (11, 11),
    ]);
    assert_eq!(v.live_neighbor_count(10, 10), 8);
    let mut t = Universe::new();
    // neighbors of the corner wrap to the opposite edges
    t.set_cells(&[(127, 127), (0, 1)]);
    assert_eq!(t.live_neighbor_count(0, 0), 2);
}

#[test]
fn resize_discards_all_state() {
    let mut u = Universe::new_spaceship();
    u.tick();
    u.tick();
    u.set_width(64);
    assert_eq!(u.width(), 64);
    assert_eq!(u.height(), 128);
    assert_eq!(u.get_cells().len(), 64 * 128);
    assert_eq!(count_alive(&u), 0);
    u.toggle_cell(3, 3);
    u.set_height(16);
    assert_eq!(u.width(), 64);
    assert_eq!(u.height(), 16);
    assert_eq!(u.get_cells().len(), 64 * 16);
    assert_eq!(count_alive(&u), 0);
}

#[test]
fn render_draws_one_line_per_row() {
    let mut u = Universe::new();
    u.set_width(3);
    u.set_height(3);
    u.toggle_cell(0, 1);
    let expected = format!(
        "{d}{a}{d}\n{d}{d}{d}\n{d}{d}{d}\n",
        d = '\u{25fb}',
        a = '\u{25fc}'
    );
    assert_eq!(u.render(), expected);
}

#[test]
fn render_of_new_grid_has_full_dimensions() {
    let u = Universe::new();
    let s = u.render();
    let lines: Vec<&str> = s.split('\n').collect();
    // a trailing newline leaves one empty entry at the end
    assert_eq!(lines.len(), 129);
    assert_eq!(lines[128], "");
    for line in lines.iter().take(128) {
        assert_eq!(line.chars().count(), 128);
        assert!(line.chars().all(|c| c == '\u{25fb}'));
    }
}
