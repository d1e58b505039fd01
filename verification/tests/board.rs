use hypersweeper::minesweeper_model::{CellState, GameBoard, GameState, InitialGameSettings};

const NOWRAP: [bool; 6] = [false, false, false, false, false, false];

fn is_mine(cs: CellState) -> bool {
    matches!(
        cs,
        CellState::UndiscoveredMine(_) | CellState::MarkedMine(_) | CellState::ExplodedMine(_)
    )
}

fn all_coords(size: [usize; 6]) -> Vec<[usize; 6]> {
    let mut out = Vec::new();
    for w in 0..size[5] {
        for v in 0..size[4] {
            for u in 0..size[3] {
                for z in 0..size[2] {
                    for y in 0..size[1] {
                        for x in 0..size[0] {
                            out.push([x, y, z, u, v, w]);
                        }
                    }
                }
            }
        }
    }
    out
}

fn axis_adj(a: usize, b: usize, n: usize, wrap: bool) -> bool {
    (b + 1 >= a && b <= a + 1) || (wrap && a == n - 1 && b == 0) || (wrap && a == 0 && b == n - 1)
}

fn neighbors(c: [usize; 6], d: [usize; 6], size: [usize; 6], wrap: [bool; 6]) -> bool {
    c != d && (0..6).all(|k| axis_adj(c[k], d[k], size[k], wrap[k]))
}

fn mine_count_of(cs: CellState) -> Option<(u32, i32, u8)> {
    match cs {
        CellState::UndiscoveredEmpty(c, d, h)
        | CellState::MarkedEmpty(c, d, h)
        | CellState::DiscoveredEmpty(c, d, h) => Some((c, d, h)),
        _ => None,
    }
}

#[test]
fn total_fields_is_the_product_of_the_sizes() {
    let size = [2, 3, 4, 1, 1, 5];
    let b = GameBoard::new(size, NOWRAP, 10, None, Some(7));
    assert_eq!(b.total_fields(), 120);
    assert_eq!(b.size(), size);
    assert_eq!(b.wrap(), NOWRAP);
    assert_eq!(b.mines_present(), 10);
    assert_eq!(b.seed(), 7);
    assert_eq!(b.marked_as_mine(), 0);
    assert_eq!(b.undiscoved_empty_fields(), 110);
    assert_eq!(b.state(), GameState::Running);
}

#[test]
fn construction_places_exactly_the_requested_mines() {
    let size = [5, 1, 1, 1, 1, 1];
    let b = GameBoard::new(size, NOWRAP, 4, None, Some(99));
    let mines = all_coords(size)
        .into_iter()
        .filter(|&c| is_mine(b.cell_at(c)))
        .count();
    assert_eq!(mines, 4);
}

#[test]
fn identical_seeds_give_identical_boards() {
    let size = [4, 4, 2, 1, 1, 1];
    let wrap = [true, false, false, false, false, false];
    let a = GameBoard::new(size, wrap, 7, None, Some(12345));
    let b = GameBoard::new(size, wrap, 7, None, Some(12345));
    assert_eq!(a.seed(), b.seed());
    for c in all_coords(size) {
        assert_eq!(a.cell_at(c), b.cell_at(c));
    }
}

#[test]
fn every_mine_count_matches_the_neighbor_set() {
    let size = [4, 4, 1, 1, 1, 2];
    let wrap = [true, false, false, false, false, false];
    let b = GameBoard::new(size, wrap, 6, None, Some(2024));
    let coords = all_coords(size);
    for &c in &coords {
        if let Some((cnt, delta, hl)) = mine_count_of(b.cell_at(c)) {
            let expected = coords
                .iter()
                .filter(|&&d| neighbors(c, d, size, wrap) && is_mine(b.cell_at(d)))
                .count() as u32;
            assert_eq!(cnt, expected);
            assert_eq!(delta, expected as i32);
            assert_eq!(hl, 0);
        }
    }
}

#[test]
fn wrapped_two_cell_axis_counts_each_neighbor_once() {
    // On a wrapping axis of two cells the window around an index reaches its
    // one neighbor both directly and around the edge; the neighbor still
    // counts once.
    let size = [2, 1, 1, 1, 1, 1];
    let wrap = [true, false, false, false, false, false];
    for seed in 0..50 {
        let b = GameBoard::new(size, wrap, 1, None, Some(seed));
        for c in all_coords(size) {
            if let Some((cnt, _, _)) = mine_count_of(b.cell_at(c)) {
                assert_eq!(cnt, 1);
            }
        }
    }
}

fn board_with_mine_at(
    size: [usize; 6],
    wrap: [bool; 6],
    mines: u32,
    target: [usize; 6],
) -> GameBoard {
    for seed in 0..5000 {
        let b = GameBoard::new(size, wrap, mines, None, Some(seed));
        if matches!(b.cell_at(target), CellState::UndiscoveredMine(_)) {
            return b;
        }
    }
    panic!("no seed placed a mine on the target cell");
}

#[test]
fn probing_a_numbered_cell_reveals_only_it() {
    // A 2x2 board with one mine: the opposite corner holds count 1, and
    // probing it must not cascade.
    let size = [2, 2, 1, 1, 1, 1];
    let mut b = board_with_mine_at(size, NOWRAP, 1, [1, 1, 0, 0, 0, 0]);
    assert_eq!(b.cell_at([0, 0, 0, 0, 0, 0]), CellState::UndiscoveredEmpty(1, 1, 0));
    let st = b.probe_at([0, 0, 0, 0, 0, 0], false);
    assert_eq!(st, GameState::Running);
    assert_eq!(b.cell_at([0, 0, 0, 0, 0, 0]), CellState::DiscoveredEmpty(1, 1, 0));
    assert_eq!(b.cell_at([1, 0, 0, 0, 0, 0]), CellState::UndiscoveredEmpty(1, 1, 0));
    assert_eq!(b.cell_at([0, 1, 0, 0, 0, 0]), CellState::UndiscoveredEmpty(1, 1, 0));
    assert!(matches!(b.cell_at([1, 1, 0, 0, 0, 0]), CellState::UndiscoveredMine(_)));
    assert_eq!(b.undiscoved_empty_fields(), 2);
}

#[test]
fn probing_a_zero_cell_reveals_the_region_and_wins() {
    // One mine in a corner of a 4x4 board: probing the far corner (count 0)
    // floods through every zero cell and reveals the bordering numbered
    // cells, which here discovers every empty cell, so the game is won.
    let size = [4, 4, 1, 1, 1, 1];
    let mut b = board_with_mine_at(size, NOWRAP, 1, [0, 0, 0, 0, 0, 0]);
    assert_eq!(mine_count_of(b.cell_at([3, 3, 0, 0, 0, 0])).unwrap().0, 0);
    let st = b.probe_at([3, 3, 0, 0, 0, 0], false);
    assert_eq!(st, GameState::Victory);
    for c in all_coords(size) {
        match b.cell_at(c) {
            CellState::DiscoveredEmpty(_, _, _) => {}
            CellState::UndiscoveredMine(_) => assert_eq!(c, [0, 0, 0, 0, 0, 0]),
            other => panic!("unexpected cell after flood fill: {:?}", other),
        }
    }
    assert_eq!(b.undiscoved_empty_fields(), 0);
}

#[test]
fn probing_a_mine_loses_the_game() {
    let size = [3, 3, 1, 1, 1, 1];
    let target = [1, 1, 0, 0, 0, 0];
    let mut b = board_with_mine_at(size, NOWRAP, 2, target);
    let st = b.probe_at(target, false);
    assert_eq!(st, GameState::Loss);
    assert!(matches!(b.cell_at(target), CellState::ExplodedMine(_)));
    assert_eq!(b.state(), GameState::Loss);
}

#[test]
fn finished_games_ignore_probe_and_mark() {
    let size = [3, 3, 1, 1, 1, 1];
    let target = [1, 1, 0, 0, 0, 0];
    let mut b = board_with_mine_at(size, NOWRAP, 2, target);
    b.probe_at(target, false);
    assert_eq!(b.state(), GameState::Loss);
    let before: Vec<CellState> = all_coords(size).iter().map(|&c| b.cell_at(c)).collect();
    let marked = b.marked_as_mine();
    b.mark_at([0, 0, 0, 0, 0, 0]);
    b.probe_at([2, 2, 0, 0, 0, 0], false);
    let after: Vec<CellState> = all_coords(size).iter().map(|&c| b.cell_at(c)).collect();
    assert_eq!(before, after);
    assert_eq!(b.marked_as_mine(), marked);
    assert_eq!(b.state(), GameState::Loss);
}

#[test]
fn marking_a_mine_lowers_neighbor_deltas() {
    let size = [3, 3, 1, 1, 1, 1];
    let target = [0, 1, 0, 0, 0, 0];
    let mut b = board_with_mine_at(size, NOWRAP, 1, target);
    b.mark_at(target);
    assert!(matches!(b.cell_at(target), CellState::MarkedMine(_)));
    assert_eq!(b.marked_as_mine(), 1);
    for c in all_coords(size) {
        if let Some((cnt, delta, _)) = mine_count_of(b.cell_at(c)) {
            if neighbors(c, target, size, NOWRAP) {
                assert_eq!(delta, cnt as i32 - 1);
            } else {
                assert_eq!(delta, cnt as i32);
            }
        }
    }
    b.mark_at(target);
    assert_eq!(b.marked_as_mine(), 0);
    for c in all_coords(size) {
        if let Some((cnt, delta, _)) = mine_count_of(b.cell_at(c)) {
            assert_eq!(delta, cnt as i32);
        }
    }
}

#[test]
fn marking_an_empty_cell_also_lowers_neighbor_deltas() {
    // The delta tracks every marked neighbor, mine or not: a wrong mark
    // lowers the surrounding deltas just like a right one.
    let size = [3, 3, 1, 1, 1, 1];
    let mine = [0, 0, 0, 0, 0, 0];
    let mut b = board_with_mine_at(size, NOWRAP, 1, mine);
    let wrong = [2, 2, 0, 0, 0, 0];
    assert!(mine_count_of(b.cell_at(wrong)).is_some());
    b.mark_at(wrong);
    assert!(matches!(b.cell_at(wrong), CellState::MarkedEmpty(_, _, _)));
    assert_eq!(b.marked_as_mine(), 1);
    for c in all_coords(size) {
        if let Some((cnt, delta, _)) = mine_count_of(b.cell_at(c)) {
            if neighbors(c, wrong, size, NOWRAP) {
                assert_eq!(delta, cnt as i32 - 1);
            } else {
                assert_eq!(delta, cnt as i32);
            }
        }
    }
}

#[test]
fn marking_twice_restores_the_board_exactly() {
    let size = [3, 3, 2, 1, 1, 1];
    let wrap = [true, true, false, false, false, false];
    let mut b = GameBoard::new(size, wrap, 5, None, Some(424242));
    let before: Vec<CellState> = all_coords(size).iter().map(|&c| b.cell_at(c)).collect();
    let marked = b.marked_as_mine();
    let target = [1, 2, 0, 0, 0, 0];
    b.mark_at(target);
    b.mark_at(target);
    let after: Vec<CellState> = all_coords(size).iter().map(|&c| b.cell_at(c)).collect();
    assert_eq!(before, after);
    assert_eq!(b.marked_as_mine(), marked);
}

#[test]
fn probing_marked_cells_needs_the_flag() {
    let size = [3, 3, 1, 1, 1, 1];
    let target = [1, 1, 0, 0, 0, 0];
    let mut b = board_with_mine_at(size, NOWRAP, 1, target);
    b.mark_at(target);
    let st = b.probe_at(target, false);
    assert_eq!(st, GameState::Running);
    assert!(matches!(b.cell_at(target), CellState::MarkedMine(_)));
    let st = b.probe_at(target, true);
    assert_eq!(st, GameState::Loss);
    assert!(matches!(b.cell_at(target), CellState::ExplodedMine(_)));
    // Unmarking before the explosion restored the neighbor deltas.
    for c in all_coords(size) {
        if let Some((cnt, delta, _)) = mine_count_of(b.cell_at(c)) {
            assert_eq!(delta, cnt as i32);
        }
    }
    assert_eq!(b.marked_as_mine(), 0);
}

#[test]
fn highlights_are_cosmetic_and_reversible() {
    let size = [2, 2, 1, 1, 1, 1];
    let mut b = GameBoard::new(size, NOWRAP, 1, None, Some(5));
    let c = [0, 1, 0, 0, 0, 0];
    let before = b.cell_at(c);
    b.highlight_at(c, 0b101, true);
    let lit = b.cell_at(c);
    match (before, lit) {
        (CellState::UndiscoveredEmpty(c1, d1, h1), CellState::UndiscoveredEmpty(c2, d2, h2)) => {
            assert_eq!((c1, d1), (c2, d2));
            assert_eq!(h2, h1 | 0b101);
        }
        (CellState::UndiscoveredMine(h1), CellState::UndiscoveredMine(h2)) => {
            assert_eq!(h2, h1 | 0b101);
        }
        other => panic!("highlight changed the cell kind: {:?}", other),
    }
    b.highlight_at(c, 0b001, false);
    match b.cell_at(c) {
        CellState::UndiscoveredEmpty(_, _, h) | CellState::UndiscoveredMine(h) => {
            assert_eq!(h, 0b100)
        }
        other => panic!("unexpected cell: {:?}", other),
    }
    assert_eq!(b.state(), GameState::Running);
    assert_eq!(b.marked_as_mine(), 0);
}

#[test]
fn starting_coordinate_is_probed_and_safe_without_a_seed() {
    let size = [4, 4, 1, 1, 1, 1];
    let start = [2, 2, 0, 0, 0, 0];
    for round in 0..10 {
        let mines = 3 + round % 5;
        let b = GameBoard::new(size, NOWRAP, mines, Some(start), None);
        assert!(matches!(b.cell_at(start), CellState::DiscoveredEmpty(_, _, _)));
        assert_ne!(b.state(), GameState::Loss);
        let placed = all_coords(size)
            .into_iter()
            .filter(|&c| is_mine(b.cell_at(c)))
            .count() as u32;
        assert_eq!(placed, mines);
    }
}

#[test]
fn counters_follow_discoveries() {
    let size = [2, 2, 1, 1, 1, 1];
    let mut b = board_with_mine_at(size, NOWRAP, 1, [1, 1, 0, 0, 0, 0]);
    assert_eq!(b.undiscoved_empty_fields(), 3);
    b.probe_at([0, 0, 0, 0, 0, 0], false);
    assert_eq!(b.undiscoved_empty_fields(), 2);
    b.probe_at([0, 0, 0, 0, 0, 0], false);
    assert_eq!(b.undiscoved_empty_fields(), 2);
    b.probe_at([1, 0, 0, 0, 0, 0], false);
    b.probe_at([0, 1, 0, 0, 0, 0], false);
    assert_eq!(b.undiscoved_empty_fields(), 0);
    assert_eq!(b.state(), GameState::Victory);
}

#[test]
fn flood_fill_crosses_a_wrapping_seam() {
    // On a 1x8 ring with one mine, the zero region is connected around the
    // seam: probing any zero cell reveals every empty cell and wins.
    let size = [8, 1, 1, 1, 1, 1];
    let wrap = [true, false, false, false, false, false];
    let mut b = board_with_mine_at(size, wrap, 1, [0, 0, 0, 0, 0, 0]);
    let start = [4, 0, 0, 0, 0, 0];
    assert_eq!(mine_count_of(b.cell_at(start)).unwrap().0, 0);
    let st = b.probe_at(start, false);
    assert_eq!(st, GameState::Victory);
    for c in all_coords(size) {
        if c != [0, 0, 0, 0, 0, 0] {
            assert!(matches!(b.cell_at(c), CellState::DiscoveredEmpty(_, _, _)));
        }
    }
}

#[test]
fn default_settings_are_the_modest_board() {
    let s = InitialGameSettings::default();
    assert_eq!(s.name, "unnamed");
    assert_eq!(s.size, [4, 4, 4, 4, 1, 1]);
    assert_eq!(s.wrap, [false; 6]);
    assert_eq!(s.mines, 20);
    assert!(s.seed.is_none());
}
