//! The board engine: cell states, the game board, and its operations.
//!
//! The grid is one flat array of cells addressed through `coords::lin`. Every
//! empty cell carries the number of mines among its neighbors, fixed at
//! generation time, and a delta that always equals that number minus the
//! count of currently marked cells among its neighbors. Neighbors are the
//! distinct adjacent cells: a window that would enumerate the same cell twice
//! on a very small wrapping axis still counts it once.
//!
//! Once the game has ended in victory or loss, `probe_at` and `mark_at`
//! leave the board untouched; only highlighting, which is purely cosmetic,
//! remains available.

use vstd::prelude::*;
use std::collections::VecDeque;
use crate::coords::{
    coords_of, in_bounds, index_of, is_adjacent, is_nbr, lemma_ax_lin, lemma_is_nbr_symm,
    lemma_prod_from_le_total, lin, prod_from, size_ok, total_cells,
};
use crate::counting::{
    count_adj, count_cells, lemma_count_adj_bounds, lemma_count_adj_congr, lemma_count_adj_le_cells,
    lemma_count_adj_mono, lemma_count_adj_none, lemma_count_adj_pred_congr, lemma_count_adj_update,
    lemma_count_cells_all, lemma_count_cells_bounds, lemma_count_cells_complement,
    lemma_count_cells_congr, lemma_count_cells_none, lemma_count_cells_pos,
    lemma_count_cells_update,
};
pub use crate::coords::DIMENSIONS_COUNT;
use crate::rng::{random_seed, rng_below, seed_rng};
use rand_chacha::ChaCha8Rng;

verus! {

broadcast use vstd::string::to_string_from_display_ensures_for_str;

/// Parameters of a new game as the hosting layer keeps them.
#[derive(Clone, PartialEq)]
pub struct InitialGameSettings {
    pub name: String,
    pub size: [usize; 6],
    pub wrap: [bool; 6],
    pub mines: u32,
    pub seed: Option<String>,
}

impl Default for InitialGameSettings {
    /// A modest four-dimensional default board.
    fn default() -> (r: Self)
        ensures
            r.name@ == "unnamed"@,
            r.size[0] == 4 && r.size[1] == 4 && r.size[2] == 4 && r.size[3] == 4 && r.size[4] == 1
                && r.size[5] == 1,
            forall|k: int| 0 <= k < 6 ==> !r.wrap[k],
            r.mines == 20,
            r.seed is None,
    {
        Self {
            name: "unnamed".to_string(),
            size: [4, 4, 4, 4, 1, 1],
            wrap: [false, false, false, false, false, false],
            mines: 20,
            seed: None,
        }
    }
}

/// Overall progress of one game.
#[derive(Copy, Clone, Debug, PartialEq, Eq, Structural)]
pub enum GameState {
    Running,
    Victory,
    Loss,
}

/// State of a single cell. The `u8` of every variant is a bitmask of eight
/// independent, purely cosmetic highlight groups. Empty cells carry the
/// fixed count of mines among their neighbors and the delta shown to the
/// player.
#[derive(Copy, Clone, Debug, PartialEq, Eq, Structural)]
pub enum CellState {
    UndiscoveredMine(u8),
    MarkedMine(u8),
    ExplodedMine(u8),
    UndiscoveredEmpty(u32, i32, u8),
    MarkedEmpty(u32, i32, u8),
    DiscoveredEmpty(u32, i32, u8),
}

/// The cell holds a mine, in whatever discovery state.
pub open spec fn cell_is_mine(cs: CellState) -> bool {
    match cs {
        CellState::UndiscoveredMine(_) | CellState::MarkedMine(_) | CellState::ExplodedMine(_)
            => true,
        _ => false,
    }
}

/// The cell is currently marked, whether it holds a mine or not.
pub open spec fn cell_is_marked(cs: CellState) -> bool {
    match cs {
        CellState::MarkedMine(_) | CellState::MarkedEmpty(_, _, _) => true,
        _ => false,
    }
}

/// The cell is empty, in whatever discovery state.
pub open spec fn cell_is_empty(cs: CellState) -> bool {
    match cs {
        CellState::UndiscoveredEmpty(_, _, _) | CellState::MarkedEmpty(_, _, _)
            | CellState::DiscoveredEmpty(_, _, _) => true,
        _ => false,
    }
}

/// The cell is empty and not yet discovered (marked or not).
pub open spec fn cell_is_undisc_empty(cs: CellState) -> bool {
    match cs {
        CellState::UndiscoveredEmpty(_, _, _) | CellState::MarkedEmpty(_, _, _) => true,
        _ => false,
    }
}

/// The cell is a discovered empty cell.
pub open spec fn cell_is_discovered(cs: CellState) -> bool {
    cs matches CellState::DiscoveredEmpty(_, _, _)
}

/// The cell is an exploded mine.
pub open spec fn cell_is_exploded(cs: CellState) -> bool {
    cs matches CellState::ExplodedMine(_)
}

/// Neighbor mine count carried by an empty cell.
pub open spec fn cnt_of(cs: CellState) -> int {
    match cs {
        CellState::UndiscoveredEmpty(c, _, _) | CellState::MarkedEmpty(c, _, _)
            | CellState::DiscoveredEmpty(c, _, _) => c as int,
        _ => 0,
    }
}

/// Delta carried by an empty cell.
pub open spec fn delta_of(cs: CellState) -> int {
    match cs {
        CellState::UndiscoveredEmpty(_, d, _) | CellState::MarkedEmpty(_, d, _)
            | CellState::DiscoveredEmpty(_, d, _) => d as int,
        _ => 0,
    }
}

/// Highlight bitmask of any cell.
pub open spec fn hl_of(cs: CellState) -> u8 {
    match cs {
        CellState::UndiscoveredMine(h) | CellState::MarkedMine(h) | CellState::ExplodedMine(h)
            => h,
        CellState::UndiscoveredEmpty(_, _, h) | CellState::MarkedEmpty(_, _, h)
            | CellState::DiscoveredEmpty(_, _, h) => h,
    }
}

pub open spec fn p_mine() -> spec_fn(CellState) -> bool {
    |cs: CellState| cell_is_mine(cs)
}

pub open spec fn p_marked() -> spec_fn(CellState) -> bool {
    |cs: CellState| cell_is_marked(cs)
}

pub open spec fn p_undisc_empty() -> spec_fn(CellState) -> bool {
    |cs: CellState| cell_is_undisc_empty(cs)
}

/// Number of mines among the neighbors of the cell at linear position `i`.
pub open spec fn mines_near(g: Seq<CellState>, s: [usize; 6], w: [bool; 6], i: int) -> int {
    count_adj(g, s, w, i, g.len() as int, p_mine())
}

/// Number of currently marked cells among the neighbors of the cell at
/// linear position `i`.
pub open spec fn marked_near(g: Seq<CellState>, s: [usize; 6], w: [bool; 6], i: int) -> int {
    count_adj(g, s, w, i, g.len() as int, p_marked())
}

/// The per-cell invariant: an empty cell's count is the number of mines
/// among its neighbors and its delta is that count minus the marked cells
/// among its neighbors. Mine cells carry no such data.
pub open spec fn cell_wf(g: Seq<CellState>, s: [usize; 6], w: [bool; 6], i: int) -> bool {
    match g[i] {
        CellState::UndiscoveredEmpty(c, d, _) | CellState::MarkedEmpty(c, d, _)
            | CellState::DiscoveredEmpty(c, d, _) => c as int == mines_near(g, s, w, i) && d as int
            == c as int - marked_near(g, s, w, i),
        _ => true,
    }
}

/// Mathematical image of a game board.
pub struct BoardView {
    pub size: [usize; 6],
    pub wrap: [bool; 6],
    pub seed: u64,
    pub grid: Seq<CellState>,
    pub state: GameState,
    pub mine_count: u32,
    pub marked_as_mine: u64,
    pub undiscoved_empty_fields: u64,
    pub total_fields: u64,
}

/// The board's global invariant: the grid has one cell per coordinate, every
/// cell satisfies `cell_wf`, and the three counters count exactly the
/// marked cells, the undiscovered empty cells, and the mines.
pub open spec fn board_wf(b: BoardView) -> bool {
    &&& size_ok(b.size)
    &&& total_cells(b.size) == b.total_fields as int
    &&& b.total_fields <= 0x7fff_ffff
    &&& b.grid.len() == b.total_fields
    &&& forall|i: int| 0 <= i < b.grid.len() ==> cell_wf(b.grid, b.size, b.wrap, i)
    &&& b.marked_as_mine as int == count_cells(b.grid, b.grid.len() as int, p_marked())
    &&& b.undiscoved_empty_fields as int == count_cells(
        b.grid,
        b.grid.len() as int,
        p_undisc_empty(),
    )
    &&& b.mine_count as int == count_cells(b.grid, b.grid.len() as int, p_mine())
    &&& 1 <= b.mine_count
    &&& (b.mine_count as int) < total_cells(b.size)
}

/// A six-axis minesweeper board: the dense grid of cells plus the game
/// state and its derived counters.
pub struct GameBoard {
    size: [usize; 6],
    wrap: [bool; 6],
    seed: u64,
    board: Vec<CellState>,
    state: GameState,
    mine_count: u32,
    marked_as_mine: u64,
    undiscoved_empty_fields: u64,
    total_fields: u64,
}

impl View for GameBoard {
    type V = BoardView;

    closed spec fn view(&self) -> BoardView {
        BoardView {
            size: self.size,
            wrap: self.wrap,
            seed: self.seed,
            grid: self.board@,
            state: self.state,
            mine_count: self.mine_count,
            marked_as_mine: self.marked_as_mine,
            undiscoved_empty_fields: self.undiscoved_empty_fields,
            total_fields: self.total_fields,
        }
    }
}

impl GameBoard {
    /// The board's invariant, maintained by every operation.
    pub open spec fn wf(self) -> bool {
        board_wf(self@)
    }

    /// Extent of each axis.
    pub fn size(&self) -> (r: [usize; 6])
        ensures
            r == self@.size,
    {
        self.size
    }

    /// Whether each axis wraps around.
    pub fn wrap(&self) -> (r: [bool; 6])
        ensures
            r == self@.wrap,
    {
        self.wrap
    }

    /// Current game state.
    pub fn state(&self) -> (r: GameState)
        ensures
            r == self@.state,
    {
        self.state
    }

    /// The seed the mine layout was generated from.
    pub fn seed(&self) -> (r: u64)
        ensures
            r == self@.seed,
    {
        self.seed
    }

    /// Number of mines on the board.
    pub fn mines_present(&self) -> (r: u32)
        ensures
            r == self@.mine_count,
    {
        self.mine_count
    }

    /// Number of cells currently marked.
    pub fn marked_as_mine(&self) -> (r: u64)
        ensures
            r == self@.marked_as_mine,
    {
        self.marked_as_mine
    }

    /// Number of empty cells not yet discovered.
    pub fn undiscoved_empty_fields(&self) -> (r: u64)
        ensures
            r == self@.undiscoved_empty_fields,
    {
        self.undiscoved_empty_fields
    }

    /// Total number of cells.
    pub fn total_fields(&self) -> (r: u64)
        ensures
            r == self@.total_fields,
    {
        self.total_fields
    }

    /// The cell at the given coordinate.
    pub fn cell_at(&self, coordinates: [usize; 6]) -> (r: CellState)
        requires
            self.wf(),
            in_bounds(self@.size, coordinates),
        ensures
            r == self@.grid[lin(self@.size, coordinates)],
    {
        let i = index_of(&self.size, &coordinates);
        self.board[i]
    }

    /// Sets (`enable`) or clears (`!enable`) the highlight groups of
    /// `group` on the target cell. Purely cosmetic: every other part of the
    /// board, the counters and the game state are untouched.
    pub fn highlight_at(&mut self, coordinates: [usize; 6], group: u8, enable: bool)
        requires
            old(self).wf(),
            in_bounds(old(self)@.size, coordinates),
        ensures
            final(self).wf(),
            final(self)@.size == old(self)@.size,
            final(self)@.wrap == old(self)@.wrap,
            final(self)@.seed == old(self)@.seed,
            final(self)@.state == old(self)@.state,
            final(self)@.mine_count == old(self)@.mine_count,
            final(self)@.marked_as_mine == old(self)@.marked_as_mine,
            final(self)@.undiscoved_empty_fields == old(self)@.undiscoved_empty_fields,
            final(self)@.total_fields == old(self)@.total_fields,
            final(self)@.grid == old(self)@.grid.update(
                lin(old(self)@.size, coordinates),
                with_hl(
                    old(self)@.grid[lin(old(self)@.size, coordinates)],
                    if enable {
                        hl_of(old(self)@.grid[lin(old(self)@.size, coordinates)]) | group
                    } else {
                        hl_of(old(self)@.grid[lin(old(self)@.size, coordinates)]) & !group
                    },
                ),
            ),
    {
        let i = index_of(&self.size, &coordinates);
        let cur = self.board[i];
        let nv = if enable {
            match cur {
                CellState::UndiscoveredMine(h) => CellState::UndiscoveredMine(h | group),
                CellState::MarkedMine(h) => CellState::MarkedMine(h | group),
                CellState::ExplodedMine(h) => CellState::ExplodedMine(h | group),
                CellState::UndiscoveredEmpty(c, d, h) => CellState::UndiscoveredEmpty(
                    c,
                    d,
                    h | group,
                ),
                CellState::MarkedEmpty(c, d, h) => CellState::MarkedEmpty(c, d, h | group),
                CellState::DiscoveredEmpty(c, d, h) => CellState::DiscoveredEmpty(c, d, h | group),
            }
        } else {
            match cur {
                CellState::UndiscoveredMine(h) => CellState::UndiscoveredMine(h & !group),
                CellState::MarkedMine(h) => CellState::MarkedMine(h & !group),
                CellState::ExplodedMine(h) => CellState::ExplodedMine(h & !group),
                CellState::UndiscoveredEmpty(c, d, h) => CellState::UndiscoveredEmpty(
                    c,
                    d,
                    h & !group,
                ),
                CellState::MarkedEmpty(c, d, h) => CellState::MarkedEmpty(c, d, h & !group),
                CellState::DiscoveredEmpty(c, d, h) => CellState::DiscoveredEmpty(c, d, h & !group),
            }
        };
        self.board[i] = nv;
        proof {
            let g1 = old(self)@.grid;
            let g2 = self@.grid;
            let s = old(self)@.size;
            let w = old(self)@.wrap;
            assert(g2 =~= g1.update(i as int, nv));
            lemma_same_shape_preserves_wf(g1, g2, s, w);
            lemma_count_cells_congr(g2, g1, g1.len() as int, p_marked());
            lemma_count_cells_congr(g2, g1, g1.len() as int, p_undisc_empty());
            lemma_count_cells_congr(g2, g1, g1.len() as int, p_mine());
        }
    }
}

/// On a well-formed board every stored count and delta sits strictly inside
/// its machine range, so one more adjustment step cannot overflow.
proof fn lemma_wf_value_bounds(b: BoardView)
    requires
        board_wf(b),
    ensures
        forall|i: int|
            0 <= i < b.grid.len() && cell_is_empty(#[trigger] b.grid[i]) ==> 0 <= cnt_of(b.grid[i])
                < 0x7fff_ffff && -0x7fff_ffff <= delta_of(b.grid[i]) <= 0x7fff_fffe,
{
    let len = b.grid.len() as int;
    assert forall|i: int| 0 <= i < len && cell_is_empty(#[trigger] b.grid[i]) implies 0 <= cnt_of(
        b.grid[i],
    ) < 0x7fff_ffff && -0x7fff_ffff <= delta_of(b.grid[i]) <= 0x7fff_fffe by {
        assert(cell_wf(b.grid, b.size, b.wrap, i));
        lemma_count_adj_bounds(b.grid, b.size, b.wrap, i, len, p_mine());
        lemma_count_adj_bounds(b.grid, b.size, b.wrap, i, len, p_marked());
        lemma_count_adj_le_cells(b.grid, b.size, b.wrap, i, len, p_mine());
        lemma_count_adj_le_cells(b.grid, b.size, b.wrap, i, len, p_marked());
        lemma_count_cells_bounds(b.grid, len, p_marked());
    }
}

impl GameBoard {
    /// Toggles the cell at `coordinates` between its undiscovered and
    /// marked forms. Before flipping, the delta of every empty neighbor is
    /// moved down (when marking) or up (when unmarking), so that each delta
    /// keeps equaling the cell's mine count minus the marked cells around
    /// it. Exploded and discovered cells ignore the call, and so does the
    /// whole board once the game is over.
    pub fn mark_at(&mut self, coordinates: [usize; 6])
        requires
            old(self).wf(),
            in_bounds(old(self)@.size, coordinates),
        ensures
            final(self).wf(),
            final(self)@.size == old(self)@.size,
            final(self)@.wrap == old(self)@.wrap,
            final(self)@.seed == old(self)@.seed,
            final(self)@.state == old(self)@.state,
            final(self)@.mine_count == old(self)@.mine_count,
            final(self)@.total_fields == old(self)@.total_fields,
            final(self)@.undiscoved_empty_fields == old(self)@.undiscoved_empty_fields,
            old(self)@.state != GameState::Running ==> final(self)@.grid == old(self)@.grid
                && final(self)@.marked_as_mine == old(self)@.marked_as_mine,
            old(self)@.state == GameState::Running ==> final(self)@.grid == marked_grid(
                old(self)@.grid,
                old(self)@.size,
                old(self)@.wrap,
                lin(old(self)@.size, coordinates),
            ) && final(self)@.marked_as_mine as int == old(self)@.marked_as_mine
                + mark_count_delta(old(self)@.grid, lin(old(self)@.size, coordinates)),
    {
        match self.state {
            GameState::Running => {},
            _ => {
                return ;
            },
        }
        let ghost g0 = self@.grid;
        let ghost s = self@.size;
        let ghost w = self@.wrap;
        let p = index_of(&self.size, &coordinates);
        proof {
            lemma_wf_value_bounds(self@);
        }
        match self.board[p] {
            CellState::UndiscoveredMine(h) => {
                adjust_neighbor_deltas(&mut self.board, self.size, self.wrap, coordinates, false, false);
                self.board[p] = CellState::MarkedMine(h);
                proof {
                    lemma_count_cells_bounds(g0, g0.len() as int, p_marked());
                }
                self.marked_as_mine = self.marked_as_mine + 1;
            },
            CellState::UndiscoveredEmpty(c, d, h) => {
                adjust_neighbor_deltas(&mut self.board, self.size, self.wrap, coordinates, false, false);
                self.board[p] = CellState::MarkedEmpty(c, d, h);
                proof {
                    lemma_count_cells_bounds(g0, g0.len() as int, p_marked());
                }
                self.marked_as_mine = self.marked_as_mine + 1;
            },
            CellState::MarkedMine(h) => {
                adjust_neighbor_deltas(&mut self.board, self.size, self.wrap, coordinates, true, false);
                self.board[p] = CellState::UndiscoveredMine(h);
                proof {
                    lemma_count_cells_pos(g0, g0.len() as int, p_marked(), p as int);
                }
                self.marked_as_mine = self.marked_as_mine - 1;
            },
            CellState::MarkedEmpty(c, d, h) => {
                adjust_neighbor_deltas(&mut self.board, self.size, self.wrap, coordinates, true, false);
                self.board[p] = CellState::UndiscoveredEmpty(c, d, h);
                proof {
                    lemma_count_cells_pos(g0, g0.len() as int, p_marked(), p as int);
                }
                self.marked_as_mine = self.marked_as_mine - 1;
            },
            _ => {},
        }
        proof {
            lemma_mark_toggle_outcome(g0, s, w, p as int, self@);
        }
    }
}

/// After the toggle at `p`, the new grid is `marked_grid`, the counters fit
/// it, and every per-cell invariant still holds.
proof fn lemma_mark_toggle_outcome(
    g0: Seq<CellState>,
    s: [usize; 6],
    w: [bool; 6],
    p: int,
    b: BoardView,
)
    requires
        b.size == s,
        b.wrap == w,
        size_ok(s),
        total_cells(s) == g0.len(),
        g0.len() <= 0x7fff_ffff,
        0 <= p < g0.len(),
        b.grid.len() == g0.len(),
        forall|i: int| 0 <= i < g0.len() ==> cell_wf(g0, s, w, i),
        forall|i: int|
            0 <= i < g0.len() ==> #[trigger] b.grid[i] == (if i == p {
                flip_cell(g0[p])
            } else if nbr_shift(g0[p]) != 0 && is_nbr(s, w, p, i) && cell_is_empty(g0[i]) {
                bump_cell(g0[i], nbr_shift(g0[p]), false)
            } else {
                g0[i]
            }),
        b.marked_as_mine as int == count_cells(g0, g0.len() as int, p_marked()) + mark_count_delta(
            g0,
            p,
        ),
        b.undiscoved_empty_fields as int == count_cells(g0, g0.len() as int, p_undisc_empty()),
        b.mine_count as int == count_cells(g0, g0.len() as int, p_mine()),
        b.total_fields as int == g0.len(),
        1 <= b.mine_count,
        (b.mine_count as int) < total_cells(s),
    ensures
        board_wf(b),
        b.grid == marked_grid(g0, s, w, p),
{
    let len = g0.len() as int;
    let g2 = b.grid;
    let gu = g0.update(p, flip_cell(g0[p]));
    assert(g2 =~= marked_grid(g0, s, w, p));
    let chg: int = if cell_is_marked(flip_cell(g0[p])) && !cell_is_marked(g0[p]) {
        1int
    } else if !cell_is_marked(flip_cell(g0[p])) && cell_is_marked(g0[p]) {
        -1int
    } else {
        0int
    };
    assert(chg == mark_count_delta(g0, p));
    // Counter checks: the deltas moved by the toggle do not change which
    // cells are marked, mines, or undiscovered empties.
    lemma_count_cells_update(g0, p, flip_cell(g0[p]), len, p_marked());
    lemma_count_cells_congr(g2, gu, len, p_marked());
    lemma_count_cells_update(g0, p, flip_cell(g0[p]), len, p_undisc_empty());
    lemma_count_cells_congr(g2, gu, len, p_undisc_empty());
    lemma_count_cells_update(g0, p, flip_cell(g0[p]), len, p_mine());
    lemma_count_cells_congr(g2, gu, len, p_mine());
    // Per-cell invariants.
    assert forall|i: int| 0 <= i < len implies cell_wf(g2, s, w, i) by {
        assert(cell_wf(g0, s, w, i));
        lemma_count_adj_bounds(g0, s, w, i, len, p_mine());
        lemma_count_adj_le_cells(g0, s, w, i, len, p_mine());
        lemma_count_adj_bounds(g0, s, w, i, len, p_marked());
        lemma_count_adj_le_cells(g0, s, w, i, len, p_marked());
        lemma_count_cells_bounds(g0, len, p_marked());
        lemma_count_adj_update(g0, s, w, i, p, flip_cell(g0[p]), len, p_marked());
        lemma_count_adj_congr(g2, gu, s, w, i, len, p_marked());
        lemma_count_adj_update(g0, s, w, i, p, flip_cell(g0[p]), len, p_mine());
        lemma_count_adj_congr(g2, gu, s, w, i, len, p_mine());
        lemma_is_nbr_symm(s, w, p, i);
    }
}

/// Whether probing a cell in this state (with `pm` allowing marked cells to
/// be probed) sets off a mine.
pub open spec fn probe_hits_mine(cs: CellState, pm: bool) -> bool {
    match cs {
        CellState::UndiscoveredMine(_) => true,
        CellState::MarkedMine(_) => pm,
        _ => false,
    }
}

/// How one probe call may move a single cell: discovery and explosion only
/// move forward, marked cells move only when probing marked cells is
/// allowed, and the neighbor mine count and the highlights never change.
/// Deltas of empty cells may move (they do when a marked cell is uncovered).
pub open spec fn probe_cell_evolves(a: CellState, b: CellState, pm: bool) -> bool {
    match a {
        CellState::UndiscoveredMine(h) => b == CellState::UndiscoveredMine(h) || b
            == CellState::ExplodedMine(h),
        CellState::MarkedMine(h) => b == CellState::MarkedMine(h) || (pm && b
            == CellState::ExplodedMine(h)),
        CellState::ExplodedMine(h) => b == CellState::ExplodedMine(h),
        CellState::UndiscoveredEmpty(c, _, h) => match b {
            CellState::UndiscoveredEmpty(c2, _, h2) => c2 == c && h2 == h,
            CellState::DiscoveredEmpty(c2, _, h2) => c2 == c && h2 == h,
            _ => false,
        },
        CellState::MarkedEmpty(c, _, h) => match b {
            CellState::MarkedEmpty(c2, _, h2) => c2 == c && h2 == h,
            CellState::DiscoveredEmpty(c2, _, h2) => pm && c2 == c && h2 == h,
            _ => false,
        },
        CellState::DiscoveredEmpty(c, _, h) => match b {
            CellState::DiscoveredEmpty(c2, _, h2) => c2 == c && h2 == h,
            _ => false,
        },
    }
}

/// A chain of hops from `p` to `j`: every element but the last is an
/// unmarked, zero-count empty cell adjacent to the next element. These are
/// exactly the routes along which a flood fill started at `p` spreads: the
/// connected zero region around `p` together with its bordering cells.
pub open spec fn zero_reachable(
    g: Seq<CellState>,
    s: [usize; 6],
    w: [bool; 6],
    p: int,
    j: int,
) -> bool {
    exists|path: Seq<int>|
        {
            &&& path.len() >= 1
            &&& path[0] == p
            &&& path.last() == j
            &&& forall|k: int|
                0 <= k < path.len() - 1 ==> 0 <= #[trigger] path[k] < g.len() && cell_is_empty(
                    g[path[k]],
                ) && cnt_of(g[path[k]]) == 0 && !cell_is_marked(g[path[k]]) && is_nbr(
                    s,
                    w,
                    path[k],
                    path[k + 1],
                )
        }
}

/// Every cell reaches itself by the one-element chain.
proof fn lemma_zero_reach_base(g: Seq<CellState>, s: [usize; 6], w: [bool; 6], p: int)
    ensures
        zero_reachable(g, s, w, p, p),
{
    let path = seq![p];
    assert(path.len() >= 1 && path[0] == p && path.last() == p);
    assert(forall|k: int|
        0 <= k < path.len() - 1 ==> 0 <= #[trigger] path[k] < g.len() && cell_is_empty(g[path[k]])
            && cnt_of(g[path[k]]) == 0 && !cell_is_marked(g[path[k]]) && is_nbr(
            s,
            w,
            path[k],
            path[k + 1],
        ));
}

/// A chain grows by one hop across an unmarked zero-count cell.
proof fn lemma_zero_reach_step(
    g: Seq<CellState>,
    s: [usize; 6],
    w: [bool; 6],
    p: int,
    y: int,
    j: int,
)
    requires
        zero_reachable(g, s, w, p, y),
        0 <= y < g.len(),
        cell_is_empty(g[y]),
        cnt_of(g[y]) == 0,
        !cell_is_marked(g[y]),
        is_nbr(s, w, y, j),
    ensures
        zero_reachable(g, s, w, p, j),
{
    let path = choose|path: Seq<int>|
        {
            &&& path.len() >= 1
            &&& path[0] == p
            &&& path.last() == y
            &&& forall|k: int|
                0 <= k < path.len() - 1 ==> 0 <= #[trigger] path[k] < g.len() && cell_is_empty(
                    g[path[k]],
                ) && cnt_of(g[path[k]]) == 0 && !cell_is_marked(g[path[k]]) && is_nbr(
                    s,
                    w,
                    path[k],
                    path[k + 1],
                )
        };
    let path2 = path.push(j);
    assert(path2.len() >= 1 && path2[0] == p && path2.last() == j);
    assert forall|k: int| 0 <= k < path2.len() - 1 implies 0 <= #[trigger] path2[k] < g.len()
        && cell_is_empty(g[path2[k]]) && cnt_of(g[path2[k]]) == 0 && !cell_is_marked(g[path2[k]])
        && is_nbr(s, w, path2[k], path2[k + 1]) by {
        if k < path.len() - 1 {
            assert(path2[k] == path[k]);
            assert(path2[k + 1] == path[k + 1]);
        } else {
            assert(path2[k] == path.last());
            assert(path2[k + 1] == j);
        }
    }
}

/// Some neighbor of position `j` is a discovered cell with zero neighbor
/// mines — the cells a flood fill reveals, other than the probed one, all
/// border such a cell.
pub open spec fn has_zero_disc_nbr(
    g: Seq<CellState>,
    s: [usize; 6],
    w: [bool; 6],
    n: int,
    j: int,
) -> bool {
    exists|z: int|
        0 <= z < n && cell_is_discovered(g[z]) && cnt_of(g[z]) == 0 && #[trigger] is_nbr(
            s,
            w,
            z,
            j,
        )
}

/// Some queue entry denotes linear position `j`.
spec fn in_queue(q: Seq<[usize; 6]>, s: [usize; 6], j: int) -> bool {
    exists|t: int| 0 <= t < q.len() && lin(s, #[trigger] q[t]) == j
}

/// A zero-count discovered neighbor stays one as long as discovered cells
/// keep their status and count.
proof fn lemma_zero_nbr_persists(
    g1: Seq<CellState>,
    g2: Seq<CellState>,
    s: [usize; 6],
    w: [bool; 6],
    n: int,
    j: int,
)
    requires
        has_zero_disc_nbr(g1, s, w, n, j),
        forall|z: int|
            0 <= z < n && cell_is_discovered(#[trigger] g1[z]) && cnt_of(g1[z]) == 0 ==> (
            cell_is_discovered(g2[z]) && cnt_of(g2[z]) == 0),
    ensures
        has_zero_disc_nbr(g2, s, w, n, j),
{
    let z = choose|z: int|
        0 <= z < n && cell_is_discovered(g1[z]) && cnt_of(g1[z]) == 0 && #[trigger] is_nbr(
            s,
            w,
            z,
            j,
        );
    assert(cell_is_discovered(g2[z]) && cnt_of(g2[z]) == 0 && is_nbr(s, w, z, j));
}

/// Every neighbor of a discovered zero-count cell has been discovered or is
/// marked. `probe_at` establishes this for the cells it reveals; a flood
/// fill therefore cannot stop inside a zero region.
pub open spec fn zero_closed(g: Seq<CellState>, s: [usize; 6], w: [bool; 6]) -> bool {
    forall|i: int, j: int|
        0 <= i < g.len() && 0 <= j < g.len() && cell_is_discovered(g[i]) && cnt_of(g[i]) == 0
            && #[trigger] is_nbr(s, w, i, j) ==> cell_is_discovered(g[j]) || cell_is_marked(g[j])
}

/// Appends the coordinates of every neighbor of `center` to the queue.
fn push_neighbors(
    queue: &mut VecDeque<[usize; 6]>,
    s: [usize; 6],
    w: [bool; 6],
    center: [usize; 6],
    n: usize,
)
    requires
        size_ok(s),
        total_cells(s) <= 0x7fff_ffff,
        in_bounds(s, center),
        n as int == total_cells(s),
    ensures
        final(queue)@.len() >= old(queue)@.len(),
        forall|t: int| 0 <= t < old(queue)@.len() ==> final(queue)@[t] == old(queue)@[t],
        forall|t: int|
            old(queue)@.len() <= t < final(queue)@.len() ==> in_bounds(
                s,
                #[trigger] final(queue)@[t],
            ) && is_nbr(s, w, lin(s, center), lin(s, final(queue)@[t])) && 0 <= lin(
                s,
                final(queue)@[t],
            ) < total_cells(s),
        forall|j: int|
            0 <= j < total_cells(s) && #[trigger] is_nbr(s, w, lin(s, center), j) ==> exists|t: int|
                old(queue)@.len() <= t < final(queue)@.len() && lin(s, #[trigger] final(queue)@[t])
                    == j,
{
    let ghost q0 = queue@;
    let mut j: usize = 0;
    while j < n
        invariant
            size_ok(s),
            total_cells(s) <= 0x7fff_ffff,
            in_bounds(s, center),
            n as int == total_cells(s),
            0 <= j <= n,
            queue@.len() >= q0.len(),
            forall|t: int| 0 <= t < q0.len() ==> queue@[t] == q0[t],
            forall|t: int|
                q0.len() <= t < queue@.len() ==> in_bounds(s, #[trigger] queue@[t]) && is_nbr(
                    s,
                    w,
                    lin(s, center),
                    lin(s, queue@[t]),
                ) && 0 <= lin(s, queue@[t]) < total_cells(s),
            forall|jj: int|
                0 <= jj < j && #[trigger] is_nbr(s, w, lin(s, center), jj) ==> exists|t: int|
                    q0.len() <= t < queue@.len() && lin(s, #[trigger] queue@[t]) == jj,
        decreases n - j,
    {
        let d = coords_of(&s, j);
        if is_adjacent(&s, &w, &center, &d) {
            let ghost qbefore = queue@;
            queue.push_back(d);
            proof {
                assert(queue@[qbefore.len() as int] == d);
                assert forall|jj: int|
                    0 <= jj < j + 1 && #[trigger] is_nbr(s, w, lin(s, center), jj) implies exists|
                    t: int,
                |
                    q0.len() <= t < queue@.len() && lin(s, #[trigger] queue@[t]) == jj by {
                    if jj == j as int {
                        assert(lin(s, queue@[qbefore.len() as int]) == jj);
                    } else {
                        let t0 = choose|t: int|
                            q0.len() <= t < qbefore.len() && lin(s, #[trigger] qbefore[t]) == jj;
                        assert(lin(s, queue@[t0]) == jj);
                    }
                }
            }
        }
        j = j + 1;
    }
}

/// Replacing one cell by another of the same kind — same mine, marked and
/// empty status, same count and delta — preserves every per-cell invariant
/// and moves only the undiscovered-empty counter, by the discovery status
/// of the two cells.
proof fn lemma_update_cell_effects(g: Seq<CellState>, s: [usize; 6], w: [bool; 6], p: int, v: CellState)
    requires
        0 <= p < g.len(),
        cell_is_mine(v) == cell_is_mine(g[p]),
        cell_is_marked(v) == cell_is_marked(g[p]),
        cell_is_empty(v) == cell_is_empty(g[p]),
        cnt_of(v) == cnt_of(g[p]),
        delta_of(v) == delta_of(g[p]),
        forall|i: int| 0 <= i < g.len() ==> cell_wf(g, s, w, i),
    ensures
        forall|i: int| 0 <= i < g.len() ==> cell_wf(g.update(p, v), s, w, i),
        count_cells(g.update(p, v), g.len() as int, p_marked()) == count_cells(
            g,
            g.len() as int,
            p_marked(),
        ),
        count_cells(g.update(p, v), g.len() as int, p_mine()) == count_cells(
            g,
            g.len() as int,
            p_mine(),
        ),
        count_cells(g.update(p, v), g.len() as int, p_undisc_empty()) == count_cells(
            g,
            g.len() as int,
            p_undisc_empty(),
        ) + (if cell_is_undisc_empty(v) && !cell_is_undisc_empty(g[p]) {
            1int
        } else if !cell_is_undisc_empty(v) && cell_is_undisc_empty(g[p]) {
            -1int
        } else {
            0int
        }),
{
    let len = g.len() as int;
    lemma_count_cells_update(g, p, v, len, p_marked());
    lemma_count_cells_update(g, p, v, len, p_mine());
    lemma_count_cells_update(g, p, v, len, p_undisc_empty());
    assert forall|i: int| 0 <= i < len implies cell_wf(g.update(p, v), s, w, i) by {
        assert(cell_wf(g, s, w, i));
        lemma_count_adj_update(g, s, w, i, p, v, len, p_mine());
        lemma_count_adj_update(g, s, w, i, p, v, len, p_marked());
    }
}

impl GameBoard {
    /// Reveals cells starting at `coordinates` by breadth-first flood fill.
    ///
    /// Probing an undiscovered mine explodes it and loses the game; with
    /// `probe_marked`, a marked cell is first unmarked (restoring neighbor
    /// deltas) and then treated the same way. Revealing an empty cell whose
    /// neighbor mine count is zero enqueues all of its neighbors, so the
    /// whole connected zero region plus its bordering numbered cells is
    /// revealed. When the last empty cell is discovered and no mine went
    /// off, the game is won. A finished game ignores further probes.
    pub fn probe_at(&mut self, coordinates: [usize; 6], probe_marked: bool) -> (r: GameState)
        requires
            old(self).wf(),
            in_bounds(old(self)@.size, coordinates),
        ensures
            final(self).wf(),
            r == final(self)@.state,
            final(self)@.size == old(self)@.size,
            final(self)@.wrap == old(self)@.wrap,
            final(self)@.seed == old(self)@.seed,
            final(self)@.mine_count == old(self)@.mine_count,
            final(self)@.total_fields == old(self)@.total_fields,
            old(self)@.state != GameState::Running ==> final(self)@ == old(self)@,
            old(self)@.state == GameState::Running ==> forall|i: int|
                0 <= i < old(self)@.grid.len() ==> probe_cell_evolves(
                    #[trigger] old(self)@.grid[i],
                    final(self)@.grid[i],
                    probe_marked,
                ),
            old(self)@.state == GameState::Running ==> (final(self)@.state == GameState::Loss
                <==> probe_hits_mine(
                old(self)@.grid[lin(old(self)@.size, coordinates)],
                probe_marked,
            )),
            old(self)@.state == GameState::Running ==> (final(self)@.state == GameState::Victory
                <==> (!probe_hits_mine(
                old(self)@.grid[lin(old(self)@.size, coordinates)],
                probe_marked,
            ) && final(self)@.undiscoved_empty_fields == 0)),
            old(self)@.state == GameState::Running && probe_hits_mine(
                old(self)@.grid[lin(old(self)@.size, coordinates)],
                probe_marked,
            ) ==> cell_is_exploded(final(self)@.grid[lin(old(self)@.size, coordinates)]),
            (old(self)@.state == GameState::Running && old(self)@.grid[lin(
                old(self)@.size,
                coordinates,
            )] matches CellState::UndiscoveredEmpty(_, _, _)) ==> cell_is_discovered(
                final(self)@.grid[lin(old(self)@.size, coordinates)],
            ),
            (old(self)@.state == GameState::Running && probe_marked && old(self)@.grid[lin(
                old(self)@.size,
                coordinates,
            )] matches CellState::MarkedEmpty(_, _, _)) ==> cell_is_discovered(
                final(self)@.grid[lin(old(self)@.size, coordinates)],
            ),
            old(self)@.state == GameState::Running && !probe_marked ==> final(self)@.marked_as_mine
                == old(self)@.marked_as_mine,
            old(self)@.state == GameState::Running && !probe_marked && zero_closed(
                old(self)@.grid,
                old(self)@.size,
                old(self)@.wrap,
            ) ==> zero_closed(final(self)@.grid, old(self)@.size, old(self)@.wrap),
            old(self)@.state == GameState::Running ==> forall|i: int|
                0 <= i < old(self)@.grid.len() && cell_is_discovered(#[trigger] final(self)@.grid[i])
                    && !cell_is_discovered(old(self)@.grid[i]) ==> i == lin(
                    old(self)@.size,
                    coordinates,
                ) || has_zero_disc_nbr(
                    final(self)@.grid,
                    old(self)@.size,
                    old(self)@.wrap,
                    old(self)@.grid.len() as int,
                    i,
                ),
            old(self)@.state == GameState::Running ==> forall|i: int|
                0 <= i < old(self)@.grid.len() && cell_is_discovered(#[trigger] final(self)@.grid[i])
                    && !cell_is_discovered(old(self)@.grid[i]) ==> zero_reachable(
                    old(self)@.grid,
                    old(self)@.size,
                    old(self)@.wrap,
                    lin(old(self)@.size, coordinates),
                    i,
                ),
    {
        let ghost s = self@.size;
        let ghost w = self@.wrap;
        let ghost g0 = self@.grid;
        match self.state {
            GameState::Running => {},
            _ => {
                return self.state;
            },
        }
        let n = self.board.len();
        let pidx = index_of(&self.size, &coordinates);
        let ghost p = pidx as int;
        let mut queue: VecDeque<[usize; 6]> = VecDeque::new();
        match self.board[pidx] {
            CellState::UndiscoveredMine(h) => {
                self.board[pidx] = CellState::ExplodedMine(h);
                self.state = GameState::Loss;
                proof {
                    lemma_update_cell_effects(g0, s, w, p, CellState::ExplodedMine(h));
                }
            },
            CellState::MarkedMine(h) => {
                if probe_marked {
                    self.mark_at(coordinates);
                    let ghost g1 = self@.grid;
                    proof {
                        assert(g1[p] == flip_cell(CellState::MarkedMine(h)));
                        assert(forall|i: int| 0 <= i < g1.len() ==> cell_wf(g1, s, w, i));
                    }
                    self.board[pidx] = CellState::ExplodedMine(h);
                    self.state = GameState::Loss;
                    proof {
                        lemma_update_cell_effects(g1, s, w, p, CellState::ExplodedMine(h));
                    }
                }
            },
            CellState::ExplodedMine(_) => {},
            CellState::UndiscoveredEmpty(c0, d0, h0) => {
                self.board[pidx] = CellState::DiscoveredEmpty(c0, d0, h0);
                proof {
                    lemma_update_cell_effects(g0, s, w, p, CellState::DiscoveredEmpty(c0, d0, h0));
                    lemma_count_cells_pos(g0, g0.len() as int, p_undisc_empty(), p);
                }
                self.undiscoved_empty_fields = self.undiscoved_empty_fields - 1;
                if c0 == 0 {
                    proof {
                        assert(cell_wf(g0, s, w, p));
                        lemma_count_adj_none(g0, s, w, p, g0.len() as int, p_mine());
                    }
                    push_neighbors(&mut queue, self.size, self.wrap, coordinates, n);
                    proof {
                        let gnew = self@.grid;
                        let qnew = queue@;
                        assert(cell_is_discovered(gnew[p]) && cnt_of(gnew[p]) == 0);
                        assert forall|t: int| 0 <= t < qnew.len() implies in_bounds(
                            s,
                            #[trigger] qnew[t],
                        ) && 0 <= lin(s, qnew[t]) < g0.len() && !cell_is_mine(
                            gnew[lin(s, qnew[t])],
                        ) && has_zero_disc_nbr(gnew, s, w, g0.len() as int, lin(s, qnew[t])) by {
                            assert(is_nbr(s, w, p, lin(s, qnew[t])));
                            assert(!cell_is_mine(g0[lin(s, qnew[t])]));
                        }
                        if !probe_marked && zero_closed(g0, s, w) {
                            assert forall|i: int, j: int|
                                0 <= i < g0.len() && 0 <= j < g0.len() && cell_is_discovered(
                                    gnew[i],
                                ) && cnt_of(gnew[i]) == 0 && #[trigger] is_nbr(
                                    s,
                                    w,
                                    i,
                                    j,
                                ) implies (cell_is_discovered(gnew[j]) || cell_is_marked(gnew[j])
                                || in_queue(qnew, s, j)) by {
                                if i == p {
                                    let t0 = choose|t: int|
                                        0 <= t < qnew.len() && lin(s, #[trigger] qnew[t]) == j;
                                    assert(in_queue(qnew, s, j));
                                } else {
                                    assert(cell_is_discovered(g0[i]) && cnt_of(g0[i]) == 0);
                                    assert(cell_is_discovered(g0[j]) || cell_is_marked(g0[j]));
                                }
                            }
                        }
                        assert forall|t: int| 0 <= t < qnew.len() implies zero_reachable(
                            g0,
                            s,
                            w,
                            p,
                            lin(s, #[trigger] qnew[t]),
                        ) by {
                            assert(cell_is_empty(g0[p]) && cnt_of(g0[p]) == 0 && !cell_is_marked(
                                g0[p],
                            ));
                            assert(is_nbr(s, w, p, lin(s, qnew[t])));
                            lemma_zero_reach_base(g0, s, w, p);
                            lemma_zero_reach_step(g0, s, w, p, p, lin(s, qnew[t]));
                        }
                    }
                }
            },
            CellState::MarkedEmpty(c0, d0, h0) => {
                if probe_marked {
                    self.mark_at(coordinates);
                    let ghost g1 = self@.grid;
                    proof {
                        assert(g1[p] == flip_cell(CellState::MarkedEmpty(c0, d0, h0)));
                    }
                    match self.board[pidx] {
                        CellState::UndiscoveredEmpty(c1, d1, h1) => {
                            self.board[pidx] = CellState::DiscoveredEmpty(c1, d1, h1);
                            proof {
                                lemma_update_cell_effects(
                                    g1,
                                    s,
                                    w,
                                    p,
                                    CellState::DiscoveredEmpty(c1, d1, h1),
                                );
                                lemma_count_cells_pos(g1, g1.len() as int, p_undisc_empty(), p);
                            }
                            self.undiscoved_empty_fields = self.undiscoved_empty_fields - 1;
                        },
                        _ => {
                            proof {
                                assert(false);
                            }
                        },
                    }
                }
            },
            CellState::DiscoveredEmpty(_, _, _) => {},
        }
        proof {
            lemma_zero_reach_base(g0, s, w, p);
        }
        while queue.len() > 0
            invariant
                self.wf(),
                self@.size == s,
                self@.wrap == w,
                self@.seed == old(self)@.seed,
                self@.mine_count == old(self)@.mine_count,
                self@.total_fields == old(self)@.total_fields,
                n as int == total_cells(s),
                self@.grid.len() == n as int,
                g0 == old(self)@.grid,
                g0.len() == n as int,
                0 <= p < n as int,
                p == lin(s, coordinates),
                in_bounds(s, coordinates),
                old(self)@.state == GameState::Running,
                size_ok(s),
                total_cells(s) <= 0x7fff_ffff,
                self@.state == (if probe_hits_mine(g0[p], probe_marked) {
                    GameState::Loss
                } else {
                    GameState::Running
                }),
                probe_hits_mine(g0[p], probe_marked) ==> queue@.len() == 0 && cell_is_exploded(
                    self@.grid[p],
                ),
                !probe_marked ==> self@.marked_as_mine == old(self)@.marked_as_mine,
                g0[p] matches CellState::UndiscoveredEmpty(_, _, _) ==> cell_is_discovered(
                    self@.grid[p],
                ),
                (probe_marked && g0[p] matches CellState::MarkedEmpty(_, _, _))
                    ==> cell_is_discovered(self@.grid[p]),
                forall|i: int|
                    0 <= i < n as int ==> probe_cell_evolves(
                        #[trigger] g0[i],
                        self@.grid[i],
                        probe_marked,
                    ),
                forall|t: int|
                    0 <= t < queue@.len() ==> in_bounds(s, #[trigger] queue@[t]) && 0 <= lin(
                        s,
                        queue@[t],
                    ) < n as int && !cell_is_mine(self@.grid[lin(s, queue@[t])]),
                forall|t: int|
                    0 <= t < queue@.len() ==> has_zero_disc_nbr(
                        self@.grid,
                        s,
                        w,
                        n as int,
                        lin(s, #[trigger] queue@[t]),
                    ),
                forall|i: int|
                    0 <= i < n as int && cell_is_discovered(#[trigger] self@.grid[i])
                        && !cell_is_discovered(g0[i]) ==> i == p || has_zero_disc_nbr(
                        self@.grid,
                        s,
                        w,
                        n as int,
                        i,
                    ),
                forall|t: int|
                    0 <= t < queue@.len() ==> zero_reachable(g0, s, w, p, lin(s, #[trigger] queue@[t])),
                forall|i: int|
                    0 <= i < n as int && cell_is_discovered(#[trigger] self@.grid[i])
                        && !cell_is_discovered(g0[i]) ==> zero_reachable(g0, s, w, p, i),
                !probe_marked && zero_closed(g0, s, w) ==> forall|i: int, j: int|
                    0 <= i < n as int && 0 <= j < n as int && cell_is_discovered(self@.grid[i])
                        && cnt_of(self@.grid[i]) == 0 && #[trigger] is_nbr(s, w, i, j) ==> (
                    cell_is_discovered(self@.grid[j]) || cell_is_marked(self@.grid[j]) || in_queue(
                        queue@,
                        s,
                        j,
                    )),
            decreases self@.undiscoved_empty_fields, queue@.len(),
        {
            let ghost qfull = queue@;
            let copt = queue.pop_front();
            let c = copt.unwrap();
            let ghost cq = queue@;
            let ci = index_of(&self.size, &c);
            let ghost gpre = self@.grid;
            proof {
                assert(c == qfull[0]);
                assert(!cell_is_mine(gpre[ci as int]));
            }
            match self.board[ci] {
                CellState::UndiscoveredEmpty(c0, d0, h0) => {
                    self.board[ci] = CellState::DiscoveredEmpty(c0, d0, h0);
                    proof {
                        lemma_update_cell_effects(
                            gpre,
                            s,
                            w,
                            ci as int,
                            CellState::DiscoveredEmpty(c0, d0, h0),
                        );
                        lemma_count_cells_pos(gpre, gpre.len() as int, p_undisc_empty(), ci as int);
                    }
                    self.undiscoved_empty_fields = self.undiscoved_empty_fields - 1;
                    if c0 == 0 {
                        proof {
                            assert(cell_wf(gpre, s, w, ci as int));
                            lemma_count_adj_none(gpre, s, w, ci as int, gpre.len() as int, p_mine());
                        }
                        push_neighbors(&mut queue, self.size, self.wrap, c, n);
                    }
                    proof {
                        let gnew = self@.grid;
                        let qnew = queue@;
                        let cii = ci as int;
                        let nn = g0.len() as int;
                        assert(gnew == gpre.update(cii, CellState::DiscoveredEmpty(c0, d0, h0)));
                        assert forall|z: int|
                            0 <= z < nn && cell_is_discovered(#[trigger] gpre[z]) && cnt_of(
                                gpre[z],
                            ) == 0 implies cell_is_discovered(gnew[z]) && cnt_of(gnew[z])
                            == 0 by {}
                        assert forall|t: int| 0 <= t < qnew.len() implies in_bounds(
                            s,
                            #[trigger] qnew[t],
                        ) && 0 <= lin(s, qnew[t]) < nn && !cell_is_mine(gnew[lin(s, qnew[t])])
                            && has_zero_disc_nbr(gnew, s, w, nn, lin(s, qnew[t])) by {
                            if t < cq.len() {
                                assert(qnew[t] == qfull[t + 1]);
                                assert(!cell_is_mine(gpre[lin(s, qnew[t])]));
                                assert(has_zero_disc_nbr(gpre, s, w, nn, lin(s, qfull[t + 1])));
                                lemma_zero_nbr_persists(gpre, gnew, s, w, nn, lin(s, qnew[t]));
                            } else {
                                assert(is_nbr(s, w, lin(s, c), lin(s, qnew[t])));
                                assert(!cell_is_mine(gpre[lin(s, qnew[t])]));
                                assert(cell_is_discovered(gnew[cii]) && cnt_of(gnew[cii]) == 0);
                                assert(has_zero_disc_nbr(gnew, s, w, nn, lin(s, qnew[t])));
                            }
                        }
                        assert forall|i: int|
                            0 <= i < nn && cell_is_discovered(#[trigger] gnew[i])
                                && !cell_is_discovered(g0[i]) implies i == p || has_zero_disc_nbr(
                            gnew,
                            s,
                            w,
                            nn,
                            i,
                        ) by {
                            if i == cii {
                                assert(has_zero_disc_nbr(gpre, s, w, nn, lin(s, qfull[0])));
                                lemma_zero_nbr_persists(gpre, gnew, s, w, nn, cii);
                            } else {
                                assert(cell_is_discovered(gpre[i]));
                                if i != p {
                                    assert(has_zero_disc_nbr(gpre, s, w, nn, i));
                                    lemma_zero_nbr_persists(gpre, gnew, s, w, nn, i);
                                }
                            }
                        }
                        assert(zero_reachable(g0, s, w, p, lin(s, qfull[0])));
                        assert forall|t: int| 0 <= t < qnew.len() implies zero_reachable(
                            g0,
                            s,
                            w,
                            p,
                            lin(s, #[trigger] qnew[t]),
                        ) by {
                            if t < cq.len() {
                                assert(qnew[t] == qfull[t + 1]);
                                assert(zero_reachable(g0, s, w, p, lin(s, qfull[t + 1])));
                            } else {
                                assert(probe_cell_evolves(g0[cii], gpre[cii], probe_marked));
                                assert(cell_is_empty(g0[cii]) && cnt_of(g0[cii]) == 0
                                    && !cell_is_marked(g0[cii]));
                                assert(is_nbr(s, w, cii, lin(s, qnew[t])));
                                lemma_zero_reach_step(g0, s, w, p, cii, lin(s, qnew[t]));
                            }
                        }
                        assert forall|i: int|
                            0 <= i < nn && cell_is_discovered(#[trigger] gnew[i])
                                && !cell_is_discovered(g0[i]) implies zero_reachable(
                            g0,
                            s,
                            w,
                            p,
                            i,
                        ) by {
                            if i != cii {
                                assert(cell_is_discovered(gpre[i]));
                            }
                        }
                        if !probe_marked && zero_closed(g0, s, w) {
                            assert forall|i: int, j: int|
                                0 <= i < nn && 0 <= j < nn && cell_is_discovered(gnew[i]) && cnt_of(
                                    gnew[i],
                                ) == 0 && #[trigger] is_nbr(s, w, i, j) implies (cell_is_discovered(
                                gnew[j],
                            ) || cell_is_marked(gnew[j]) || in_queue(qnew, s, j)) by {
                                if i == cii {
                                    assert(cnt_of(gnew[cii]) == c0 as int);
                                    let t0 = choose|t: int|
                                        cq.len() <= t < qnew.len() && lin(s, #[trigger] qnew[t])
                                            == j;
                                    assert(in_queue(qnew, s, j));
                                } else {
                                    assert(cell_is_discovered(gpre[i]) && cnt_of(gpre[i]) == 0);
                                    assert(cell_is_discovered(gpre[j]) || cell_is_marked(gpre[j])
                                        || in_queue(qfull, s, j));
                                    if cell_is_discovered(gpre[j]) || cell_is_marked(gpre[j]) {
                                        assert(cell_is_discovered(gnew[j]) || cell_is_marked(
                                            gnew[j],
                                        ));
                                    } else {
                                        let t0 = choose|t: int|
                                            0 <= t < qfull.len() && lin(s, #[trigger] qfull[t])
                                                == j;
                                        if t0 == 0 {
                                            assert(j == cii);
                                            assert(cell_is_discovered(gnew[j]));
                                        } else {
                                            assert(qnew[t0 - 1] == qfull[t0]);
                                            assert(in_queue(qnew, s, j));
                                        }
                                    }
                                }
                            }
                        }
                    }
                },
                CellState::MarkedEmpty(c0, d0, h0) => {
                    if probe_marked {
                        self.mark_at(c);
                        let ghost g1 = self@.grid;
                        proof {
                            assert(g1[ci as int] == flip_cell(CellState::MarkedEmpty(c0, d0, h0)));
                        }
                        match self.board[ci] {
                            CellState::UndiscoveredEmpty(c1, d1, h1) => {
                                self.board[ci] = CellState::DiscoveredEmpty(c1, d1, h1);
                                proof {
                                    lemma_update_cell_effects(
                                        g1,
                                        s,
                                        w,
                                        ci as int,
                                        CellState::DiscoveredEmpty(c1, d1, h1),
                                    );
                                    lemma_count_cells_pos(
                                        g1,
                                        g1.len() as int,
                                        p_undisc_empty(),
                                        ci as int,
                                    );
                                }
                                self.undiscoved_empty_fields = self.undiscoved_empty_fields - 1;
                            },
                            _ => {
                                proof {
                                    assert(false);
                                }
                            },
                        }
                        proof {
                            let gnew = self@.grid;
                            let qnew = queue@;
                            let cii = ci as int;
                            let nn = g0.len() as int;
                            let gm = marked_grid(gpre, s, w, cii);
                            assert(gnew == gm.update(
                                cii,
                                CellState::DiscoveredEmpty(c0, d0, h0),
                            ));
                            assert forall|z: int| 0 <= z < nn implies cell_is_mine(
                                #[trigger] gnew[z],
                            ) == cell_is_mine(gpre[z]) && (cell_is_discovered(gpre[z])
                                ==> cell_is_discovered(gnew[z]) && cnt_of(gnew[z]) == cnt_of(
                                gpre[z],
                            )) by {
                                if z != cii {
                                    assert(gm[z] == (if is_nbr(s, w, cii, z) && cell_is_empty(
                                        gpre[z],
                                    ) {
                                        bump_cell(gpre[z], 1, false)
                                    } else {
                                        gpre[z]
                                    }));
                                }
                            }
                            assert forall|i: int|
                                0 <= i < nn implies probe_cell_evolves(
                                #[trigger] g0[i],
                                gnew[i],
                                probe_marked,
                            ) by {
                                if i != cii {
                                    assert(gm[i] == (if is_nbr(s, w, cii, i) && cell_is_empty(
                                        gpre[i],
                                    ) {
                                        bump_cell(gpre[i], 1, false)
                                    } else {
                                        gpre[i]
                                    }));
                                    assert(probe_cell_evolves(g0[i], gpre[i], probe_marked));
                                }
                            }
                            assert forall|t: int| 0 <= t < qnew.len() implies in_bounds(
                                s,
                                #[trigger] qnew[t],
                            ) && 0 <= lin(s, qnew[t]) < nn && !cell_is_mine(gnew[lin(s, qnew[t])])
                                && has_zero_disc_nbr(gnew, s, w, nn, lin(s, qnew[t])) by {
                                assert(qnew[t] == qfull[t + 1]);
                                assert(!cell_is_mine(gpre[lin(s, qnew[t])]));
                                assert(has_zero_disc_nbr(gpre, s, w, nn, lin(s, qfull[t + 1])));
                                lemma_zero_nbr_persists(gpre, gnew, s, w, nn, lin(s, qnew[t]));
                            }
                            assert forall|i: int|
                                0 <= i < nn && cell_is_discovered(#[trigger] gnew[i])
                                    && !cell_is_discovered(g0[i]) implies i == p
                                || has_zero_disc_nbr(gnew, s, w, nn, i) by {
                                if i == cii {
                                    assert(has_zero_disc_nbr(gpre, s, w, nn, lin(s, qfull[0])));
                                    lemma_zero_nbr_persists(gpre, gnew, s, w, nn, cii);
                                } else {
                                    assert(gm[i] == (if is_nbr(s, w, cii, i) && cell_is_empty(
                                        gpre[i],
                                    ) {
                                        bump_cell(gpre[i], 1, false)
                                    } else {
                                        gpre[i]
                                    }));
                                    assert(cell_is_discovered(gpre[i]));
                                    if i != p {
                                        assert(has_zero_disc_nbr(gpre, s, w, nn, i));
                                        lemma_zero_nbr_persists(gpre, gnew, s, w, nn, i);
                                    }
                                }
                            }
                            assert forall|t: int| 0 <= t < qnew.len() implies zero_reachable(
                                g0,
                                s,
                                w,
                                p,
                                lin(s, #[trigger] qnew[t]),
                            ) by {
                                assert(qnew[t] == qfull[t + 1]);
                                assert(zero_reachable(g0, s, w, p, lin(s, qfull[t + 1])));
                            }
                            assert forall|i: int|
                                0 <= i < nn && cell_is_discovered(#[trigger] gnew[i])
                                    && !cell_is_discovered(g0[i]) implies zero_reachable(
                                g0,
                                s,
                                w,
                                p,
                                i,
                            ) by {
                                if i == cii {
                                    assert(zero_reachable(g0, s, w, p, lin(s, qfull[0])));
                                } else {
                                    assert(gm[i] == (if is_nbr(s, w, cii, i) && cell_is_empty(
                                        gpre[i],
                                    ) {
                                        bump_cell(gpre[i], 1, false)
                                    } else {
                                        gpre[i]
                                    }));
                                    assert(cell_is_discovered(gpre[i]));
                                }
                            }
                        }
                    } else {
                        proof {
                            assert forall|t: int| 0 <= t < queue@.len() implies in_bounds(
                                s,
                                #[trigger] queue@[t],
                            ) && 0 <= lin(s, queue@[t]) < g0.len() && !cell_is_mine(
                                self@.grid[lin(s, queue@[t])],
                            ) && has_zero_disc_nbr(
                                self@.grid,
                                s,
                                w,
                                g0.len() as int,
                                lin(s, queue@[t]),
                            ) by {
                                assert(queue@[t] == qfull[t + 1]);
                                assert(has_zero_disc_nbr(
                                    self@.grid,
                                    s,
                                    w,
                                    g0.len() as int,
                                    lin(s, qfull[t + 1]),
                                ));
                                assert(zero_reachable(g0, s, w, p, lin(s, qfull[t + 1])));
                            }
                            if !probe_marked && zero_closed(g0, s, w) {
                                assert forall|i: int, j: int|
                                    0 <= i < g0.len() && 0 <= j < g0.len() && cell_is_discovered(
                                        self@.grid[i],
                                    ) && cnt_of(self@.grid[i]) == 0 && #[trigger] is_nbr(
                                        s,
                                        w,
                                        i,
                                        j,
                                    ) implies (cell_is_discovered(self@.grid[j]) || cell_is_marked(
                                    self@.grid[j],
                                ) || in_queue(queue@, s, j)) by {
                                    assert(cell_is_discovered(self@.grid[j]) || cell_is_marked(
                                        self@.grid[j],
                                    ) || in_queue(qfull, s, j));
                                    if !cell_is_discovered(self@.grid[j]) && !cell_is_marked(
                                        self@.grid[j],
                                    ) {
                                        let t0 = choose|t: int|
                                            0 <= t < qfull.len() && lin(s, #[trigger] qfull[t])
                                                == j;
                                        if t0 == 0 {
                                            assert(j == ci as int);
                                            assert(cell_is_marked(self@.grid[j]));
                                        } else {
                                            assert(queue@[t0 - 1] == qfull[t0]);
                                            assert(in_queue(queue@, s, j));
                                        }
                                    }
                                }
                            }
                        }
                    }
                },
                CellState::DiscoveredEmpty(_, _, _) => {
                    proof {
                        assert forall|t: int| 0 <= t < queue@.len() implies in_bounds(
                            s,
                            #[trigger] queue@[t],
                        ) && 0 <= lin(s, queue@[t]) < g0.len() && !cell_is_mine(
                            self@.grid[lin(s, queue@[t])],
                        ) && has_zero_disc_nbr(
                            self@.grid,
                            s,
                            w,
                            g0.len() as int,
                            lin(s, queue@[t]),
                        ) by {
                            assert(queue@[t] == qfull[t + 1]);
                            assert(has_zero_disc_nbr(
                                self@.grid,
                                s,
                                w,
                                g0.len() as int,
                                lin(s, qfull[t + 1]),
                            ));
                            assert(zero_reachable(g0, s, w, p, lin(s, qfull[t + 1])));
                        }
                        if !probe_marked && zero_closed(g0, s, w) {
                            assert forall|i: int, j: int|
                                0 <= i < g0.len() && 0 <= j < g0.len() && cell_is_discovered(
                                    self@.grid[i],
                                ) && cnt_of(self@.grid[i]) == 0 && #[trigger] is_nbr(
                                    s,
                                    w,
                                    i,
                                    j,
                                ) implies (cell_is_discovered(self@.grid[j]) || cell_is_marked(
                                self@.grid[j],
                            ) || in_queue(queue@, s, j)) by {
                                assert(cell_is_discovered(self@.grid[j]) || cell_is_marked(
                                    self@.grid[j],
                                ) || in_queue(qfull, s, j));
                                if !cell_is_discovered(self@.grid[j]) && !cell_is_marked(
                                    self@.grid[j],
                                ) {
                                    let t0 = choose|t: int|
                                        0 <= t < qfull.len() && lin(s, #[trigger] qfull[t]) == j;
                                    if t0 == 0 {
                                        assert(j == ci as int);
                                        assert(cell_is_discovered(self@.grid[j]));
                                    } else {
                                        assert(queue@[t0 - 1] == qfull[t0]);
                                        assert(in_queue(queue@, s, j));
                                    }
                                }
                            }
                        }
                    }
                },
                _ => {
                    proof {
                        assert(false);
                    }
                },
            }
        }
        match self.state {
            GameState::Loss => {},
            _ => {
                if self.undiscoved_empty_fields == 0 {
                    self.state = GameState::Victory;
                }
            },
        }
        self.state
    }
}

pub open spec fn p_marked_mine() -> spec_fn(CellState) -> bool {
    |cs: CellState| cell_is_marked(cs) && cell_is_mine(cs)
}

/// On a board whose marked cells are all mines, every empty cell's delta is
/// its mine count minus the number of marked mines among its neighbors. (In
/// general the delta tracks all marked neighbors: marking an empty cell
/// lowers the deltas around it just the same.)
pub proof fn lemma_delta_counts_marked_mines(b: BoardView, i: int)
    requires
        board_wf(b),
        0 <= i < b.grid.len(),
        cell_is_empty(b.grid[i]),
        forall|j: int|
            0 <= j < b.grid.len() && cell_is_marked(#[trigger] b.grid[j]) ==> cell_is_mine(
                b.grid[j],
            ),
    ensures
        delta_of(b.grid[i]) == cnt_of(b.grid[i]) - count_adj(
            b.grid,
            b.size,
            b.wrap,
            i,
            b.grid.len() as int,
            p_marked_mine(),
        ),
{
    assert(cell_wf(b.grid, b.size, b.wrap, i));
    lemma_count_adj_pred_congr(
        b.grid,
        b.size,
        b.wrap,
        i,
        b.grid.len() as int,
        p_marked(),
        p_marked_mine(),
    );
}

/// In a board where every discovered zero cell is surrounded by discovered
/// or marked cells, discovery propagates along any chain of unmarked
/// zero-count cells: once the first cell of the chain is discovered, so is
/// the last. Together with what `probe_at` guarantees, probing a zero cell
/// reveals its whole connected zero region and the numbered cells at its
/// border.
pub proof fn lemma_zero_region_revealed(
    g: Seq<CellState>,
    s: [usize; 6],
    w: [bool; 6],
    path: Seq<int>,
)
    requires
        zero_closed(g, s, w),
        path.len() >= 1,
        forall|k: int| 0 <= k < path.len() ==> 0 <= #[trigger] path[k] < g.len(),
        forall|k: int|
            0 <= k < path.len() ==> cnt_of(g[#[trigger] path[k]]) == 0 && cell_is_empty(
                g[path[k]],
            ) && !cell_is_marked(g[path[k]]),
        forall|k: int| 0 <= k < path.len() - 1 ==> is_nbr(s, w, #[trigger] path[k], path[k + 1]),
        cell_is_discovered(g[path[0]]),
    ensures
        cell_is_discovered(g[path.last()]),
    decreases path.len(),
{
    if path.len() > 1 {
        assert(is_nbr(s, w, path[0], path[1]));
        assert(cell_is_discovered(g[path[1]]) || cell_is_marked(g[path[1]]));
        let tail = path.skip(1);
        assert forall|k: int| 0 <= k < tail.len() implies 0 <= #[trigger] tail[k] < g.len()
            && cnt_of(g[tail[k]]) == 0 && cell_is_empty(g[tail[k]]) && !cell_is_marked(
            g[tail[k]],
        ) by {
            assert(tail[k] == path[k + 1]);
        }
        assert forall|k: int| 0 <= k < tail.len() - 1 implies is_nbr(
            s,
            w,
            #[trigger] tail[k],
            tail[k + 1],
        ) by {
            assert(tail[k] == path[k + 1]);
            assert(tail[k + 1] == path[k + 2]);
            assert(is_nbr(s, w, path[k + 1], path[k + 2]));
        }
        lemma_zero_region_revealed(g, s, w, tail);
        assert(tail.last() == path.last());
    }
}

/// Shape of a freshly generated grid before neighbor counting: every cell
/// is a bare undiscovered mine or a bare undiscovered empty cell.
pub open spec fn placement_ok(g: Seq<CellState>) -> bool {
    forall|i: int|
        0 <= i < g.len() ==> (#[trigger] g[i] == CellState::UndiscoveredMine(0) || g[i]
            == CellState::UndiscoveredEmpty(0, 0, 0))
}

/// Whether the cell holds a mine.
fn is_mine_cell(cs: CellState) -> (b: bool)
    ensures
        b == cell_is_mine(cs),
{
    match cs {
        CellState::UndiscoveredMine(_) | CellState::MarkedMine(_) | CellState::ExplodedMine(_)
            => true,
        _ => false,
    }
}

/// Places exactly `mine_count` mines on a fresh grid by rejection sampling
/// from `rng`; if the random draws fail to hit enough distinct empty cells
/// within a generous budget, the remaining mines are laid into the first
/// empty cells in order, so placement always terminates with the exact
/// count.
fn place_mines(s: [usize; 6], n: usize, mine_count: u32, rng: &mut ChaCha8Rng) -> (g: Vec<
    CellState,
>)
    requires
        size_ok(s),
        n as int == total_cells(s),
        total_cells(s) <= 0x7fff_ffff,
        1 <= mine_count,
        (mine_count as int) < n as int,
    ensures
        g@.len() == n as int,
        placement_ok(g@),
        count_cells(g@, n as int, p_mine()) == mine_count as int,
{
    let mut g: Vec<CellState> = Vec::new();
    let mut i: usize = 0;
    while i < n
        invariant
            g@.len() == i as int,
            i <= n,
            forall|t: int| 0 <= t < i as int ==> #[trigger] g@[t] == CellState::UndiscoveredEmpty(0, 0, 0),
        decreases n - i,
    {
        g.push(CellState::UndiscoveredEmpty(0, 0, 0));
        i = i + 1;
    }
    proof {
        lemma_count_cells_none(g@, n as int, p_mine());
    }
    let mut placed: u32 = 0;
    let mut budget: u64 = 64u64 * (mine_count as u64) + 4096u64;
    while placed < mine_count && budget > 0
        invariant
            size_ok(s),
            n as int == total_cells(s),
            total_cells(s) <= 0x7fff_ffff,
            g@.len() == n as int,
            placement_ok(g@),
            placed <= mine_count,
            count_cells(g@, n as int, p_mine()) == placed as int,
        decreases budget,
    {
        let c0: usize = if s[0] > 1 {
            rng_below(rng, s[0])
        } else {
            0
        };
        let c1: usize = if s[1] > 1 {
            rng_below(rng, s[1])
        } else {
            0
        };
        let c2: usize = if s[2] > 1 {
            rng_below(rng, s[2])
        } else {
            0
        };
        let c3: usize = if s[3] > 1 {
            rng_below(rng, s[3])
        } else {
            0
        };
        let c4: usize = if s[4] > 1 {
            rng_below(rng, s[4])
        } else {
            0
        };
        let c5: usize = if s[5] > 1 {
            rng_below(rng, s[5])
        } else {
            0
        };
        let c: [usize; 6] = [c0, c1, c2, c3, c4, c5];
        let idx = index_of(&s, &c);
        let ghost gold = g@;
        match g[idx] {
            CellState::UndiscoveredEmpty(_, _, _) => {
                g[idx] = CellState::UndiscoveredMine(0);
                proof {
                    lemma_count_cells_update(
                        gold,
                        idx as int,
                        CellState::UndiscoveredMine(0),
                        n as int,
                        p_mine(),
                    );
                }
                placed = placed + 1;
            },
            _ => {},
        }
        budget = budget - 1;
    }
    let mut j: usize = 0;
    while j < n && placed < mine_count
        invariant
            n as int == total_cells(s),
            g@.len() == n as int,
            placement_ok(g@),
            placed <= mine_count,
            (mine_count as int) < n as int,
            count_cells(g@, n as int, p_mine()) == placed as int,
            j <= n,
            placed < mine_count ==> forall|t: int|
                0 <= t < j as int ==> cell_is_mine(#[trigger] g@[t]),
        decreases n - j,
    {
        let ghost gold = g@;
        match g[j] {
            CellState::UndiscoveredEmpty(_, _, _) => {
                g[j] = CellState::UndiscoveredMine(0);
                proof {
                    lemma_count_cells_update(
                        gold,
                        j as int,
                        CellState::UndiscoveredMine(0),
                        n as int,
                        p_mine(),
                    );
                }
                placed = placed + 1;
            },
            _ => {},
        }
        j = j + 1;
    }
    proof {
        if placed < mine_count {
            lemma_count_cells_all(g@, n as int, p_mine());
        }
    }
    g
}

/// Moves the mine sitting on the protected starting cell to the first cell
/// that holds none, keeping the total mine count.
fn relocate_mine(g: &mut Vec<CellState>, init_idx: usize, n: usize)
    requires
        old(g)@.len() == n as int,
        placement_ok(old(g)@),
        (init_idx as int) < n as int,
        cell_is_mine(old(g)@[init_idx as int]),
        count_cells(old(g)@, n as int, p_mine()) < n as int,
    ensures
        final(g)@.len() == n as int,
        placement_ok(final(g)@),
        count_cells(final(g)@, n as int, p_mine()) == count_cells(old(g)@, n as int, p_mine()),
        !cell_is_mine(final(g)@[init_idx as int]),
{
    let mut t: usize = 0;
    while t < n && is_mine_cell(g[t])
        invariant
            g@ == old(g)@,
            g@.len() == n as int,
            t <= n,
            forall|u: int| 0 <= u < t as int ==> cell_is_mine(#[trigger] g@[u]),
        decreases n - t,
    {
        t = t + 1;
    }
    proof {
        if t == n {
            lemma_count_cells_all(g@, n as int, p_mine());
        }
    }
    let ghost g1 = g@;
    g[init_idx] = CellState::UndiscoveredEmpty(0, 0, 0);
    let ghost g2 = g@;
    g[t] = CellState::UndiscoveredMine(0);
    proof {
        lemma_count_cells_update(
            g1,
            init_idx as int,
            CellState::UndiscoveredEmpty(0, 0, 0),
            n as int,
            p_mine(),
        );
        lemma_count_cells_update(g2, t as int, CellState::UndiscoveredMine(0), n as int, p_mine());
    }
}

/// Fills in the neighbor mine count of every empty cell: each mine raises
/// the count and delta of all its empty neighbors by one, so at the end
/// every empty cell holds exactly the number of mines among its neighbors,
/// and its delta equals that count.
fn count_neighbor_mines(g: &mut Vec<CellState>, s: [usize; 6], w: [bool; 6], n: usize)
    requires
        size_ok(s),
        n as int == total_cells(s),
        total_cells(s) <= 0x7fff_ffff,
        old(g)@.len() == n as int,
        placement_ok(old(g)@),
        count_cells(old(g)@, n as int, p_mine()) < n as int,
    ensures
        final(g)@.len() == n as int,
        forall|i: int| 0 <= i < n as int ==> cell_wf(final(g)@, s, w, i),
        forall|i: int|
            0 <= i < n as int ==> cell_is_mine(#[trigger] final(g)@[i]) == cell_is_mine(
                old(g)@[i],
            ) && hl_of(final(g)@[i]) == 0 && !cell_is_marked(final(g)@[i]) && !cell_is_discovered(
                final(g)@[i],
            ) && !cell_is_exploded(final(g)@[i]),
        count_cells(final(g)@, n as int, p_mine()) == count_cells(old(g)@, n as int, p_mine()),
        count_cells(final(g)@, n as int, p_marked()) == 0,
        count_cells(final(g)@, n as int, p_undisc_empty()) == n as int - count_cells(
            old(g)@,
            n as int,
            p_mine(),
        ),
{
    let ghost g0 = g@;
    let ghost m0 = count_cells(g0, n as int, p_mine());
    let mut j: usize = 0;
    while j < n
        invariant
            size_ok(s),
            n as int == total_cells(s),
            total_cells(s) <= 0x7fff_ffff,
            g@.len() == n as int,
            g0.len() == n as int,
            placement_ok(g0),
            m0 == count_cells(g0, n as int, p_mine()),
            m0 < n as int,
            j <= n,
            forall|i: int|
                0 <= i < n as int ==> cell_is_mine(#[trigger] g@[i]) == cell_is_mine(g0[i]),
            forall|i: int| 0 <= i < n as int && cell_is_mine(g0[i]) ==> #[trigger] g@[i] == g0[i],
            forall|i: int|
                0 <= i < n as int && !cell_is_mine(g0[i]) ==> (#[trigger] g@[i] matches
                    CellState::UndiscoveredEmpty(c, d, h) && h == 0 && c as int == count_adj(
                    g@,
                    s,
                    w,
                    i,
                    j as int,
                    p_mine(),
                ) && d as int == c as int),
        decreases n - j,
    {
        let ghost gpre = g@;
        if is_mine_cell(g[j]) {
            let c = coords_of(&s, j);
            proof {
                lemma_count_cells_congr(gpre, g0, n as int, p_mine());
                assert forall|i: int|
                    0 <= i < n as int && cell_is_empty(#[trigger] gpre[i]) implies delta_of(
                    gpre[i],
                ) < 0x7fff_ffff && cnt_of(gpre[i]) < 0xffff_ffff by {
                    lemma_count_adj_mono(gpre, s, w, i, j as int, n as int, p_mine());
                    lemma_count_adj_le_cells(gpre, s, w, i, n as int, p_mine());
                    lemma_count_adj_bounds(gpre, s, w, i, j as int, p_mine());
                }
            }
            adjust_neighbor_deltas(g, s, w, c, true, true);
            proof {
                assert forall|i: int|
                    0 <= i < n as int && !cell_is_mine(g0[i]) implies (#[trigger] g@[i] matches
                    CellState::UndiscoveredEmpty(cc, d, h) && h == 0 && cc as int == count_adj(
                    g@,
                    s,
                    w,
                    i,
                    j as int + 1,
                    p_mine(),
                ) && d as int == cc as int) by {
                    lemma_count_adj_congr(g@, gpre, s, w, i, j as int, p_mine());
                    lemma_is_nbr_symm(s, w, i, j as int);
                    assert(cell_is_mine(g@[j as int]));
                }
                assert forall|i: int|
                    0 <= i < n as int && cell_is_mine(g0[i]) implies #[trigger] g@[i] == g0[i] by {
                    assert(gpre[i] == g0[i]);
                }
            }
        } else {
            proof {
                assert forall|i: int|
                    0 <= i < n as int && !cell_is_mine(g0[i]) implies (#[trigger] g@[i] matches
                    CellState::UndiscoveredEmpty(cc, d, h) && h == 0 && cc as int == count_adj(
                    g@,
                    s,
                    w,
                    i,
                    j as int + 1,
                    p_mine(),
                ) && d as int == cc as int) by {
                    assert(!cell_is_mine(g@[j as int]));
                }
            }
        }
        j = j + 1;
    }
    proof {
        let gf = g@;
        lemma_count_cells_congr(gf, g0, n as int, p_mine());
        assert forall|i: int| 0 <= i < n as int implies cell_wf(gf, s, w, i) by {
            if !cell_is_mine(g0[i]) {
                lemma_count_adj_le_cells(gf, s, w, i, n as int, p_marked());
                lemma_count_cells_none(gf, n as int, p_marked());
                lemma_count_adj_bounds(gf, s, w, i, n as int, p_marked());
            }
        }
        lemma_count_cells_none(gf, n as int, p_marked());
        lemma_count_cells_complement(gf, n as int, p_undisc_empty(), p_mine());
    }
}

impl GameBoard {
    /// Builds a new board: allocates the grid, resolves the seed (the given
    /// one, or a fresh machine-random one), places exactly `mine_count`
    /// mines by seeded rejection sampling, and fills in every neighbor
    /// count. When no seed was given and a starting coordinate was, layouts
    /// that put a mine under that coordinate are retried with fresh seeds
    /// and, should randomness refuse to cooperate, the offending mine is
    /// finally moved aside, so the first probe is safe. A seeded game skips
    /// that protection: its layout is exactly what the seed dictates, and
    /// the starting probe may lose at once. If a starting coordinate was
    /// given, it is probed before the board is handed back.
    ///
    /// The caller guarantees sane parameters: no axis is empty, the mine
    /// count is at least one and leaves at least one empty cell, and the
    /// total cell count stays within the 31 bits that the dense grid and
    /// the per-cell 32-bit counters can accommodate.
    pub fn new(
        sizes: [usize; 6],
        wraps: [bool; 6],
        mine_count: u32,
        initial: Option<[usize; 6]>,
        seed: Option<u64>,
    ) -> (r: Self)
        requires
            size_ok(sizes),
            total_cells(sizes) <= 0x7fff_ffff,
            1 <= mine_count,
            (mine_count as int) < total_cells(sizes),
            (initial matches Some(c) ==> in_bounds(sizes, c)),
        ensures
            r.wf(),
            r@.size == sizes,
            r@.wrap == wraps,
            r@.mine_count == mine_count,
            r@.total_fields as int == total_cells(sizes),
            (seed matches Some(v) ==> r@.seed == v),
            r@.marked_as_mine == 0,
            forall|i: int|
                0 <= i < r@.grid.len() ==> hl_of(#[trigger] r@.grid[i]) == 0 && !cell_is_marked(
                    r@.grid[i],
                ),
            zero_closed(r@.grid, sizes, wraps),
            initial is None ==> r@.state == GameState::Running
                && r@.undiscoved_empty_fields as int == total_cells(sizes) - mine_count && forall|
                i: int,
            |
                0 <= i < r@.grid.len() ==> !cell_is_discovered(#[trigger] r@.grid[i])
                    && !cell_is_exploded(r@.grid[i]),
            (initial matches Some(c) ==> (seed is None ==> cell_is_discovered(
                r@.grid[lin(sizes, c)],
            ) && r@.state != GameState::Loss)),
            (initial matches Some(c) ==> (r@.state == GameState::Loss <==> cell_is_exploded(
                r@.grid[lin(sizes, c)],
            ))),
    {
        proof {
            lemma_prod_from_le_total(sizes, 1);
            lemma_prod_from_le_total(sizes, 2);
            lemma_prod_from_le_total(sizes, 3);
            lemma_prod_from_le_total(sizes, 4);
            lemma_prod_from_le_total(sizes, 5);
            lemma_prod_from_le_total(sizes, 6);
            assert(prod_from(sizes, 6) == 1);
            assert(prod_from(sizes, 5) == sizes[5] as int * prod_from(sizes, 6));
        }
        let mut n: usize = sizes[5];
        assert(n as int == prod_from(sizes, 5));
        proof {
            assert(sizes[4] as int * (n as int) == prod_from(sizes, 4));
        }
        n = sizes[4] * n;
        proof {
            assert(sizes[3] as int * (n as int) == prod_from(sizes, 3));
        }
        n = sizes[3] * n;
        proof {
            assert(sizes[2] as int * (n as int) == prod_from(sizes, 2));
        }
        n = sizes[2] * n;
        proof {
            assert(sizes[1] as int * (n as int) == prod_from(sizes, 1));
        }
        n = sizes[1] * n;
        proof {
            assert(sizes[0] as int * (n as int) == prod_from(sizes, 0));
        }
        n = sizes[0] * n;
        assert(n as int == total_cells(sizes));
        let mut chacha_seed: u64 = match seed {
            Some(v) => v,
            None => random_seed(),
        };
        let mut rng = seed_rng(chacha_seed);
        let mut grid = place_mines(sizes, n, mine_count, &mut rng);
        if seed.is_none() {
            if let Some(init) = initial {
                let init_idx = index_of(&sizes, &init);
                let mut tries: u32 = 0;
                while tries < 64 && is_mine_cell(grid[init_idx])
                    invariant
                        size_ok(sizes),
                        n as int == total_cells(sizes),
                        total_cells(sizes) <= 0x7fff_ffff,
                        1 <= mine_count,
                        (mine_count as int) < n as int,
                        grid@.len() == n as int,
                        placement_ok(grid@),
                        count_cells(grid@, n as int, p_mine()) == mine_count as int,
                        (init_idx as int) < n as int,
                        tries <= 64,
                    decreases 64 - tries,
                {
                    chacha_seed = random_seed();
                    rng = seed_rng(chacha_seed);
                    grid = place_mines(sizes, n, mine_count, &mut rng);
                    tries = tries + 1;
                }
                if is_mine_cell(grid[init_idx]) {
                    relocate_mine(&mut grid, init_idx, n);
                }
                assert(!cell_is_mine(grid@[lin(sizes, init)]));
            }
        }
        count_neighbor_mines(&mut grid, sizes, wraps, n);
        let mut ret = Self {
            size: sizes,
            wrap: wraps,
            seed: chacha_seed,
            board: grid,
            state: GameState::Running,
            mine_count: mine_count,
            marked_as_mine: 0u64,
            undiscoved_empty_fields: (n as u64) - (mine_count as u64),
            total_fields: n as u64,
        };
        assert(ret.wf());
        assert(zero_closed(ret@.grid, sizes, wraps));
        match initial {
            Some(init) => {
                let ghost pre = ret@;
                ret.probe_at(init, false);
                proof {
                    let pl = lin(sizes, init);
                    lemma_ax_lin(sizes, init);
                    assert forall|i: int|
                        0 <= i < ret@.grid.len() implies hl_of(#[trigger] ret@.grid[i]) == 0
                        && !cell_is_marked(ret@.grid[i]) by {
                        assert(probe_cell_evolves(pre.grid[i], ret@.grid[i], false));
                    }
                    assert(ret@.state == GameState::Loss <==> probe_hits_mine(pre.grid[pl], false));
                    if !probe_hits_mine(pre.grid[pl], false) {
                        assert(probe_cell_evolves(pre.grid[pl], ret@.grid[pl], false));
                        assert(!cell_is_exploded(ret@.grid[pl]));
                    }
                }
            },
            None => {},
        }
        ret
    }
}

/// The same cell with its highlight bitmask replaced.
pub open spec fn with_hl(cs: CellState, h: u8) -> CellState {
    match cs {
        CellState::UndiscoveredMine(_) => CellState::UndiscoveredMine(h),
        CellState::MarkedMine(_) => CellState::MarkedMine(h),
        CellState::ExplodedMine(_) => CellState::ExplodedMine(h),
        CellState::UndiscoveredEmpty(c, d, _) => CellState::UndiscoveredEmpty(c, d, h),
        CellState::MarkedEmpty(c, d, _) => CellState::MarkedEmpty(c, d, h),
        CellState::DiscoveredEmpty(c, d, _) => CellState::DiscoveredEmpty(c, d, h),
    }
}

/// Cells that agree in variant, neighbor count and delta — they may differ
/// only in their highlight bitmask.
pub open spec fn same_core(a: CellState, b: CellState) -> bool {
    &&& cell_is_mine(a) == cell_is_mine(b)
    &&& cell_is_marked(a) == cell_is_marked(b)
    &&& cell_is_empty(a) == cell_is_empty(b)
    &&& cell_is_undisc_empty(a) == cell_is_undisc_empty(b)
    &&& cell_is_discovered(a) == cell_is_discovered(b)
    &&& cnt_of(a) == cnt_of(b)
    &&& delta_of(a) == delta_of(b)
}

/// Direction in which marking the given cell moves its neighbors' deltas:
/// marking an unmarked cell lowers them, unmarking a marked cell raises
/// them, and terminal cells move nothing.
pub open spec fn nbr_shift(cs: CellState) -> int {
    match cs {
        CellState::UndiscoveredMine(_) | CellState::UndiscoveredEmpty(_, _, _) => -1,
        CellState::MarkedMine(_) | CellState::MarkedEmpty(_, _, _) => 1,
        _ => 0,
    }
}

/// The cell with its marked status toggled; terminal cells are unchanged.
pub open spec fn flip_cell(cs: CellState) -> CellState {
    match cs {
        CellState::UndiscoveredMine(h) => CellState::MarkedMine(h),
        CellState::MarkedMine(h) => CellState::UndiscoveredMine(h),
        CellState::UndiscoveredEmpty(c, d, h) => CellState::MarkedEmpty(c, d, h),
        CellState::MarkedEmpty(c, d, h) => CellState::UndiscoveredEmpty(c, d, h),
        _ => cs,
    }
}

/// An empty cell with its delta moved by `by` and, when `wc` is set, its
/// neighbor mine count raised by one; other cells are unchanged.
pub open spec fn bump_cell(cs: CellState, by: int, wc: bool) -> CellState {
    match cs {
        CellState::UndiscoveredEmpty(c, d, h) => CellState::UndiscoveredEmpty(
            if wc {
                (c as int + 1) as u32
            } else {
                c
            },
            (d as int + by) as i32,
            h,
        ),
        CellState::MarkedEmpty(c, d, h) => CellState::MarkedEmpty(
            if wc {
                (c as int + 1) as u32
            } else {
                c
            },
            (d as int + by) as i32,
            h,
        ),
        CellState::DiscoveredEmpty(c, d, h) => CellState::DiscoveredEmpty(
            if wc {
                (c as int + 1) as u32
            } else {
                c
            },
            (d as int + by) as i32,
            h,
        ),
        _ => cs,
    }
}

/// Change of the marked-cells counter when the cell at `p` is toggled.
pub open spec fn mark_count_delta(g: Seq<CellState>, p: int) -> int {
    -nbr_shift(g[p])
}

/// The whole grid after toggling the mark on the cell at linear position
/// `p`: that cell is flipped, and the delta of every empty neighbor moves
/// with it. A terminal cell at `p` leaves the grid unchanged.
pub open spec fn marked_grid(g: Seq<CellState>, s: [usize; 6], w: [bool; 6], p: int) -> Seq<
    CellState,
> {
    Seq::new(
        g.len(),
        |i: int|
            if nbr_shift(g[p]) == 0 {
                g[i]
            } else if i == p {
                flip_cell(g[p])
            } else if is_nbr(s, w, p, i) && cell_is_empty(g[i]) {
                bump_cell(g[i], nbr_shift(g[p]), false)
            } else {
                g[i]
            },
    )
}

/// Marking is an involution: toggling the same coordinate twice restores
/// every cell — the toggled cell itself and all neighbor deltas — exactly,
/// and the two changes to the marked-cells counter cancel.
pub proof fn lemma_mark_involution(g: Seq<CellState>, s: [usize; 6], w: [bool; 6], p: int)
    requires
        0 <= p < g.len(),
        forall|i: int|
            0 <= i < g.len() && cell_is_empty(#[trigger] g[i]) ==> -0x8000_0000 < delta_of(g[i])
                < 0x7fff_ffff,
    ensures
        marked_grid(marked_grid(g, s, w, p), s, w, p) == g,
        mark_count_delta(marked_grid(g, s, w, p), p) == -mark_count_delta(g, p),
{
    let g1 = marked_grid(g, s, w, p);
    if nbr_shift(g[p]) == 0 {
        assert(g1 =~= g);
        assert(marked_grid(g1, s, w, p) =~= g);
    } else {
        assert(g1[p] == flip_cell(g[p]));
        assert(nbr_shift(g1[p]) == -nbr_shift(g[p]));
        assert forall|i: int| 0 <= i < g.len() implies #[trigger] marked_grid(g1, s, w, p)[i] == g[i] by {
            if i == p {
            } else if is_nbr(s, w, p, i) && cell_is_empty(g[i]) {
                assert(g1[i] == bump_cell(g[i], nbr_shift(g[p]), false));
            }
        }
        assert(marked_grid(g1, s, w, p) =~= g);
    }
}

/// Moves the delta of every empty neighbor of `center` one step up (`inc`)
/// or down (`!inc`); with `with_count` (only together with `inc`, at
/// generation time) the neighbor mine count moves up as well.
fn adjust_neighbor_deltas(
    board: &mut Vec<CellState>,
    s: [usize; 6],
    w: [bool; 6],
    center: [usize; 6],
    inc: bool,
    with_count: bool,
)
    requires
        size_ok(s),
        total_cells(s) <= 0x7fff_ffff,
        old(board)@.len() == total_cells(s),
        in_bounds(s, center),
        with_count ==> inc,
        forall|i: int|
            0 <= i < old(board)@.len() && cell_is_empty(#[trigger] old(board)@[i]) ==> (if inc {
                delta_of(old(board)@[i]) < 0x7fff_ffff
            } else {
                delta_of(old(board)@[i]) > -0x8000_0000
            }),
        with_count ==> forall|i: int|
            0 <= i < old(board)@.len() && cell_is_empty(#[trigger] old(board)@[i]) ==> cnt_of(
                old(board)@[i],
            ) < 0xffff_ffff,
    ensures
        final(board)@.len() == old(board)@.len(),
        forall|i: int|
            0 <= i < old(board)@.len() ==> #[trigger] final(board)@[i] == (if is_nbr(
                s,
                w,
                lin(s, center),
                i,
            ) && cell_is_empty(old(board)@[i]) {
                bump_cell(
                    old(board)@[i],
                    if inc {
                        1int
                    } else {
                        -1int
                    },
                    with_count,
                )
            } else {
                old(board)@[i]
            }),
{
    let ghost g0 = board@;
    let ghost by: int = if inc {
        1int
    } else {
        -1int
    };
    let n = board.len();
    let mut j: usize = 0;
    while j < n
        invariant
            size_ok(s),
            total_cells(s) <= 0x7fff_ffff,
            in_bounds(s, center),
            n as int == total_cells(s),
            board@.len() == n,
            g0.len() == n,
            0 <= j <= n,
            by == (if inc {
                1int
            } else {
                -1int
            }),
            with_count ==> inc,
            forall|i: int|
                0 <= i < n && cell_is_empty(#[trigger] g0[i]) ==> (if inc {
                    delta_of(g0[i]) < 0x7fff_ffff
                } else {
                    delta_of(g0[i]) > -0x8000_0000
                }),
            with_count ==> forall|i: int|
                0 <= i < n && cell_is_empty(#[trigger] g0[i]) ==> cnt_of(g0[i]) < 0xffff_ffff,
            forall|i: int|
                0 <= i < n ==> #[trigger] board@[i] == (if i < j && is_nbr(s, w, lin(s, center), i)
                    && cell_is_empty(g0[i]) {
                    bump_cell(g0[i], by, with_count)
                } else {
                    g0[i]
                }),
        decreases n - j,
    {
        let d = coords_of(&s, j);
        if is_adjacent(&s, &w, &center, &d) {
            match board[j] {
                CellState::UndiscoveredEmpty(c, dl, h) => {
                    let nc = if with_count {
                        c + 1
                    } else {
                        c
                    };
                    let nd = if inc {
                        dl + 1
                    } else {
                        dl - 1
                    };
                    board[j] = CellState::UndiscoveredEmpty(nc, nd, h);
                },
                CellState::MarkedEmpty(c, dl, h) => {
                    let nc = if with_count {
                        c + 1
                    } else {
                        c
                    };
                    let nd = if inc {
                        dl + 1
                    } else {
                        dl - 1
                    };
                    board[j] = CellState::MarkedEmpty(nc, nd, h);
                },
                CellState::DiscoveredEmpty(c, dl, h) => {
                    let nc = if with_count {
                        c + 1
                    } else {
                        c
                    };
                    let nd = if inc {
                        dl + 1
                    } else {
                        dl - 1
                    };
                    board[j] = CellState::DiscoveredEmpty(nc, nd, h);
                },
                _ => {},
            }
        }
        j = j + 1;
    }
}

/// Grids that agree cell by cell up to highlights satisfy the same per-cell
/// invariants.
proof fn lemma_same_shape_preserves_wf(
    g1: Seq<CellState>,
    g2: Seq<CellState>,
    s: [usize; 6],
    w: [bool; 6],
)
    requires
        g1.len() == g2.len(),
        forall|j: int| 0 <= j < g1.len() ==> same_core(#[trigger] g1[j], #[trigger] g2[j]),
        forall|i: int| 0 <= i < g1.len() ==> cell_wf(g1, s, w, i),
    ensures
        forall|i: int| 0 <= i < g2.len() ==> cell_wf(g2, s, w, i),
{
    assert forall|i: int| 0 <= i < g2.len() implies cell_wf(g2, s, w, i) by {
        lemma_count_adj_congr(g1, g2, s, w, i, g1.len() as int, p_mine());
        lemma_count_adj_congr(g1, g2, s, w, i, g1.len() as int, p_marked());
        assert(cell_wf(g1, s, w, i));
        assert(same_core(g1[i], g2[i]));
    }
}

} // verus!
