use vstd::prelude::*;

use crate::piece::opposite;
use crate::piece::Piece;
use crate::piece::Winner;

verus! {

/// The mathematical model of a game state: the cells in row-major order
/// (index `y * n + x`), the side length, the color to move, and the outcome
/// once the game has ended.
pub ghost struct GameView {
    pub cells: Seq<Option<Piece>>,
    pub n: nat,
    pub turn: Piece,
    pub winner: Option<Winner>,
}

impl GameView {
    /// A well-formed state: an even side length of at least two, and one cell
    /// for every coordinate of the square.
    pub open spec fn wf(self) -> bool {
        &&& self.n >= 2
        &&& self.n % 2 == 0
        &&& self.cells.len() == self.n * self.n
    }
}

/// Whether (x, y) is a coordinate of an n-by-n board.
pub open spec fn in_bounds(n: nat, x: int, y: int) -> bool {
    0 <= x < n && 0 <= y < n
}

/// The row-major index of the coordinate (x, y).
pub open spec fn cell_index(n: nat, x: int, y: int) -> int {
    y * n + x
}

/// The cell of `v` at the coordinate (x, y).
pub open spec fn cell_at(v: GameView, x: int, y: int) -> Option<Piece> {
    v.cells[cell_index(v.n, x, y)]
}

/// Whether (dx, dy) is one of the eight compass directions: a unit step along
/// an axis or a diagonal.
pub open spec fn dir_ok(dx: int, dy: int) -> bool {
    &&& -1 <= dx <= 1
    &&& -1 <= dy <= 1
    &&& !(dx == 0 && dy == 0)
}

/// The number of cells holding the opposing color of `p` that stand in an
/// unbroken run strictly outward from (x, y) along (dx, dy), walking at most
/// `fuel` steps.
pub open spec fn run_from(
    v: GameView,
    p: Piece,
    x: int,
    y: int,
    dx: int,
    dy: int,
    fuel: nat,
) -> nat
    decreases fuel,
{
    if fuel == 0 {
        0
    } else if in_bounds(v.n, x + dx, y + dy) && cell_at(v, x + dx, y + dy) == Some(opposite(p)) {
        1 + run_from(v, p, x + dx, y + dy, dx, dy, (fuel - 1) as nat)
    } else {
        0
    }
}

/// The length of the opposing run strictly outward from (x, y) along
/// (dx, dy). A budget of n steps is enough: a longer run would leave the
/// board (see `lemma_run_len_props`).
pub open spec fn run_len(v: GameView, p: Piece, x: int, y: int, dx: int, dy: int) -> nat {
    run_from(v, p, x, y, dx, dy, v.n)
}

/// Whether the direction (dx, dy) sandwiches for `p` at (x, y): a non-empty
/// opposing run terminated, on the board, by a piece of p's own color.
pub open spec fn sandwich(v: GameView, p: Piece, x: int, y: int, dx: int, dy: int) -> bool {
    let r = run_len(v, p, x, y, dx, dy);
    &&& r >= 1
    &&& in_bounds(v.n, x + (r + 1) * dx, y + (r + 1) * dy)
    &&& cell_at(v, x + (r + 1) * dx, y + (r + 1) * dy) == Some(p)
}

/// The indices captured along one direction: the whole opposing run if the
/// direction sandwiches, and nothing otherwise, ordered outward from (x, y).
pub open spec fn dir_captures(
    v: GameView,
    p: Piece,
    x: int,
    y: int,
    dx: int,
    dy: int,
) -> Seq<int> {
    if sandwich(v, p, x, y, dx, dy) {
        Seq::new(
            run_len(v, p, x, y, dx, dy),
            |j: int| cell_index(v.n, x + (j + 1) * dx, y + (j + 1) * dy),
        )
    } else {
        Seq::empty()
    }
}

/// Every index captured when `p` places at (x, y): the eight directions'
/// captures joined in a fixed scanning order (down, up, left, right, then
/// the four diagonals).
pub open spec fn piece_captures(v: GameView, p: Piece, x: int, y: int) -> Seq<int> {
    dir_captures(v, p, x, y, 0, 1) + dir_captures(v, p, x, y, 0, -1) + dir_captures(
        v,
        p,
        x,
        y,
        -1,
        0,
    ) + dir_captures(v, p, x, y, 1, 0) + dir_captures(v, p, x, y, 1, 1) + dir_captures(
        v,
        p,
        x,
        y,
        1,
        -1,
    ) + dir_captures(v, p, x, y, -1, 1) + dir_captures(v, p, x, y, -1, -1)
}

/// How many cells of `s` are empty.
pub open spec fn count_none(s: Seq<Option<Piece>>) -> nat
    decreases s.len(),
{
    if s.len() == 0 {
        0
    } else {
        count_none(s.drop_last()) + if s.last() is None {
            1nat
        } else {
            0nat
        }
    }
}

/// How many cells of `s` hold a piece of color `p`.
pub open spec fn count_piece(s: Seq<Option<Piece>>, p: Piece) -> nat
    decreases s.len(),
{
    if s.len() == 0 {
        0
    } else {
        count_piece(s.drop_last(), p) + if s.last() == Some(p) {
            1nat
        } else {
            0nat
        }
    }
}

/// How many cells of `s` hold a piece of either color.
pub open spec fn count_occupied(s: Seq<Option<Piece>>) -> nat {
    count_piece(s, Piece::Black) + count_piece(s, Piece::White)
}

/// Whether `p` may place at (x, y): the coordinate is on the board, the cell
/// is empty, and either it is the single empty cell left (the last-cell
/// rule) or some direction sandwiches.
pub open spec fn is_legal_for(v: GameView, p: Piece, x: int, y: int) -> bool {
    &&& in_bounds(v.n, x, y)
    &&& cell_at(v, x, y) is None
    &&& (count_none(v.cells) == 1 || exists|dx: int, dy: int|
        dir_ok(dx, dy) && sandwich(v, p, x, y, dx, dy))
}

/// Whether `p` has a legal placement anywhere on the board.
pub open spec fn has_legal_move(v: GameView, p: Piece) -> bool {
    exists|x: int, y: int| is_legal_for(v, p, x, y)
}

/// The outcome read off a board: whichever color holds more cells wins, and
/// equal counts tie.
pub open spec fn board_outcome(s: Seq<Option<Piece>>) -> Winner {
    if count_piece(s, Piece::Black) > count_piece(s, Piece::White) {
        Winner::Black
    } else if count_piece(s, Piece::White) > count_piece(s, Piece::Black) {
        Winner::White
    } else {
        Winner::Tie
    }
}

/// The canonical seeding of one cell: the four center cells hold two White
/// pieces on one diagonal and two Black pieces on the other; every other
/// cell is empty.
pub open spec fn seed_cell(n: nat, i: int) -> Option<Piece> {
    let c: int = n as int / 2;
    if i == cell_index(n, c - 1, c - 1) || i == cell_index(n, c, c) {
        Some(Piece::White)
    } else if i == cell_index(n, c, c - 1) || i == cell_index(n, c - 1, c) {
        Some(Piece::Black)
    } else {
        None
    }
}

/// The seeded board of side length n.
pub open spec fn seeded_cells(n: nat) -> Seq<Option<Piece>> {
    Seq::new(n * n, |i: int| seed_cell(n, i))
}

/// The state a game starts in and returns to on reset: the seeded board,
/// White to move, no outcome.
pub open spec fn seeded_view(n: nat) -> GameView {
    GameView { cells: seeded_cells(n), n, turn: Piece::White, winner: None }
}

/// The board after `p` places at (x, y): the placed cell and every captured
/// index take p's color; every other cell keeps its piece.
pub open spec fn placed_cells(v: GameView, p: Piece, x: int, y: int) -> Seq<Option<Piece>> {
    let caps = piece_captures(v, p, x, y);
    Seq::new(
        v.cells.len(),
        |i: int|
            if i == cell_index(v.n, x, y) || caps.contains(i) {
                Some(p)
            } else {
                v.cells[i]
            },
    )
}


/// The index of the cell reached from (x, y) by k steps along (dx, dy).
pub open spec fn ray_point(n: nat, x: int, y: int, dx: int, dy: int, k: int) -> int {
    cell_index(n, x + k * dx, y + k * dy)
}

/// The elements of a run of indices, read as mathematical integers.
pub open spec fn as_ints(s: Seq<usize>) -> Seq<int> {
    s.map_values(|u: usize| u as int)
}

} // verus!
