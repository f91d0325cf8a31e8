use vstd::prelude::*;

use crate::lemmas::lemma_cell_index_in_range;
use crate::lemmas::lemma_cell_index_injective;
use crate::lemmas::lemma_count_none_zero;
use crate::lemmas::lemma_dir_captures_props;
use crate::lemmas::lemma_ray_step_unique;
use crate::piece::opposite;
use crate::piece::Piece;
use crate::rules::cell_index;
use crate::rules::count_none;
use crate::rules::dir_captures;
use crate::rules::dir_ok;
use crate::rules::in_bounds;
use crate::rules::is_legal_for;
use crate::rules::has_legal_move;
use crate::rules::piece_captures;
use crate::rules::ray_point;
use crate::rules::run_len;
use crate::rules::sandwich;
use crate::rules::seeded_view;
use crate::rules::GameView;

verus! {

/// Resetting is idempotent: the state after a reset is the seeded state of
/// the board's side length, that state keeps the same side length, and
/// seeding it again reproduces it exactly. Two resets in a row therefore
/// end in the very state one reset ends in.
pub proof fn lemma_reset_idempotent(n: nat)
    ensures
        seeded_view(n).n == n,
        seeded_view(seeded_view(n).n) == seeded_view(n),
{
}

/// On a board with no empty cell nothing is legal for either color, so no
/// player has a move anywhere: the game can only end.
pub proof fn lemma_full_board_no_moves(v: GameView)
    requires
        v.wf(),
        count_none(v.cells) == 0,
    ensures
        forall|p: Piece, x: int, y: int| !(#[trigger] is_legal_for(v, p, x, y)),
        forall|p: Piece| !(#[trigger] has_legal_move(v, p)),
{
    lemma_count_none_zero(v.cells);
    assert forall|p: Piece, x: int, y: int| !(#[trigger] is_legal_for(v, p, x, y)) by {
        if in_bounds(v.n, x, y) {
            lemma_cell_index_in_range(v.n, x, y);
            assert(v.cells[cell_index(v.n, x, y)] is Some);
        }
    }
}

/// A point of the plane reached by walking outward from the origin lies on
/// exactly one of the eight rays: the direction and the step count that
/// reach it are unique.
pub proof fn lemma_ray_membership_unique(
    n: nat,
    x: int,
    y: int,
    dx1: int,
    dy1: int,
    k1: int,
    dx2: int,
    dy2: int,
    k2: int,
)
    requires
        dir_ok(dx1, dy1),
        dir_ok(dx2, dy2),
        k1 >= 1,
        k2 >= 1,
        in_bounds(n, x + k1 * dx1, y + k1 * dy1),
        in_bounds(n, x + k2 * dx2, y + k2 * dy2),
        cell_index(n, x + k1 * dx1, y + k1 * dy1) == cell_index(n, x + k2 * dx2, y + k2 * dy2),
    ensures
        dx1 == dx2,
        dy1 == dy2,
        k1 == k2,
{
    lemma_cell_index_injective(n, x + k1 * dx1, y + k1 * dy1, x + k2 * dx2, y + k2 * dy2);
    lemma_ray_step_unique(dx1, dy1, dx2, dy2, k1, k2);
}

/// Every captured index lies on exactly one of the eight rays from the
/// placement, strictly between the origin and a same-color terminator with
/// no empty cell in between: entry i of the capture list is reached by some
/// direction that sandwiches, at a step within that direction's opposing
/// run (every cell of the run holds the opposing color, and the cell one
/// step past it the mover's own), and by `lemma_ray_membership_unique` no
/// second direction or step reaches the same cell.
pub proof fn lemma_captures_on_rays(v: GameView, p: Piece, x: int, y: int, i: int)
    requires
        v.wf(),
        in_bounds(v.n, x, y),
        0 <= i < piece_captures(v, p, x, y).len(),
    ensures
        exists|dx: int, dy: int, k: int|
            dir_ok(dx, dy) && sandwich(v, p, x, y, dx, dy) && 1 <= k <= run_len(v, p, x, y, dx, dy)
                && in_bounds(v.n, x + k * dx, y + k * dy) && piece_captures(v, p, x, y)[i]
                == #[trigger] ray_point(v.n, x, y, dx, dy, k),
        0 <= piece_captures(v, p, x, y)[i] < v.cells.len(),
        v.cells[piece_captures(v, p, x, y)[i]] == Some(opposite(p)),
{
    let c1 = dir_captures(v, p, x, y, 0, 1);
    let c2 = dir_captures(v, p, x, y, 0, -1);
    let c3 = dir_captures(v, p, x, y, -1, 0);
    let c4 = dir_captures(v, p, x, y, 1, 0);
    let c5 = dir_captures(v, p, x, y, 1, 1);
    let c6 = dir_captures(v, p, x, y, 1, -1);
    let c7 = dir_captures(v, p, x, y, -1, 1);
    let c8 = dir_captures(v, p, x, y, -1, -1);
    let o0: int = 0;
    let o1: int = o0 + c1.len();
    let o2: int = o1 + c2.len();
    let o3: int = o2 + c3.len();
    let o4: int = o3 + c4.len();
    let o5: int = o4 + c5.len();
    let o6: int = o5 + c6.len();
    let o7: int = o6 + c7.len();
    let o8: int = o7 + c8.len();
    assert(piece_captures(v, p, x, y).len() == o8);
    if i < o1 {
        assert(piece_captures(v, p, x, y)[i] == c1[i - o0]);
        lemma_dir_witness(v, p, x, y, 0, 1, piece_captures(v, p, x, y)[i], i - o0);
        assert(dir_ok(0, 1) && piece_captures(v, p, x, y)[i] == ray_point(
            v.n,
            x,
            y,
            0,
            1,
            i - o0 + 1,
        ));
    }
    else if i < o2 {
        assert(piece_captures(v, p, x, y)[i] == c2[i - o1]);
        lemma_dir_witness(v, p, x, y, 0, -1, piece_captures(v, p, x, y)[i], i - o1);
        assert(dir_ok(0, -1) && piece_captures(v, p, x, y)[i] == ray_point(
            v.n,
            x,
            y,
            0,
            -1,
            i - o1 + 1,
        ));
    }
    else if i < o3 {
        assert(piece_captures(v, p, x, y)[i] == c3[i - o2]);
        lemma_dir_witness(v, p, x, y, -1, 0, piece_captures(v, p, x, y)[i], i - o2);
        assert(dir_ok(-1, 0) && piece_captures(v, p, x, y)[i] == ray_point(
            v.n,
            x,
            y,
            -1,
            0,
            i - o2 + 1,
        ));
    }
    else if i < o4 {
        assert(piece_captures(v, p, x, y)[i] == c4[i - o3]);
        lemma_dir_witness(v, p, x, y, 1, 0, piece_captures(v, p, x, y)[i], i - o3);
        assert(dir_ok(1, 0) && piece_captures(v, p, x, y)[i] == ray_point(
            v.n,
            x,
            y,
            1,
            0,
            i - o3 + 1,
        ));
    }
    else if i < o5 {
        assert(piece_captures(v, p, x, y)[i] == c5[i - o4]);
        lemma_dir_witness(v, p, x, y, 1, 1, piece_captures(v, p, x, y)[i], i - o4);
        assert(dir_ok(1, 1) && piece_captures(v, p, x, y)[i] == ray_point(
            v.n,
            x,
            y,
            1,
            1,
            i - o4 + 1,
        ));
    }
    else if i < o6 {
        assert(piece_captures(v, p, x, y)[i] == c6[i - o5]);
        lemma_dir_witness(v, p, x, y, 1, -1, piece_captures(v, p, x, y)[i], i - o5);
        assert(dir_ok(1, -1) && piece_captures(v, p, x, y)[i] == ray_point(
            v.n,
            x,
            y,
            1,
            -1,
            i - o5 + 1,
        ));
    }
    else if i < o7 {
        assert(piece_captures(v, p, x, y)[i] == c7[i - o6]);
        lemma_dir_witness(v, p, x, y, -1, 1, piece_captures(v, p, x, y)[i], i - o6);
        assert(dir_ok(-1, 1) && piece_captures(v, p, x, y)[i] == ray_point(
            v.n,
            x,
            y,
            -1,
            1,
            i - o6 + 1,
        ));
    }
    else {
        assert(piece_captures(v, p, x, y)[i] == c8[i - o7]);
        lemma_dir_witness(v, p, x, y, -1, -1, piece_captures(v, p, x, y)[i], i - o7);
        assert(dir_ok(-1, -1) && piece_captures(v, p, x, y)[i] == ray_point(
            v.n,
            x,
            y,
            -1,
            -1,
            i - o7 + 1,
        ));
    }
}

/// What one entry of a direction's capture list witnesses: that direction
/// sandwiches, the entry is the ray's cell one step past its position in
/// the list, that cell is on the board, and it holds the opposing color.
proof fn lemma_dir_witness(
    v: GameView,
    p: Piece,
    x: int,
    y: int,
    dx: int,
    dy: int,
    e: int,
    m: int,
)
    requires
        v.wf(),
        in_bounds(v.n, x, y),
        dir_ok(dx, dy),
        0 <= m < dir_captures(v, p, x, y, dx, dy).len(),
        e == dir_captures(v, p, x, y, dx, dy)[m],
    ensures
        sandwich(v, p, x, y, dx, dy),
        1 <= m + 1 <= run_len(v, p, x, y, dx, dy),
        in_bounds(v.n, x + (m + 1) * dx, y + (m + 1) * dy),
        e == ray_point(v.n, x, y, dx, dy, m + 1),
        0 <= e < v.cells.len(),
        v.cells[e] == Some(opposite(p)),
{
    lemma_dir_captures_props(v, p, x, y, dx, dy);
    assert(dir_captures(v, p, x, y, dx, dy)[m] == cell_index(
        v.n,
        x + (m + 1) * dx,
        y + (m + 1) * dy,
    ));
}

} // verus!
