use vstd::prelude::*;

use crate::piece::opposite;
use crate::piece::Piece;
use crate::rules::cell_at;
use crate::rules::cell_index;
use crate::rules::dir_ok;
use crate::rules::in_bounds;
use crate::rules::count_none;
use crate::rules::count_piece;
use crate::rules::dir_captures;
use crate::rules::piece_captures;
use crate::rules::run_from;
use crate::rules::run_len;
use crate::rules::sandwich;
use crate::rules::GameView;

verus! {

/// Distinct on-board coordinates have distinct row-major indices.
#[verifier::nonlinear]
pub proof fn lemma_cell_index_injective(n: nat, x1: int, y1: int, x2: int, y2: int)
    requires
        in_bounds(n, x1, y1),
        in_bounds(n, x2, y2),
        cell_index(n, x1, y1) == cell_index(n, x2, y2),
    ensures
        x1 == x2,
        y1 == y2,
{
}

/// The row-major index of an on-board coordinate lies within the cell array.
#[verifier::nonlinear]
pub proof fn lemma_cell_index_in_range(n: nat, x: int, y: int)
    requires
        in_bounds(n, x, y),
    ensures
        0 <= cell_index(n, x, y) < n * n,
{
}

/// What a walk budget guarantees of the opposing run it measures: the run
/// fits in the budget, every step of the run is an on-board opposing cell,
/// and a run that did not exhaust the budget stops just before a cell that
/// is off the board or not opposing.
pub proof fn lemma_run_from_props(
    v: GameView,
    p: Piece,
    x: int,
    y: int,
    dx: int,
    dy: int,
    fuel: nat,
)
    ensures
        run_from(v, p, x, y, dx, dy, fuel) <= fuel,
        forall|j: int|
            1 <= j <= run_from(v, p, x, y, dx, dy, fuel) ==> in_bounds(v.n, x + j * dx, y + j * dy)
                && #[trigger] cell_at(v, x + j * dx, y + j * dy) == Some(opposite(p)),
        run_from(v, p, x, y, dx, dy, fuel) < fuel ==> ({
            let r = run_from(v, p, x, y, dx, dy, fuel) as int;
            !(in_bounds(v.n, x + (r + 1) * dx, y + (r + 1) * dy) && cell_at(
                v,
                x + (r + 1) * dx,
                y + (r + 1) * dy,
            ) == Some(opposite(p)))
        }),
    decreases fuel,
{
    if fuel == 0 {
    } else if in_bounds(v.n, x + dx, y + dy) && cell_at(v, x + dx, y + dy) == Some(opposite(p)) {
        lemma_run_from_props(v, p, x + dx, y + dy, dx, dy, (fuel - 1) as nat);
        let r = run_from(v, p, x, y, dx, dy, fuel) as int;
        let r1 = run_from(v, p, x + dx, y + dy, dx, dy, (fuel - 1) as nat) as int;
        assert(r == r1 + 1);
        assert forall|j: int| 1 <= j <= r implies in_bounds(v.n, x + j * dx, y + j * dy)
            && #[trigger] cell_at(v, x + j * dx, y + j * dy) == Some(opposite(p)) by {
            if j == 1 {
                assert(x + 1 * dx == x + dx) by (nonlinear_arith);
                assert(y + 1 * dy == y + dy) by (nonlinear_arith);
            } else {
                assert((x + dx) + (j - 1) * dx == x + j * dx) by (nonlinear_arith);
                assert((y + dy) + (j - 1) * dy == y + j * dy) by (nonlinear_arith);
                assert(cell_at(v, (x + dx) + (j - 1) * dx, (y + dy) + (j - 1) * dy) == Some(
                    opposite(p),
                ));
            }
        }
        if r < fuel {
            assert((x + dx) + (r1 + 1) * dx == x + (r + 1) * dx) by (nonlinear_arith)
                requires
                    r == r1 + 1,
            ;
            assert((y + dy) + (r1 + 1) * dy == y + (r + 1) * dy) by (nonlinear_arith)
                requires
                    r == r1 + 1,
            ;
        }
    } else {
        assert(run_from(v, p, x, y, dx, dy, fuel) == 0);
        assert(x + (0 + 1) * dx == x + dx) by (nonlinear_arith);
        assert(y + (0 + 1) * dy == y + dy) by (nonlinear_arith);
    }
}

/// A run measured from an on-board origin never exhausts a budget of n
/// steps: along the moving axis the walk would leave the board first. So
/// `run_len` is the true run length, its cells are on-board opposing cells,
/// and the cell one past it is off the board or not opposing.
pub proof fn lemma_run_len_props(v: GameView, p: Piece, x: int, y: int, dx: int, dy: int)
    requires
        v.wf(),
        in_bounds(v.n, x, y),
        dir_ok(dx, dy),
    ensures
        run_len(v, p, x, y, dx, dy) < v.n,
        forall|j: int|
            1 <= j <= run_len(v, p, x, y, dx, dy) ==> in_bounds(v.n, x + j * dx, y + j * dy)
                && #[trigger] cell_at(v, x + j * dx, y + j * dy) == Some(opposite(p)),
        ({
            let r = run_len(v, p, x, y, dx, dy) as int;
            !(in_bounds(v.n, x + (r + 1) * dx, y + (r + 1) * dy) && cell_at(
                v,
                x + (r + 1) * dx,
                y + (r + 1) * dy,
            ) == Some(opposite(p)))
        }),
{
    lemma_run_from_props(v, p, x, y, dx, dy, v.n);
    let r = run_len(v, p, x, y, dx, dy) as int;
    if r == v.n {
        assert(in_bounds(v.n, x + r * dx, y + r * dy)) by {
            assert(cell_at(v, x + r * dx, y + r * dy) == Some(opposite(p)));
        }
        if dx == 1 {
            assert(x + r * 1 == x + r) by (nonlinear_arith);
        } else if dx == -1 {
            assert(x + r * -1 == x - r) by (nonlinear_arith);
        } else if dy == 1 {
            assert(y + r * 1 == y + r) by (nonlinear_arith);
        } else {
            assert(dy == -1);
            assert(y + r * -1 == y - r) by (nonlinear_arith);
        }
        assert(false);
    }
}

/// The run length is pinned down by what the walk sees: if the first m
/// outward cells are on-board opposing cells and the next is not, the
/// measured run is exactly m.
pub proof fn lemma_run_from_eq(
    v: GameView,
    p: Piece,
    x: int,
    y: int,
    dx: int,
    dy: int,
    fuel: nat,
    m: nat,
)
    requires
        m < fuel,
        forall|j: int|
            1 <= j <= m ==> in_bounds(v.n, x + j * dx, y + j * dy) && #[trigger] cell_at(
                v,
                x + j * dx,
                y + j * dy,
            ) == Some(opposite(p)),
        !(in_bounds(v.n, x + (m + 1) * dx, y + (m + 1) * dy) && cell_at(
            v,
            x + (m + 1) * dx,
            y + (m + 1) * dy,
        ) == Some(opposite(p))),
    ensures
        run_from(v, p, x, y, dx, dy, fuel) == m,
    decreases m,
{
    if m == 0 {
        assert(x + (0 + 1) * dx == x + dx) by (nonlinear_arith);
        assert(y + (0 + 1) * dy == y + dy) by (nonlinear_arith);
    } else {
        assert(x + 1 * dx == x + dx) by (nonlinear_arith);
        assert(y + 1 * dy == y + dy) by (nonlinear_arith);
        assert(cell_at(v, x + 1 * dx, y + 1 * dy) == Some(opposite(p)));
        assert forall|j: int| 1 <= j <= m - 1 implies in_bounds(
            v.n,
            (x + dx) + j * dx,
            (y + dy) + j * dy,
        ) && #[trigger] cell_at(v, (x + dx) + j * dx, (y + dy) + j * dy) == Some(opposite(p)) by {
            assert((x + dx) + j * dx == x + (j + 1) * dx) by (nonlinear_arith);
            assert((y + dy) + j * dy == y + (j + 1) * dy) by (nonlinear_arith);
            assert(cell_at(v, x + (j + 1) * dx, y + (j + 1) * dy) == Some(opposite(p)));
        }
        assert((x + dx) + ((m - 1) + 1) * dx == x + (m + 1) * dx) by (nonlinear_arith);
        assert((y + dy) + ((m - 1) + 1) * dy == y + (m + 1) * dy) by (nonlinear_arith);
        lemma_run_from_eq(v, p, x + dx, y + dy, dx, dy, (fuel - 1) as nat, (m - 1) as nat);
    }
}

/// Two outward steps that land on the same point of the plane belong to the
/// same compass direction and are the same step.
#[verifier::nonlinear]
pub proof fn lemma_ray_step_unique(dx1: int, dy1: int, dx2: int, dy2: int, a: int, b: int)
    requires
        dir_ok(dx1, dy1),
        dir_ok(dx2, dy2),
        a >= 1,
        b >= 1,
        a * dx1 == b * dx2,
        a * dy1 == b * dy2,
    ensures
        dx1 == dx2,
        dy1 == dy2,
        a == b,
{
}

/// What holds of the captures of one direction: entry i is the index of the
/// on-board cell one-plus-i steps out, it holds the opposing color, it is
/// not the origin, and no index repeats.
pub proof fn lemma_dir_captures_props(v: GameView, p: Piece, x: int, y: int, dx: int, dy: int)
    requires
        v.wf(),
        in_bounds(v.n, x, y),
        dir_ok(dx, dy),
    ensures
        forall|i: int|
            0 <= i < dir_captures(v, p, x, y, dx, dy).len() ==> #[trigger] in_bounds(
                v.n,
                x + (i + 1) * dx,
                y + (i + 1) * dy,
            ),
        forall|i: int|
            0 <= i < dir_captures(v, p, x, y, dx, dy).len() ==> #[trigger] dir_captures(
                v,
                p,
                x,
                y,
                dx,
                dy,
            )[i] == cell_index(v.n, x + (i + 1) * dx, y + (i + 1) * dy) && 0 <= dir_captures(
                v,
                p,
                x,
                y,
                dx,
                dy,
            )[i] < v.n * v.n && v.cells[dir_captures(v, p, x, y, dx, dy)[i]] == Some(opposite(p))
                && dir_captures(v, p, x, y, dx, dy)[i] != cell_index(v.n, x, y),
        forall|i: int, j: int|
            0 <= i < j < dir_captures(v, p, x, y, dx, dy).len() ==> #[trigger] dir_captures(
                v,
                p,
                x,
                y,
                dx,
                dy,
            )[i] != #[trigger] dir_captures(v, p, x, y, dx, dy)[j],
{
    if sandwich(v, p, x, y, dx, dy) {
        lemma_run_len_props(v, p, x, y, dx, dy);
    }
    assert forall|i: int| 0 <= i < dir_captures(v, p, x, y, dx, dy).len() implies #[trigger] in_bounds(
        v.n,
        x + (i + 1) * dx,
        y + (i + 1) * dy,
    ) by {
        let k = i + 1;
        assert(cell_at(v, x + k * dx, y + k * dy) == Some(opposite(p)));
    }
    assert forall|i: int| 0 <= i < dir_captures(v, p, x, y, dx, dy).len() implies #[trigger] dir_captures(
        v,
        p,
        x,
        y,
        dx,
        dy,
    )[i] == cell_index(v.n, x + (i + 1) * dx, y + (i + 1) * dy) && 0 <= dir_captures(
        v,
        p,
        x,
        y,
        dx,
        dy,
    )[i] < v.n * v.n && v.cells[dir_captures(v, p, x, y, dx, dy)[i]] == Some(opposite(p))
        && dir_captures(v, p, x, y, dx, dy)[i] != cell_index(v.n, x, y) by {
        let k = i + 1;
        assert(cell_at(v, x + k * dx, y + k * dy) == Some(opposite(p)));
        lemma_cell_index_in_range(v.n, x + k * dx, y + k * dy);
        if dir_captures(v, p, x, y, dx, dy)[i] == cell_index(v.n, x, y) {
            lemma_cell_index_injective(v.n, x + k * dx, y + k * dy, x, y);
            assert(dx == 0 && dy == 0) by (nonlinear_arith)
                requires
                    k >= 1,
                    k * dx == 0,
                    k * dy == 0,
            ;
        }
    }
    assert forall|i: int, j: int|
        0 <= i < j < dir_captures(v, p, x, y, dx, dy).len() implies #[trigger] dir_captures(
        v,
        p,
        x,
        y,
        dx,
        dy,
    )[i] != #[trigger] dir_captures(v, p, x, y, dx, dy)[j] by {
        let a = i + 1;
        let b = j + 1;
        assert(cell_at(v, x + a * dx, y + a * dy) == Some(opposite(p)));
        assert(cell_at(v, x + b * dx, y + b * dy) == Some(opposite(p)));
        if dir_captures(v, p, x, y, dx, dy)[i] == dir_captures(v, p, x, y, dx, dy)[j] {
            lemma_cell_index_injective(v.n, x + a * dx, y + a * dy, x + b * dx, y + b * dy);
            lemma_ray_step_unique(dx, dy, dx, dy, a, b);
        }
    }
}

/// Captures of two different directions never name the same cell: the eight
/// rays are disjoint.
pub proof fn lemma_cross_dir_captures_distinct(
    v: GameView,
    p: Piece,
    x: int,
    y: int,
    dx1: int,
    dy1: int,
    dx2: int,
    dy2: int,
)
    requires
        v.wf(),
        in_bounds(v.n, x, y),
        dir_ok(dx1, dy1),
        dir_ok(dx2, dy2),
        !(dx1 == dx2 && dy1 == dy2),
    ensures
        forall|i: int, j: int|
            0 <= i < dir_captures(v, p, x, y, dx1, dy1).len() && 0 <= j < dir_captures(
                v,
                p,
                x,
                y,
                dx2,
                dy2,
            ).len() ==> #[trigger] dir_captures(v, p, x, y, dx1, dy1)[i] != #[trigger] dir_captures(
                v,
                p,
                x,
                y,
                dx2,
                dy2,
            )[j],
{
    lemma_dir_captures_props(v, p, x, y, dx1, dy1);
    lemma_dir_captures_props(v, p, x, y, dx2, dy2);
    assert forall|i: int, j: int|
        0 <= i < dir_captures(v, p, x, y, dx1, dy1).len() && 0 <= j < dir_captures(
        v,
        p,
        x,
        y,
        dx2,
        dy2,
    ).len() implies #[trigger] dir_captures(v, p, x, y, dx1, dy1)[i] != #[trigger] dir_captures(
        v,
        p,
        x,
        y,
        dx2,
        dy2,
    )[j] by {
        let a = i + 1;
        let b = j + 1;
        if dir_captures(v, p, x, y, dx1, dy1)[i] == dir_captures(v, p, x, y, dx2, dy2)[j] {
            lemma_cell_index_injective(v.n, x + a * dx1, y + a * dy1, x + b * dx2, y + b * dy2);
            lemma_ray_step_unique(dx1, dy1, dx2, dy2, a, b);
        }
    }
}


/// What holds of the full capture list of a placement: every entry is the
/// index of an on-board cell holding the opposing color, none is the placed
/// cell itself, and no entry repeats (the eight rays are disjoint).
#[verifier::rlimit(60)]
pub proof fn lemma_piece_captures_props(v: GameView, p: Piece, x: int, y: int)
    requires
        v.wf(),
        in_bounds(v.n, x, y),
    ensures
        forall|i: int|
            0 <= i < piece_captures(v, p, x, y).len() ==> 0 <= #[trigger] piece_captures(
                v,
                p,
                x,
                y,
            )[i] < v.n * v.n && v.cells[piece_captures(v, p, x, y)[i]] == Some(opposite(p))
                && piece_captures(v, p, x, y)[i] != cell_index(v.n, x, y),
        forall|i: int, j: int|
            0 <= i < j < piece_captures(v, p, x, y).len() ==> #[trigger] piece_captures(
                v,
                p,
                x,
                y,
            )[i] != #[trigger] piece_captures(v, p, x, y)[j],
{
    lemma_dir_captures_props(v, p, x, y, 0, 1);
    lemma_dir_captures_props(v, p, x, y, 0, -1);
    lemma_dir_captures_props(v, p, x, y, -1, 0);
    lemma_dir_captures_props(v, p, x, y, 1, 0);
    lemma_dir_captures_props(v, p, x, y, 1, 1);
    lemma_dir_captures_props(v, p, x, y, 1, -1);
    lemma_dir_captures_props(v, p, x, y, -1, 1);
    lemma_dir_captures_props(v, p, x, y, -1, -1);
    lemma_cross_dir_captures_distinct(v, p, x, y, 0, 1, 0, -1);
    lemma_cross_dir_captures_distinct(v, p, x, y, 0, 1, -1, 0);
    lemma_cross_dir_captures_distinct(v, p, x, y, 0, 1, 1, 0);
    lemma_cross_dir_captures_distinct(v, p, x, y, 0, 1, 1, 1);
    lemma_cross_dir_captures_distinct(v, p, x, y, 0, 1, 1, -1);
    lemma_cross_dir_captures_distinct(v, p, x, y, 0, 1, -1, 1);
    lemma_cross_dir_captures_distinct(v, p, x, y, 0, 1, -1, -1);
    lemma_cross_dir_captures_distinct(v, p, x, y, 0, -1, 0, 1);
    lemma_cross_dir_captures_distinct(v, p, x, y, 0, -1, -1, 0);
    lemma_cross_dir_captures_distinct(v, p, x, y, 0, -1, 1, 0);
    lemma_cross_dir_captures_distinct(v, p, x, y, 0, -1, 1, 1);
    lemma_cross_dir_captures_distinct(v, p, x, y, 0, -1, 1, -1);
    lemma_cross_dir_captures_distinct(v, p, x, y, 0, -1, -1, 1);
    lemma_cross_dir_captures_distinct(v, p, x, y, 0, -1, -1, -1);
    lemma_cross_dir_captures_distinct(v, p, x, y, -1, 0, 0, 1);
    lemma_cross_dir_captures_distinct(v, p, x, y, -1, 0, 0, -1);
    lemma_cross_dir_captures_distinct(v, p, x, y, -1, 0, 1, 0);
    lemma_cross_dir_captures_distinct(v, p, x, y, -1, 0, 1, 1);
    lemma_cross_dir_captures_distinct(v, p, x, y, -1, 0, 1, -1);
    lemma_cross_dir_captures_distinct(v, p, x, y, -1, 0, -1, 1);
    lemma_cross_dir_captures_distinct(v, p, x, y, -1, 0, -1, -1);
    lemma_cross_dir_captures_distinct(v, p, x, y, 1, 0, 0, 1);
    lemma_cross_dir_captures_distinct(v, p, x, y, 1, 0, 0, -1);
    lemma_cross_dir_captures_distinct(v, p, x, y, 1, 0, -1, 0);
    lemma_cross_dir_captures_distinct(v, p, x, y, 1, 0, 1, 1);
    lemma_cross_dir_captures_distinct(v, p, x, y, 1, 0, 1, -1);
    lemma_cross_dir_captures_distinct(v, p, x, y, 1, 0, -1, 1);
    lemma_cross_dir_captures_distinct(v, p, x, y, 1, 0, -1, -1);
    lemma_cross_dir_captures_distinct(v, p, x, y, 1, 1, 0, 1);
    lemma_cross_dir_captures_distinct(v, p, x, y, 1, 1, 0, -1);
    lemma_cross_dir_captures_distinct(v, p, x, y, 1, 1, -1, 0);
    lemma_cross_dir_captures_distinct(v, p, x, y, 1, 1, 1, 0);
    lemma_cross_dir_captures_distinct(v, p, x, y, 1, 1, 1, -1);
    lemma_cross_dir_captures_distinct(v, p, x, y, 1, 1, -1, 1);
    lemma_cross_dir_captures_distinct(v, p, x, y, 1, 1, -1, -1);
    lemma_cross_dir_captures_distinct(v, p, x, y, 1, -1, 0, 1);
    lemma_cross_dir_captures_distinct(v, p, x, y, 1, -1, 0, -1);
    lemma_cross_dir_captures_distinct(v, p, x, y, 1, -1, -1, 0);
    lemma_cross_dir_captures_distinct(v, p, x, y, 1, -1, 1, 0);
    lemma_cross_dir_captures_distinct(v, p, x, y, 1, -1, 1, 1);
    lemma_cross_dir_captures_distinct(v, p, x, y, 1, -1, -1, 1);
    lemma_cross_dir_captures_distinct(v, p, x, y, 1, -1, -1, -1);
    lemma_cross_dir_captures_distinct(v, p, x, y, -1, 1, 0, 1);
    lemma_cross_dir_captures_distinct(v, p, x, y, -1, 1, 0, -1);
    lemma_cross_dir_captures_distinct(v, p, x, y, -1, 1, -1, 0);
    lemma_cross_dir_captures_distinct(v, p, x, y, -1, 1, 1, 0);
    lemma_cross_dir_captures_distinct(v, p, x, y, -1, 1, 1, 1);
    lemma_cross_dir_captures_distinct(v, p, x, y, -1, 1, 1, -1);
    lemma_cross_dir_captures_distinct(v, p, x, y, -1, 1, -1, -1);
    lemma_cross_dir_captures_distinct(v, p, x, y, -1, -1, 0, 1);
    lemma_cross_dir_captures_distinct(v, p, x, y, -1, -1, 0, -1);
    lemma_cross_dir_captures_distinct(v, p, x, y, -1, -1, -1, 0);
    lemma_cross_dir_captures_distinct(v, p, x, y, -1, -1, 1, 0);
    lemma_cross_dir_captures_distinct(v, p, x, y, -1, -1, 1, 1);
    lemma_cross_dir_captures_distinct(v, p, x, y, -1, -1, 1, -1);
    lemma_cross_dir_captures_distinct(v, p, x, y, -1, -1, -1, 1);
    let c1 = dir_captures(v, p, x, y, 0, 1);
    let c2 = dir_captures(v, p, x, y, 0, -1);
    let c3 = dir_captures(v, p, x, y, -1, 0);
    let c4 = dir_captures(v, p, x, y, 1, 0);
    let c5 = dir_captures(v, p, x, y, 1, 1);
    let c6 = dir_captures(v, p, x, y, 1, -1);
    let c7 = dir_captures(v, p, x, y, -1, 1);
    let c8 = dir_captures(v, p, x, y, -1, -1);
    let o0: int = 0;
    let o1: int = o0 + c1.len();
    let o2: int = o1 + c2.len();
    let o3: int = o2 + c3.len();
    let o4: int = o3 + c4.len();
    let o5: int = o4 + c5.len();
    let o6: int = o5 + c6.len();
    let o7: int = o6 + c7.len();
    let o8: int = o7 + c8.len();
    assert(piece_captures(v, p, x, y).len() == o8);
    assert forall|i: int| 0 <= i < piece_captures(v, p, x, y).len() implies 0 <= #[trigger] piece_captures(
        v,
        p,
        x,
        y,
    )[i] < v.n * v.n && v.cells[piece_captures(v, p, x, y)[i]] == Some(opposite(p))
        && piece_captures(v, p, x, y)[i] != cell_index(v.n, x, y) by {
        if i < o1 { assert(piece_captures(v, p, x, y)[i] == c1[i - o0]); }
        else if i < o2 { assert(piece_captures(v, p, x, y)[i] == c2[i - o1]); }
        else if i < o3 { assert(piece_captures(v, p, x, y)[i] == c3[i - o2]); }
        else if i < o4 { assert(piece_captures(v, p, x, y)[i] == c4[i - o3]); }
        else if i < o5 { assert(piece_captures(v, p, x, y)[i] == c5[i - o4]); }
        else if i < o6 { assert(piece_captures(v, p, x, y)[i] == c6[i - o5]); }
        else if i < o7 { assert(piece_captures(v, p, x, y)[i] == c7[i - o6]); }
        else { assert(piece_captures(v, p, x, y)[i] == c8[i - o7]); }
    }
    assert forall|i: int, j: int|
        0 <= i < j < piece_captures(v, p, x, y).len() implies #[trigger] piece_captures(
        v,
        p,
        x,
        y,
    )[i] != #[trigger] piece_captures(v, p, x, y)[j] by {
        if i < o1 { assert(piece_captures(v, p, x, y)[i] == c1[i - o0]); }
        else if i < o2 { assert(piece_captures(v, p, x, y)[i] == c2[i - o1]); }
        else if i < o3 { assert(piece_captures(v, p, x, y)[i] == c3[i - o2]); }
        else if i < o4 { assert(piece_captures(v, p, x, y)[i] == c4[i - o3]); }
        else if i < o5 { assert(piece_captures(v, p, x, y)[i] == c5[i - o4]); }
        else if i < o6 { assert(piece_captures(v, p, x, y)[i] == c6[i - o5]); }
        else if i < o7 { assert(piece_captures(v, p, x, y)[i] == c7[i - o6]); }
        else { assert(piece_captures(v, p, x, y)[i] == c8[i - o7]); }
        if j < o1 { assert(piece_captures(v, p, x, y)[j] == c1[j - o0]); }
        else if j < o2 { assert(piece_captures(v, p, x, y)[j] == c2[j - o1]); }
        else if j < o3 { assert(piece_captures(v, p, x, y)[j] == c3[j - o2]); }
        else if j < o4 { assert(piece_captures(v, p, x, y)[j] == c4[j - o3]); }
        else if j < o5 { assert(piece_captures(v, p, x, y)[j] == c5[j - o4]); }
        else if j < o6 { assert(piece_captures(v, p, x, y)[j] == c6[j - o5]); }
        else if j < o7 { assert(piece_captures(v, p, x, y)[j] == c7[j - o6]); }
        else { assert(piece_captures(v, p, x, y)[j] == c8[j - o7]); }
    }
}


/// How one cell update moves the counts: the empty count and each color's
/// count change exactly with what the cell held and what it now holds.
pub proof fn lemma_count_update(s: Seq<Option<Piece>>, i: int, c: Option<Piece>)
    requires
        0 <= i < s.len(),
    ensures
        count_none(s.update(i, c)) == count_none(s) + (if c is None {
            1int
        } else {
            0int
        }) - (if s[i] is None {
            1int
        } else {
            0int
        }),
        forall|q: Piece|
            #[trigger] count_piece(s.update(i, c), q) == count_piece(s, q) + (if c == Some(q) {
                1int
            } else {
                0int
            }) - (if s[i] == Some(q) {
                1int
            } else {
                0int
            }),
    decreases s.len(),
{
    if i == s.len() - 1 {
        assert(s.update(i, c).drop_last() =~= s.drop_last());
    } else {
        lemma_count_update(s.drop_last(), i, c);
        assert(s.update(i, c).drop_last() =~= s.drop_last().update(i, c));
        assert forall|q: Piece|
            #[trigger] count_piece(s.update(i, c), q) == count_piece(s, q) + (if c == Some(q) {
                1int
            } else {
                0int
            }) - (if s[i] == Some(q) {
                1int
            } else {
                0int
            }) by {
            assert(count_piece(s.drop_last().update(i, c), q) == count_piece(s.drop_last(), q) + (
            if c == Some(q) {
                1int
            } else {
                0int
            }) - (if s.drop_last()[i] == Some(q) {
                1int
            } else {
                0int
            }));
        }
    }
}

/// A board with no empty cell has every cell occupied.
pub proof fn lemma_count_none_zero(s: Seq<Option<Piece>>)
    requires
        count_none(s) == 0,
    ensures
        forall|i: int| 0 <= i < s.len() ==> (#[trigger] s[i]) is Some,
    decreases s.len(),
{
    if s.len() > 0 {
        lemma_count_none_zero(s.drop_last());
        assert forall|i: int| 0 <= i < s.len() implies (#[trigger] s[i]) is Some by {
            if i < s.len() - 1 {
                assert(s[i] == s.drop_last()[i]);
            } else {
                assert(s[i] == s.last());
            }
        }
    }
}

/// A position reached by k outward steps that is still on the board bounds
/// the step count: the walk leaves an n-by-n board within n steps.
#[verifier::nonlinear]
pub proof fn lemma_step_bound(n: nat, x: int, y: int, cx: int, cy: int, dx: int, dy: int, k: int)
    requires
        dir_ok(dx, dy),
        in_bounds(n, x, y),
        in_bounds(n, cx, cy),
        cx == x + k * dx,
        cy == y + k * dy,
        k >= 0,
    ensures
        k < n,
{
}


/// Reading indices as integers distributes over joining two runs.
pub proof fn lemma_as_ints_add(a: Seq<usize>, b: Seq<usize>)
    ensures
        crate::rules::as_ints(a + b) == crate::rules::as_ints(a) + crate::rules::as_ints(b),
{
    assert(crate::rules::as_ints(a + b) =~= crate::rules::as_ints(a) + crate::rules::as_ints(b));
}


/// What a finished outward walk establishes: if the first k cells seen were
/// on-board opposing cells and the walk stopped on a cell that is off the
/// board or not opposing, then the run is exactly k, the direction
/// sandwiches exactly when the walk stopped on the mover's own color after
/// at least one opposing cell, and the captures are the k indices walked.
pub proof fn lemma_scan_exit(v: GameView, p: Piece, x: int, y: int, dx: int, dy: int, k: nat)
    requires
        v.wf(),
        in_bounds(v.n, x, y),
        dir_ok(dx, dy),
        k < v.n,
        forall|j: int|
            1 <= j <= k ==> in_bounds(v.n, x + j * dx, y + j * dy) && #[trigger] cell_at(
                v,
                x + j * dx,
                y + j * dy,
            ) == Some(opposite(p)),
        !(in_bounds(v.n, x + (k + 1) * dx, y + (k + 1) * dy) && cell_at(
            v,
            x + (k + 1) * dx,
            y + (k + 1) * dy,
        ) == Some(opposite(p))),
    ensures
        run_len(v, p, x, y, dx, dy) == k,
        sandwich(v, p, x, y, dx, dy) <==> (k >= 1 && in_bounds(
            v.n,
            x + (k + 1) * dx,
            y + (k + 1) * dy,
        ) && cell_at(v, x + (k + 1) * dx, y + (k + 1) * dy) == Some(p)),
        sandwich(v, p, x, y, dx, dy) ==> dir_captures(v, p, x, y, dx, dy) == Seq::new(
            k,
            |j: int| cell_index(v.n, x + (j + 1) * dx, y + (j + 1) * dy),
        ),
        !sandwich(v, p, x, y, dx, dy) ==> dir_captures(v, p, x, y, dx, dy) == Seq::<int>::empty(),
{
    lemma_run_from_eq(v, p, x, y, dx, dy, v.n, k);
}

} // verus!