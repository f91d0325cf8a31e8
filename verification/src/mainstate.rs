use vstd::prelude::*;

use crate::lemmas::lemma_as_ints_add;
use crate::lemmas::lemma_cell_index_in_range;
use crate::lemmas::lemma_count_update;
use crate::lemmas::lemma_piece_captures_props;
use crate::lemmas::lemma_scan_exit;
use crate::lemmas::lemma_step_bound;
use crate::piece::GameError;
use crate::piece::Piece;
use crate::piece::Winner;
use crate::piece::opposite;
use crate::piece::other;
use crate::rules::GameView;
use crate::rules::as_ints;
use crate::rules::board_outcome;
use crate::rules::cell_at;
use crate::rules::cell_index;
use crate::rules::count_none;
use crate::rules::count_occupied;
use crate::rules::count_piece;
use crate::rules::dir_captures;
use crate::rules::dir_ok;
use crate::rules::has_legal_move;
use crate::rules::in_bounds;
use crate::rules::is_legal_for;
use crate::rules::piece_captures;
use crate::rules::placed_cells;
use crate::rules::sandwich;
use crate::rules::seed_cell;
use crate::rules::seeded_cells;
use crate::rules::seeded_view;

verus! {

/// The state of one game: the board in row-major order, the side length,
/// whose turn it is, and the outcome once the game has ended.
#[derive(Debug)]
pub struct MainState {
    board: Vec<Option<Piece>>,
    n: usize,
    turn: Piece,
    winner: Option<Winner>,
}

impl View for MainState {
    type V = GameView;

    closed spec fn view(&self) -> GameView {
        GameView {
            cells: self.board@,
            n: self.n as nat,
            turn: self.turn,
            winner: self.winner,
        }
    }
}

/// Builds the seeded board of side length n: the four center cells hold the
/// canonical alternating pattern, every other cell is empty.
fn seed_board(n: usize) -> (b: Vec<Option<Piece>>)
    requires
        n >= 2,
        n % 2 == 0,
        n * n <= usize::MAX,
    ensures
        b@ == seeded_cells(n as nat),
{
    let total: usize = n * n;
    let mut b: Vec<Option<Piece>> = Vec::new();
    let mut k: usize = 0;
    while k < total
        invariant
            b@.len() == k,
            k <= total,
            forall|i: int| 0 <= i < k ==> b@[i] is None,
        decreases total - k,
    {
        b.push(None);
        k = k + 1;
    }
    let c: usize = n / 2;
    proof {
        lemma_cell_index_in_range(n as nat, c - 1, c - 1);
        lemma_cell_index_in_range(n as nat, c as int, c as int);
        assert(c * n == (c - 1) * n + n) by (nonlinear_arith);
    }
    let a0: usize = (c - 1) * n + (c - 1);
    let a1: usize = (c - 1) * n + c;
    let a2: usize = c * n + (c - 1);
    let a3: usize = c * n + c;
    b[a0] = Some(Piece::White);
    b[a1] = Some(Piece::Black);
    b[a2] = Some(Piece::Black);
    b[a3] = Some(Piece::White);
    proof {
        let ci: int = c as int;
        assert forall|i: int| 0 <= i < b@.len() implies b@[i] == seed_cell(n as nat, i) by {
            assert(cell_index(n as nat, ci - 1, ci - 1) == a0);
            assert(cell_index(n as nat, ci, ci - 1) == a1);
            assert(cell_index(n as nat, ci - 1, ci) == a2);
            assert(cell_index(n as nat, ci, ci) == a3);
        }
        assert(b@ =~= seeded_cells(n as nat));
    }
    b
}

impl MainState {
    /// Makes a fresh game on an n-by-n board with the canonical four-piece
    /// seeding and White to move; a side length below two or odd cannot hold
    /// the seeding and is rejected.
    pub fn new(n: usize) -> (r: Result<MainState, GameError>)
        requires
            n * n <= usize::MAX,
        ensures
            r is Ok <==> n >= 2 && n % 2 == 0,
            r matches Ok(s) ==> s@ == seeded_view(n as nat),
            r is Err ==> r == Err::<MainState, GameError>(GameError::InvalidConfiguration),
    {
        if n < 2 || n % 2 != 0 {
            return Err(GameError::InvalidConfiguration);
        }
        let board = seed_board(n);
        Ok(MainState { board, n, turn: Piece::White, winner: None })
    }

    /// Makes a game from an explicit position: a board of the right size,
    /// the given color to move, and no outcome yet.
    pub fn from_position(n: usize, board: Vec<Option<Piece>>, turn: Piece) -> (r: Result<
        MainState,
        GameError,
    >)
        requires
            n * n <= usize::MAX,
        ensures
            r is Ok <==> n >= 2 && n % 2 == 0 && board@.len() == n * n,
            r matches Ok(s) ==> s@ == (GameView {
                cells: board@,
                n: n as nat,
                turn,
                winner: None,
            }),
            r is Err ==> r == Err::<MainState, GameError>(GameError::InvalidConfiguration),
    {
        if n < 2 || n % 2 != 0 || board.len() != n * n {
            return Err(GameError::InvalidConfiguration);
        }
        Ok(MainState { board, n, turn, winner: None })
    }

    /// Returns the game to the seeded starting state: the four center cells
    /// hold the canonical pattern, every other cell is empty, White is to
    /// move, and any outcome is cleared.
    pub fn reset(&mut self)
        requires
            old(self)@.wf(),
        ensures
            final(self)@ == seeded_view(old(self)@.n),
    {
        let len = self.board.len();
        proof {
            assert(self.n * self.n == len);
        }
        self.board = seed_board(self.n);
        self.turn = Piece::White;
        self.winner = None;
    }

    /// The side length of the board.
    pub fn side_len(&self) -> (r: usize)
        ensures
            r == self@.n,
    {
        self.n
    }

    /// The color to move.
    pub fn current_turn(&self) -> (r: Piece)
        ensures
            r == self@.turn,
    {
        self.turn
    }

    /// The outcome of the game, absent while it is still in progress.
    pub fn outcome(&self) -> (r: Option<Winner>)
        ensures
            r == self@.winner,
    {
        self.winner
    }

    /// The contents of the cell at (x, y).
    pub fn piece_at(&self, x: usize, y: usize) -> (r: Option<Piece>)
        requires
            self@.wf(),
            x < self@.n,
            y < self@.n,
        ensures
            r == cell_at(self@, x as int, y as int),
    {
        let i = self.cell_pos(x, y);
        self.board[i]
    }

    /// The row-major position of the on-board coordinate (x, y), shown to
    /// lie within the cell array.
    fn cell_pos(&self, x: usize, y: usize) -> (i: usize)
        requires
            self@.wf(),
            x < self@.n,
            y < self@.n,
        ensures
            i == cell_index(self@.n, x as int, y as int),
            i < self@.cells.len(),
    {
        let len = self.board.len();
        proof {
            lemma_cell_index_in_range(self@.n, x as int, y as int);
            assert(len == self@.n * self@.n);
        }
        y * self.n + x
    }


    /// Walks strictly outward from (x, y) along the unit direction
    /// (dx, dy), and reports whether that direction sandwiches for `p`,
    /// together with the indices of the opposing run it would capture.
    #[verifier::loop_isolation(false)]
    #[verifier::rlimit(100)]
    fn scan_dir(&self, p: Piece, x: usize, y: usize, dx: i8, dy: i8) -> (r: (bool, Vec<usize>))
        requires
            self@.wf(),
            x < self@.n,
            y < self@.n,
            dir_ok(dx as int, dy as int),
        ensures
            r.0 == sandwich(self@, p, x as int, y as int, dx as int, dy as int),
            as_ints(r.1@) == dir_captures(self@, p, x as int, y as int, dx as int, dy as int),
    {
        let n = self.n;
        let gdx: Ghost<int> = Ghost(dx as int);
        let gdy: Ghost<int> = Ghost(dy as int);
        let mut cx = x;
        let mut cy = y;
        let mut k: usize = 0;
        let mut cands: Vec<usize> = Vec::new();
        proof {
            assert(0 * gdx@ == 0) by (nonlinear_arith);
            assert(0 * gdy@ == 0) by (nonlinear_arith);
        }
        loop
            invariant
                k < n,
                cx as int == x + k * gdx@,
                cy as int == y + k * gdy@,
                in_bounds(self@.n, cx as int, cy as int),
                forall|j: int|
                    1 <= j <= k ==> in_bounds(self@.n, x + j * gdx@, y + j * gdy@)
                        && #[trigger] cell_at(self@, x + j * gdx@, y + j * gdy@) == Some(
                        opposite(p),
                    ),
                cands@.len() == k,
                forall|j: int|
                    0 <= j < k ==> (#[trigger] cands@[j]) as int == cell_index(
                        self@.n,
                        x + (j + 1) * gdx@,
                        y + (j + 1) * gdy@,
                    ),
            decreases n - k,
        {
            let x_ok: bool = if dx < 0 {
                cx > 0
            } else if dx > 0 {
                cx + 1 < n
            } else {
                true
            };
            let y_ok: bool = if dy < 0 {
                cy > 0
            } else if dy > 0 {
                cy + 1 < n
            } else {
                true
            };
            proof {
                assert((k + 1) * gdx@ == k * gdx@ + gdx@) by (nonlinear_arith);
                assert((k + 1) * gdy@ == k * gdy@ + gdy@) by (nonlinear_arith);
            }
            if !(x_ok && y_ok) {
                proof {
                    assert(!in_bounds(self@.n, x + (k + 1) * gdx@, y + (k + 1) * gdy@));
                    lemma_scan_exit(self@, p, x as int, y as int, gdx@, gdy@, k as nat);
                    assert(!sandwich(self@, p, x as int, y as int, gdx@, gdy@));
                    assert(as_ints(Seq::<usize>::empty()) =~= Seq::<int>::empty());
                }
                return (false, Vec::new());
            }
            let nx: usize = if dx < 0 {
                cx - 1
            } else if dx > 0 {
                cx + 1
            } else {
                cx
            };
            let ny: usize = if dy < 0 {
                cy - 1
            } else if dy > 0 {
                cy + 1
            } else {
                cy
            };
            proof {
                assert(nx as int == x + (k + 1) * gdx@);
                assert(ny as int == y + (k + 1) * gdy@);
            }
            let i = self.cell_pos(nx, ny);
            match self.board[i] {
                None => {
                    proof {
                        lemma_scan_exit(self@, p, x as int, y as int, gdx@, gdy@, k as nat);
                        assert(!sandwich(self@, p, x as int, y as int, gdx@, gdy@));
                        assert(as_ints(Seq::<usize>::empty()) =~= Seq::<int>::empty());
                    }
                    return (false, Vec::new());
                },
                Some(q) => {
                    if q == p {
                        proof {
                            lemma_scan_exit(
                                self@,
                                p,
                                x as int,
                                y as int,
                                gdx@,
                                gdy@,
                                k as nat,
                            );
                            if k >= 1 {
                                assert(sandwich(self@, p, x as int, y as int, gdx@, gdy@));
                                assert(as_ints(cands@) =~= dir_captures(
                                    self@,
                                    p,
                                    x as int,
                                    y as int,
                                    gdx@,
                                    gdy@,
                                ));
                            } else {
                                assert(!sandwich(self@, p, x as int, y as int, gdx@, gdy@));
                                assert(as_ints(cands@) =~= Seq::<int>::empty());
                            }
                        }
                        let any = cands.len() > 0;
                        return (any, cands);
                    } else {
                        cands.push(i);
                        cx = nx;
                        cy = ny;
                        k = k + 1;
                        proof {
                            assert(opposite(p) == q);
                            lemma_step_bound(
                                self@.n,
                                x as int,
                                y as int,
                                cx as int,
                                cy as int,
                                gdx@,
                                gdy@,
                                k as int,
                            );
                        }
                    }
                },
            }
        }
    }


    /// How many cells are empty.
    #[verifier::loop_isolation(false)]
    pub fn empty_count(&self) -> (r: usize)
        requires
            self@.wf(),
        ensures
            r == count_none(self@.cells),
    {
        let len = self.board.len();
        let mut cnt: usize = 0;
        let mut i: usize = 0;
        while i < len
            invariant
                i <= len,
                cnt == count_none(self@.cells.take(i as int)),
                cnt <= i,
            decreases len - i,
        {
            proof {
                assert(self@.cells.take(i + 1).drop_last() =~= self@.cells.take(i as int));
                assert(self@.cells.take(i + 1).last() == self@.cells[i as int]);
            }
            if self.board[i].is_none() {
                cnt = cnt + 1;
            }
            i = i + 1;
        }
        proof {
            assert(self@.cells.take(len as int) =~= self@.cells);
        }
        cnt
    }

    /// How many cells hold a piece of color `p`.
    #[verifier::loop_isolation(false)]
    pub fn color_count(&self, p: Piece) -> (r: usize)
        requires
            self@.wf(),
        ensures
            r == count_piece(self@.cells, p),
    {
        let len = self.board.len();
        let mut cnt: usize = 0;
        let mut i: usize = 0;
        while i < len
            invariant
                i <= len,
                cnt == count_piece(self@.cells.take(i as int), p),
                cnt <= i,
            decreases len - i,
        {
            proof {
                assert(self@.cells.take(i + 1).drop_last() =~= self@.cells.take(i as int));
                assert(self@.cells.take(i + 1).last() == self@.cells[i as int]);
            }
            match self.board[i] {
                Some(q) => {
                    if q == p {
                        cnt = cnt + 1;
                    }
                },
                None => {},
            }
            i = i + 1;
        }
        proof {
            assert(self@.cells.take(len as int) =~= self@.cells);
        }
        cnt
    }

    /// Whether `p` may place at (x, y) on the current board: the cell is
    /// empty and either it is the single empty cell left or one of the
    /// eight directions sandwiches an opposing run.
    pub fn legal_for(&self, p: Piece, x: usize, y: usize) -> (r: bool)
        requires
            self@.wf(),
            x < self@.n,
            y < self@.n,
        ensures
            r == is_legal_for(self@, p, x as int, y as int),
    {
        let i = self.cell_pos(x, y);
        if self.board[i].is_some() {
            return false;
        }
        if self.empty_count() == 1 {
            return true;
        }
        let s1 = self.scan_dir(p, x, y, 0, 1).0;
        let s2 = self.scan_dir(p, x, y, 0, -1).0;
        let s3 = self.scan_dir(p, x, y, -1, 0).0;
        let s4 = self.scan_dir(p, x, y, 1, 0).0;
        let s5 = self.scan_dir(p, x, y, 1, 1).0;
        let s6 = self.scan_dir(p, x, y, 1, -1).0;
        let s7 = self.scan_dir(p, x, y, -1, 1).0;
        let s8 = self.scan_dir(p, x, y, -1, -1).0;
        let found = s1 || s2 || s3 || s4 || s5 || s6 || s7 || s8;
        proof {
            assert(dir_ok(0, 1) && dir_ok(0, -1) && dir_ok(-1, 0) && dir_ok(1, 0));
            assert(dir_ok(1, 1) && dir_ok(1, -1) && dir_ok(-1, 1) && dir_ok(-1, -1));
            if !found {
                assert forall|dx: int, dy: int| dir_ok(dx, dy) implies !sandwich(
                    self@,
                    p,
                    x as int,
                    y as int,
                    dx,
                    dy,
                ) by {
                    assert(dx == -1 || dx == 0 || dx == 1);
                    assert(dy == -1 || dy == 0 || dy == 1);
                }
            }
        }
        found
    }

    /// Whether the color to move may place at (x, y).
    pub fn valid_space(&self, x: usize, y: usize) -> (r: bool)
        requires
            self@.wf(),
            x < self@.n,
            y < self@.n,
        ensures
            r == is_legal_for(self@, self@.turn, x as int, y as int),
    {
        self.legal_for(self.turn, x, y)
    }


    /// The indices that the color to move would capture by placing at
    /// (x, y): the union of the opposing runs of every direction that
    /// sandwiches, in the fixed scanning order. Every entry lies on the
    /// board. Legality is not checked: on an illegal coordinate the list is
    /// simply empty.
    pub fn captures(&self, x: usize, y: usize) -> (r: Vec<usize>)
        requires
            self@.wf(),
            x < self@.n,
            y < self@.n,
        ensures
            as_ints(r@) == piece_captures(self@, self@.turn, x as int, y as int),
            forall|i: int| 0 <= i < r@.len() ==> (#[trigger] r@[i]) < self@.cells.len(),
    {
        let t = self.turn;
        let gx: Ghost<int> = Ghost(x as int);
        let gy: Ghost<int> = Ghost(y as int);
        let mut out = self.scan_dir(t, x, y, 0, 1).1;
        let mut c2 = self.scan_dir(t, x, y, 0, -1).1;
        let mut c3 = self.scan_dir(t, x, y, -1, 0).1;
        let mut c4 = self.scan_dir(t, x, y, 1, 0).1;
        let mut c5 = self.scan_dir(t, x, y, 1, 1).1;
        let mut c6 = self.scan_dir(t, x, y, 1, -1).1;
        let mut c7 = self.scan_dir(t, x, y, -1, 1).1;
        let mut c8 = self.scan_dir(t, x, y, -1, -1).1;
        proof {
            lemma_as_ints_add(out@, c2@);
            lemma_as_ints_add(out@ + c2@, c3@);
            lemma_as_ints_add(out@ + c2@ + c3@, c4@);
            lemma_as_ints_add(out@ + c2@ + c3@ + c4@, c5@);
            lemma_as_ints_add(out@ + c2@ + c3@ + c4@ + c5@, c6@);
            lemma_as_ints_add(out@ + c2@ + c3@ + c4@ + c5@ + c6@, c7@);
            lemma_as_ints_add(out@ + c2@ + c3@ + c4@ + c5@ + c6@ + c7@, c8@);
        }
        out.append(&mut c2);
        out.append(&mut c3);
        out.append(&mut c4);
        out.append(&mut c5);
        out.append(&mut c6);
        out.append(&mut c7);
        out.append(&mut c8);
        proof {
            lemma_piece_captures_props(self@, t, gx@, gy@);
            assert forall|i: int| 0 <= i < out@.len() implies (#[trigger] out@[i])
                < self@.cells.len() by {
                assert(as_ints(out@)[i] == out@[i] as int);
                assert(piece_captures(self@, t, gx@, gy@)[i] < self@.n * self@.n);
            }
        }
        out
    }

    /// Places the color to move at the legal coordinate (x, y): the placed
    /// cell and every captured index take that color, the turn passes to
    /// the opponent, and nothing else changes. The occupied-cell count grows
    /// by exactly one, and the mover's piece count by one plus the number of
    /// captures (each capture recolors an opposing piece, never vacating a
    /// cell).
    #[verifier::loop_isolation(false)]
    #[verifier::rlimit(100)]
    pub fn place(&mut self, x: usize, y: usize)
        requires
            old(self)@.wf(),
            x < old(self)@.n,
            y < old(self)@.n,
            is_legal_for(old(self)@, old(self)@.turn, x as int, y as int),
            old(self)@.winner is None,
        ensures
            final(self)@.wf(),
            final(self)@.n == old(self)@.n,
            final(self)@.turn == opposite(old(self)@.turn),
            final(self)@.winner is None,
            final(self)@.cells == placed_cells(old(self)@, old(self)@.turn, x as int, y as int),
            count_occupied(final(self)@.cells) == count_occupied(old(self)@.cells) + 1,
            count_none(final(self)@.cells) == count_none(old(self)@.cells) - 1,
            count_piece(final(self)@.cells, old(self)@.turn) == count_piece(
                old(self)@.cells,
                old(self)@.turn,
            ) + 1 + piece_captures(old(self)@, old(self)@.turn, x as int, y as int).len(),
            count_piece(final(self)@.cells, opposite(old(self)@.turn)) == count_piece(
                old(self)@.cells,
                opposite(old(self)@.turn),
            ) - piece_captures(old(self)@, old(self)@.turn, x as int, y as int).len(),
    {
        let ghost v0 = self@;
        let p = self.turn;
        let ghost q = opposite(p);
        let ghost scaps = piece_captures(v0, p, x as int, y as int);
        let caps = self.captures(x, y);
        let i0 = self.cell_pos(x, y);
        proof {
            lemma_piece_captures_props(v0, p, x as int, y as int);
            lemma_count_update(v0.cells, i0 as int, Some(p));
            assert(cell_at(v0, x as int, y as int) is None);
        }
        self.board[i0] = Some(p);
        let len = caps.len();
        let mut k: usize = 0;
        while k < len
            invariant
                k <= len,
                len == scaps.len(),
                self.board@.len() == v0.cells.len(),
                self.n == old(self).n,
                self.turn == p,
                self.winner == v0.winner,
                forall|i: int|
                    0 <= i < v0.cells.len() ==> #[trigger] self.board@[i] == (if i == i0 as int
                        || (exists|m: int| 0 <= m < k && #[trigger] scaps[m] == i) {
                        Some(p)
                    } else {
                        v0.cells[i]
                    }),
                count_none(self.board@) == count_none(v0.cells) - 1,
                count_piece(self.board@, p) == count_piece(v0.cells, p) + 1 + k,
                count_piece(self.board@, q) == count_piece(v0.cells, q) - k,
            decreases len - k,
        {
            let idx = caps[k];
            proof {
                assert(as_ints(caps@)[k as int] == caps@[k as int] as int);
                assert(idx as int == scaps[k as int]);
                assert(v0.cells[idx as int] == Some(q));
                assert(idx as int != i0 as int);
                assert forall|m: int| 0 <= m < k implies #[trigger] scaps[m] != idx as int by {
                    assert(scaps[m] != scaps[k as int]);
                }
                assert(self.board@[idx as int] == Some(q));
                lemma_count_update(self.board@, idx as int, Some(p));
            }
            self.board[idx] = Some(p);
            k = k + 1;
            proof {
                assert forall|i: int| 0 <= i < v0.cells.len() implies #[trigger] self.board@[i] == (
                if i == i0 as int || (exists|m: int| 0 <= m < k && #[trigger] scaps[m] == i) {
                    Some(p)
                } else {
                    v0.cells[i]
                }) by {
                    if i == idx as int {
                        assert(scaps[k - 1] == i);
                    } else {
                        if exists|m: int| 0 <= m < k && #[trigger] scaps[m] == i {
                            let m = choose|m: int| 0 <= m < k && #[trigger] scaps[m] == i;
                            assert(0 <= m < k - 1 && scaps[m] == i);
                        }
                    }
                }
            }
        }
        proof {
            assert(self.board@ =~= placed_cells(v0, p, x as int, y as int));
            if p == Piece::Black {
                assert(count_occupied(self.board@) == count_occupied(v0.cells) + 1);
            } else {
                assert(count_occupied(self.board@) == count_occupied(v0.cells) + 1);
            }
        }
        self.next_turn();
    }


    /// Whether `p` has a legal placement anywhere on the board.
    #[verifier::loop_isolation(false)]
    pub fn has_any_move(&self, p: Piece) -> (r: bool)
        requires
            self@.wf(),
        ensures
            r == has_legal_move(self@, p),
    {
        let n = self.n;
        let mut x: usize = 0;
        while x < n
            invariant
                x <= n,
                forall|i: int, j: int|
                    0 <= i < x && 0 <= j < n ==> !is_legal_for(self@, p, i, j),
            decreases n - x,
        {
            let mut y: usize = 0;
            while y < n
                invariant
                    y <= n,
                    x < n,
                    forall|i: int, j: int|
                        0 <= i < x && 0 <= j < n ==> !is_legal_for(self@, p, i, j),
                    forall|j: int| 0 <= j < y ==> !is_legal_for(self@, p, x as int, j),
                decreases n - y,
            {
                if self.legal_for(p, x, y) {
                    return true;
                }
                y = y + 1;
            }
            x = x + 1;
        }
        proof {
            assert forall|i: int, j: int| !(#[trigger] is_legal_for(self@, p, i, j)) by {
                if 0 <= i < n && 0 <= j < n {
                    assert(!is_legal_for(self@, p, i, j));
                }
            }
        }
        false
    }

    /// Whether the color to move has a legal placement anywhere.
    pub fn has_move(&self) -> (r: bool)
        requires
            self@.wf(),
        ensures
            r == has_legal_move(self@, self@.turn),
    {
        self.has_any_move(self.turn)
    }

    /// Reads the outcome off the board - whichever color holds more cells
    /// wins, equal counts tie - and records it as the game's outcome.
    pub fn check_winner(&mut self) -> (r: Winner)
        requires
            old(self)@.wf(),
        ensures
            r == board_outcome(old(self)@.cells),
            final(self)@ == (GameView { winner: Some(r), ..old(self)@ }),
    {
        let black = self.color_count(Piece::Black);
        let white = self.color_count(Piece::White);
        let w = if black > white {
            Winner::Black
        } else if white > black {
            Winner::White
        } else {
            Winner::Tie
        };
        self.winner = Some(w);
        w
    }

    /// Settles whose turn it is after the board changed: a full board ends
    /// the game at once; otherwise a mover with no legal coordinate
    /// forfeits the turn without any board mutation, and if the opponent
    /// then has none either, the game ends with the piece-count outcome. In
    /// a terminal state nothing changes.
    pub fn resolve_turn(&mut self)
        requires
            old(self)@.wf(),
        ensures
            final(self)@.wf(),
            final(self)@.cells == old(self)@.cells,
            final(self)@.n == old(self)@.n,
            old(self)@.winner is Some ==> final(self)@ == old(self)@,
            old(self)@.winner is None && count_none(old(self)@.cells) == 0 ==> final(self)@ == (
            GameView { winner: Some(board_outcome(old(self)@.cells)), ..old(self)@ }),
            old(self)@.winner is None && count_none(old(self)@.cells) != 0 && has_legal_move(
                old(self)@,
                old(self)@.turn,
            ) ==> final(self)@ == old(self)@,
            old(self)@.winner is None && count_none(old(self)@.cells) != 0 && !has_legal_move(
                old(self)@,
                old(self)@.turn,
            ) && has_legal_move(old(self)@, opposite(old(self)@.turn)) ==> final(self)@ == (GameView { turn: opposite(old(self)@.turn), ..old(self)@ }),
            old(self)@.winner is None && count_none(old(self)@.cells) != 0 && !has_legal_move(
                old(self)@,
                old(self)@.turn,
            ) && !has_legal_move(old(self)@, opposite(old(self)@.turn)) ==> final(self)@ == (GameView {
                turn: opposite(old(self)@.turn),
                winner: Some(board_outcome(old(self)@.cells)),
                ..old(self)@
            }),
    {
        if self.winner.is_some() {
            return ;
        }
        if self.empty_count() == 0 {
            self.check_winner();
            return ;
        }
        if self.has_move() {
            return ;
        }
        let opp_can = self.has_any_move(other(self.turn));
        self.next_turn();
        if !opp_can {
            self.check_winner();
        }
    }

    /// Validates and plays a placement for the color to move: an off-board
    /// coordinate is rejected before the board is read; after the game has
    /// ended, on an occupied cell, or where no direction sandwiches and the
    /// last-cell rule does not apply, the move is illegal and nothing
    /// changes; otherwise the placement is applied and the turn passes to
    /// the opponent.
    pub fn try_place(&mut self, x: usize, y: usize) -> (r: Result<(), GameError>)
        requires
            old(self)@.wf(),
        ensures
            final(self)@.wf(),
            !(x < old(self)@.n && y < old(self)@.n) ==> r == Err::<(), GameError>(
                GameError::OutOfBounds,
            ) && final(self)@ == old(self)@,
            x < old(self)@.n && y < old(self)@.n && (old(self)@.winner is Some || !is_legal_for(
                old(self)@,
                old(self)@.turn,
                x as int,
                y as int,
            )) ==> r == Err::<(), GameError>(GameError::IllegalMove) && final(self)@ == old(self)@,
            x < old(self)@.n && y < old(self)@.n && old(self)@.winner is None && is_legal_for(
                old(self)@,
                old(self)@.turn,
                x as int,
                y as int,
            ) ==> r == Ok::<(), GameError>(()) && final(self)@ == (GameView {
                cells: placed_cells(old(self)@, old(self)@.turn, x as int, y as int),
                n: old(self)@.n,
                turn: opposite(old(self)@.turn),
                winner: None,
            }) && count_occupied(final(self)@.cells) == count_occupied(old(self)@.cells) + 1,
    {
        if x >= self.n || y >= self.n {
            return Err(GameError::OutOfBounds);
        }
        if self.winner.is_some() {
            return Err(GameError::IllegalMove);
        }
        if !self.valid_space(x, y) {
            return Err(GameError::IllegalMove);
        }
        self.place(x, y);
        Ok(())
    }

    /// Hands the turn to the other color, touching nothing else.
    pub fn next_turn(&mut self)
        ensures
            final(self)@ == (GameView { turn: opposite(old(self)@.turn), ..old(self)@ }),
    {
        self.turn = other(self.turn);
    }
}

} // verus!
