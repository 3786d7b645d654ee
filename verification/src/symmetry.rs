//! The eight symmetries of the square acting on boards, and the canonical key
//! of a board: the least hash among its eight images.

use vstd::prelude::*;
use crate::board::{get_hash, hash_of, is_board, lemma_board_cells, placed, set_cell, Board, Grid};

verus! {

/// The board turned a quarter turn anticlockwise: the cell at `row`, `col`
/// comes from the cell at `col`, `2 - row`.
pub open spec fn rotated(g: Grid) -> Grid {
    Seq::new(3, |r: int| Seq::new(3, |c: int| g[c][2 - r]))
}

/// The board mirrored top to bottom: rows 0 and 2 change places.
pub open spec fn reflected_x(g: Grid) -> Grid {
    Seq::new(3, |r: int| Seq::new(3, |c: int| g[2 - r][c]))
}

/// The board mirrored left to right: columns 0 and 2 change places.
pub open spec fn reflected_y(g: Grid) -> Grid {
    Seq::new(3, |r: int| Seq::new(3, |c: int| g[r][2 - c]))
}

/// The board mirrored in the diagonal that runs from bottom left to top right.
pub open spec fn reflected_forward_diag(g: Grid) -> Grid {
    Seq::new(3, |r: int| Seq::new(3, |c: int| g[2 - c][2 - r]))
}

/// The board mirrored in the diagonal that runs from top left to bottom right.
pub open spec fn reflected_backward_diag(g: Grid) -> Grid {
    Seq::new(3, |r: int| Seq::new(3, |c: int| g[c][r]))
}

/// The board in which three pairs of cells have changed places with their
/// partners. Each of the six cells receives, in the order first, second,
/// third, first partner, second partner, third partner, what `g` holds in
/// the cell opposite; where a cell is named twice the later assignment stands.
pub open spec fn exchanged(
    g: Grid,
    x1: int,
    y1: int,
    x1n: int,
    y1n: int,
    x2: int,
    y2: int,
    x2n: int,
    y2n: int,
    x3: int,
    y3: int,
    x3n: int,
    y3n: int,
) -> Grid {
    let a = placed(g, x1, y1, g[x1n][y1n]);
    let b = placed(a, x2, y2, g[x2n][y2n]);
    let c = placed(b, x3, y3, g[x3n][y3n]);
    let d = placed(c, x1n, y1n, g[x1][y1]);
    let e = placed(d, x2n, y2n, g[x2][y2]);
    placed(e, x3n, y3n, g[x3][y3])
}

/// `image` is one of the eight images of `g` under the symmetries of the
/// square: `g` itself, one of its three rotations or one of its four
/// reflections.
pub open spec fn in_orbit(g: Grid, image: Grid) -> bool {
    ||| image == g
    ||| image == rotated(g)
    ||| image == rotated(rotated(g))
    ||| image == rotated(rotated(rotated(g)))
    ||| image == reflected_x(g)
    ||| image == reflected_y(g)
    ||| image == reflected_forward_diag(g)
    ||| image == reflected_backward_diag(g)
}

/// The smaller of two numbers.
pub open spec fn least(a: int, b: int) -> int {
    if a <= b {
        a
    } else {
        b
    }
}

/// The canonical key of a board: the least of the hashes of the board, its
/// three rotations and its four reflections.
pub open spec fn canonical_key(g: Grid) -> int {
    least(
        hash_of(g),
        least(
            hash_of(rotated(g)),
            least(
                hash_of(rotated(rotated(g))),
                least(
                    hash_of(rotated(rotated(rotated(g)))),
                    least(
                        hash_of(reflected_x(g)),
                        least(
                            hash_of(reflected_y(g)),
                            least(
                                hash_of(reflected_forward_diag(g)),
                                hash_of(reflected_backward_diag(g)),
                            ),
                        ),
                    ),
                ),
            ),
        ),
    )
}

/// Two boards are equal when they agree cell by cell.
pub proof fn lemma_grid_equal(a: Grid, b: Grid)
    requires
        a.len() == 3,
        b.len() == 3,
        forall|r: int| 0 <= r < 3 ==> (#[trigger] a[r]).len() == 3,
        forall|r: int| 0 <= r < 3 ==> (#[trigger] b[r]).len() == 3,
        forall|r: int, c: int| 0 <= r < 3 && 0 <= c < 3 ==> #[trigger] a[r][c] == b[r][c],
    ensures
        a == b,
{
    assert forall|r: int| 0 <= r < 3 implies #[trigger] a[r] =~= b[r] by {}
}

/// The view of an executable board agrees with a model grid when its cells do.
proof fn lemma_board_is(board: Board, p: Grid)
    requires
        board@.len() == 3,
        forall|r: int| 0 <= r < 3 ==> (#[trigger] board@[r])@.len() == 3,
        p.len() == 3,
        forall|r: int| 0 <= r < 3 ==> (#[trigger] p[r]).len() == 3,
        forall|r: int, c: int| 0 <= r < 3 && 0 <= c < 3 ==> #[trigger] board@[r]@[c] == p[r][c],
    ensures
        board.deep_view() == p,
{
    let n = board.deep_view();
    lemma_grid_equal(n, p);
}

/// Every symmetry of the square maps boards to boards.
pub proof fn lemma_symmetries_keep_boards(g: Grid)
    requires
        is_board(g),
    ensures
        is_board(rotated(g)),
        is_board(reflected_x(g)),
        is_board(reflected_y(g)),
        is_board(reflected_forward_diag(g)),
        is_board(reflected_backward_diag(g)),
{
}

/// Turns the board a quarter turn anticlockwise, in place.
pub fn rotate_board(board: &mut Board)
    requires
        is_board(old(board).deep_view()),
    ensures
        final(board).deep_view() == rotated(old(board).deep_view()),
        is_board(final(board).deep_view()),
{
    proof {
        lemma_board_cells(*board);
    }
    let first_row: Vec<char> = board[0].clone();
    board[0][0] = board[0][2];
    board[0][1] = board[1][2];
    board[0][2] = board[2][2];

    board[1][2] = board[2][1];
    board[2][2] = board[2][0];

    board[2][1] = board[1][0];
    board[2][0] = first_row[0];
    board[1][0] = first_row[1];
    proof {
        let g = old(board).deep_view();
        lemma_board_is(*board, rotated(g));
    }
}

/// A copy of `board` in which three pairs of cells have changed places:
/// the cell at `x1`, `y1` with the one at `x1n`, `y1n`, and likewise the
/// second and the third pair.
pub fn reflect_board(
    board: &Board,
    x1: usize,
    y1: usize,
    x1n: usize,
    y1n: usize,
    x2: usize,
    y2: usize,
    x2n: usize,
    y2n: usize,
    x3: usize,
    y3: usize,
    x3n: usize,
    y3n: usize,
) -> (reflect: Board)
    requires
        is_board(board.deep_view()),
        x1 < 3 && y1 < 3 && x1n < 3 && y1n < 3,
        x2 < 3 && y2 < 3 && x2n < 3 && y2n < 3,
        x3 < 3 && y3 < 3 && x3n < 3 && y3n < 3,
    ensures
        reflect.deep_view() == exchanged(
            board.deep_view(),
            x1 as int,
            y1 as int,
            x1n as int,
            y1n as int,
            x2 as int,
            y2 as int,
            x2n as int,
            y2n as int,
            x3 as int,
            y3 as int,
            x3n as int,
            y3n as int,
        ),
        is_board(reflect.deep_view()),
{
    let mut reflect = board.clone();
    proof {
        lemma_board_cells(*board);
    }
    set_cell(&mut reflect, x1, y1, board[x1n][y1n]);
    set_cell(&mut reflect, x2, y2, board[x2n][y2n]);
    set_cell(&mut reflect, x3, y3, board[x3n][y3n]);

    set_cell(&mut reflect, x1n, y1n, board[x1][y1]);
    set_cell(&mut reflect, x2n, y2n, board[x2][y2]);
    set_cell(&mut reflect, x3n, y3n, board[x3][y3]);
    reflect
}

/// A copy of `board` mirrored top to bottom.
pub fn reflect_board_x(board: &Board) -> (reflect: Board)
    requires
        is_board(board.deep_view()),
    ensures
        reflect.deep_view() == reflected_x(board.deep_view()),
        is_board(reflect.deep_view()),
{
    let reflect = reflect_board(board, 0, 0, 2, 0, 0, 1, 2, 1, 0, 2, 2, 2);
    proof {
        lemma_grid_equal(reflect.deep_view(), reflected_x(board.deep_view()));
    }
    reflect
}

/// A copy of `board` mirrored left to right.
pub fn reflect_board_y(board: &Board) -> (reflect: Board)
    requires
        is_board(board.deep_view()),
    ensures
        reflect.deep_view() == reflected_y(board.deep_view()),
        is_board(reflect.deep_view()),
{
    let reflect = reflect_board(board, 0, 0, 0, 2, 1, 0, 1, 2, 2, 0, 2, 2);
    proof {
        lemma_grid_equal(reflect.deep_view(), reflected_y(board.deep_view()));
    }
    reflect
}

/// A copy of `board` mirrored in the diagonal from bottom left to top right.
pub fn reflect_board_forward_diag(board: &Board) -> (reflect: Board)
    requires
        is_board(board.deep_view()),
    ensures
        reflect.deep_view() == reflected_forward_diag(board.deep_view()),
        is_board(reflect.deep_view()),
{
    let reflect = reflect_board(board, 0, 0, 2, 2, 0, 1, 1, 2, 1, 0, 2, 1);
    proof {
        lemma_grid_equal(reflect.deep_view(), reflected_forward_diag(board.deep_view()));
    }
    reflect
}

/// A copy of `board` mirrored in the diagonal from top left to bottom right.
pub fn reflect_board_backward_diag(board: &Board) -> (reflect: Board)
    requires
        is_board(board.deep_view()),
    ensures
        reflect.deep_view() == reflected_backward_diag(board.deep_view()),
        is_board(reflect.deep_view()),
{
    let reflect = reflect_board(board, 0, 2, 2, 0, 0, 1, 1, 0, 1, 2, 2, 1);
    proof {
        lemma_grid_equal(reflect.deep_view(), reflected_backward_diag(board.deep_view()));
    }
    reflect
}

/// The least of a non-empty list of hashes.
fn smallest(hashes: &Vec<u32>) -> (least_hash: u32)
    requires
        hashes@.len() > 0,
    ensures
        exists|i: int| 0 <= i < hashes@.len() && hashes@[i] == least_hash,
        forall|i: int| 0 <= i < hashes@.len() ==> least_hash <= hashes@[i],
{
    let mut least_hash: u32 = hashes[0];
    let mut at: usize = 1;
    while at < hashes.len()
        invariant
            1 <= at <= hashes@.len(),
            exists|i: int| 0 <= i < at && hashes@[i] == least_hash,
            forall|i: int| 0 <= i < at ==> least_hash <= hashes@[i],
        decreases hashes@.len() - at,
    {
        if hashes[at] < least_hash {
            least_hash = hashes[at];
        }
        at += 1;
    }
    least_hash
}

/// The canonical key of a board, and whether the board's own hash is that key.
pub fn get_smallest_hash(board: &Board) -> (key: (u32, bool))
    requires
        is_board(board.deep_view()),
    ensures
        key.0 == canonical_key(board.deep_view()),
        key.1 == (hash_of(board.deep_view()) == canonical_key(board.deep_view())),
{
    let mut hashes: Vec<u32> = Vec::new();
    hashes.push(get_hash(board));
    let mut turned: Board = board.clone();
    rotate_board(&mut turned);
    hashes.push(get_hash(&turned));
    rotate_board(&mut turned);
    hashes.push(get_hash(&turned));
    rotate_board(&mut turned);
    hashes.push(get_hash(&turned));

    hashes.push(get_hash(&reflect_board_x(board)));
    hashes.push(get_hash(&reflect_board_y(board)));
    hashes.push(get_hash(&reflect_board_forward_diag(board)));
    hashes.push(get_hash(&reflect_board_backward_diag(board)));

    let min_hash = smallest(&hashes);
    proof {
        let g = board.deep_view();
        assert(hashes@[1] == hash_of(rotated(g)));
        assert(hashes@[2] == hash_of(rotated(rotated(g))));
        assert(hashes@[3] == hash_of(rotated(rotated(rotated(g)))));
        assert(hashes@[4] == hash_of(reflected_x(g)));
        assert(hashes@[5] == hash_of(reflected_y(g)));
        assert(hashes@[6] == hash_of(reflected_forward_diag(g)));
        assert(hashes@[7] == hash_of(reflected_backward_diag(g)));
    }
    (min_hash, min_hash == hashes[0])
}

} // verus!
