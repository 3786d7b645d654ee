//! The 3×3 board: its marks, its shape, its decimal hash, and placing a mark.

use vstd::prelude::*;

verus! {

/// A board is three rows of three cells. A cell holds `'X'`, the mark of the
/// player who moves first, `'O'`, the mark of the other player, or `' '`
/// while nobody has played it.
pub type Board = Vec<Vec<char>>;

/// The mathematical model of a board: `g[row][col]` is the mark in that cell.
pub type Grid = Seq<Seq<char>>;

/// The three values a cell may hold.
pub open spec fn is_mark(c: char) -> bool {
    c == 'X' || c == 'O' || c == ' '
}

/// The two values a player may place.
pub open spec fn is_player(c: char) -> bool {
    c == 'X' || c == 'O'
}

/// A well-formed board: three rows of three cells, each holding a mark.
pub open spec fn is_board(g: Grid) -> bool {
    &&& g.len() == 3
    &&& forall|r: int| 0 <= r < 3 ==> (#[trigger] g[r]).len() == 3
    &&& forall|r: int, c: int| 0 <= r < 3 && 0 <= c < 3 ==> is_mark(#[trigger] g[r][c])
}

/// The board on which nothing has been played.
pub open spec fn empty_grid() -> Grid {
    Seq::new(3, |r: int| Seq::new(3, |c: int| ' '))
}

/// The nine cells of a board in row-major order.
pub open spec fn cells(g: Grid) -> Seq<char> {
    Seq::new(9, |k: int| g[k / 3][k % 3])
}

/// The digit that stands for a mark in the hash: 1 for `'X'`, 2 for `'O'`, 3 for empty.
pub open spec fn ord_of(c: char) -> int {
    if c == 'X' {
        1
    } else if c == 'O' {
        2
    } else {
        3
    }
}

/// The value of a decimal numeral: `digits[0]` is the most significant digit,
/// so appending a digit `d` to a numeral of value `v` gives `10 * v + d`.
pub open spec fn decimal(digits: Seq<int>) -> int
    decreases digits.len(),
{
    if digits.len() == 0 {
        0
    } else {
        10 * decimal(digits.drop_last()) + digits.last()
    }
}

/// Ten to the power `n`.
pub open spec fn pow10(n: nat) -> int
    decreases n,
{
    if n == 0 {
        1
    } else {
        10 * pow10((n - 1) as nat)
    }
}

/// The hash of a board: the nine-digit decimal numeral whose digits are the
/// ordinals of the cells in row-major order.
pub open spec fn hash_of(g: Grid) -> int {
    decimal(cells(g).map_values(|c: char| ord_of(c)))
}

/// The board `g` with the cell at `row`, `col` holding `mark`, every other cell unchanged.
pub open spec fn placed(g: Grid, row: int, col: int, mark: char) -> Grid {
    Seq::new(
        3,
        |r: int|
            Seq::new(
                3,
                |c: int|
                    if r == row && c == col {
                        mark
                    } else {
                        g[r][c]
                    },
            ),
    )
}

/// 1 if the cell at `row`, `col` holds `mark`, 0 if it does not.
pub open spec fn mark_at(g: Grid, row: int, col: int, mark: char) -> int {
    if g[row][col] == mark {
        1
    } else {
        0
    }
}

/// The number of cells that hold `mark` among the first `k` cells in
/// row-major order.
pub open spec fn marks_before(g: Grid, mark: char, k: nat) -> int
    decreases k,
{
    if k == 0 {
        0
    } else {
        marks_before(g, mark, (k - 1) as nat) + mark_at(g, (k - 1) / 3, (k - 1) % 3, mark)
    }
}

/// The number of cells of a board that hold `mark`.
pub open spec fn mark_count(g: Grid, mark: char) -> int {
    marks_before(g, mark, 9)
}

/// The number of empty cells of a board.
pub open spec fn open_count(g: Grid) -> int {
    mark_count(g, ' ')
}

/// The number of cells of a board that hold a player's mark.
pub open spec fn filled_count(g: Grid) -> int {
    9 - open_count(g)
}

/// The number of cells that hold a mark is the sum over the nine cells.
pub proof fn lemma_mark_count(g: Grid, mark: char)
    ensures
        mark_count(g, mark) == mark_at(g, 0, 0, mark) + mark_at(g, 0, 1, mark) + mark_at(
            g,
            0,
            2,
            mark,
        ) + mark_at(g, 1, 0, mark) + mark_at(g, 1, 1, mark) + mark_at(g, 1, 2, mark) + mark_at(
            g,
            2,
            0,
            mark,
        ) + mark_at(g, 2, 1, mark) + mark_at(g, 2, 2, mark),
        0 <= mark_count(g, mark) <= 9,
{
    reveal_with_fuel(marks_before, 10);
}

/// Placing a mark changes the counts in one cell only: the count of what
/// the cell held falls by one, and the count of the mark placed rises by one.
pub proof fn lemma_placed_counts(g: Grid, row: int, col: int, mark: char, counted: char)
    requires
        0 <= row < 3,
        0 <= col < 3,
    ensures
        mark_count(placed(g, row, col, mark), counted) == mark_count(g, counted) - mark_at(
            g,
            row,
            col,
            counted,
        ) + (if mark == counted {
            1int
        } else {
            0int
        }),
{
    let p = placed(g, row, col, mark);
    lemma_mark_count(g, counted);
    lemma_mark_count(p, counted);
}

/// Placing a player's mark into an empty cell leaves one empty cell fewer.
pub proof fn lemma_placed_fills_one(g: Grid, row: int, col: int, player: char)
    requires
        0 <= row < 3,
        0 <= col < 3,
        g[row][col] == ' ',
        player != ' ',
    ensures
        open_count(placed(g, row, col, player)) == open_count(g) - 1,
        0 <= open_count(placed(g, row, col, player)),
{
    lemma_placed_counts(g, row, col, player, ' ');
    lemma_mark_count(placed(g, row, col, player), ' ');
}

/// A board has between zero and nine empty cells.
pub proof fn lemma_open_count_bounds(g: Grid)
    ensures
        0 <= open_count(g) <= 9,
{
    lemma_mark_count(g, ' ');
}

/// Placing a mark on a board gives a board.
pub proof fn lemma_placed_is_board(g: Grid, row: int, col: int, mark: char)
    requires
        is_board(g),
        is_mark(mark),
    ensures
        is_board(placed(g, row, col, mark)),
{
}

/// What the executable board holds, row by row and cell by cell.
pub proof fn lemma_board_cells(board: Board)
    requires
        is_board(board.deep_view()),
    ensures
        board@.len() == 3,
        forall|r: int| 0 <= r < 3 ==> (#[trigger] board@[r])@.len() == 3,
        forall|r: int, c: int|
            0 <= r < 3 && 0 <= c < 3 ==> #[trigger] board@[r]@[c] == board.deep_view()[r][c],
{
    let g = board.deep_view();
    assert forall|r: int| 0 <= r < 3 implies (#[trigger] board@[r])@.len() == 3 by {
        assert(g[r].len() == 3);
    }
}

/// A numeral of `n` decimal digits is less than ten to the power `n`.
pub proof fn lemma_decimal_bound(digits: Seq<int>)
    requires
        forall|i: int| 0 <= i < digits.len() ==> 0 <= #[trigger] digits[i] <= 9,
    ensures
        0 <= decimal(digits) < pow10(digits.len()),
    decreases digits.len(),
{
    if digits.len() > 0 {
        lemma_decimal_bound(digits.drop_last());
    }
}

/// Ten to the power `n` grows with `n`.
pub proof fn lemma_pow10_monotonic(m: nat, n: nat)
    requires
        m <= n,
    ensures
        0 < pow10(m) <= pow10(n),
    decreases n,
{
    if m < n {
        lemma_pow10_monotonic(m, (n - 1) as nat);
    } else if n > 0 {
        lemma_pow10_monotonic((m - 1) as nat, (n - 1) as nat);
    }
}

/// Whether `board` is a well-formed board: three rows of three cells, each
/// holding `'X'`, `'O'` or `' '`.
pub fn is_valid_board(board: &Board) -> (valid: bool)
    ensures
        valid == is_board(board.deep_view()),
{
    let ghost g = board.deep_view();
    if board.len() != 3 {
        return false;
    }
    let mut rownum: usize = 0;
    while rownum < 3
        invariant
            rownum <= 3,
            g == board.deep_view(),
            board@.len() == 3,
            forall|r: int| 0 <= r < rownum ==> (#[trigger] g[r]).len() == 3,
            forall|r: int, c: int| 0 <= r < rownum && 0 <= c < 3 ==> is_mark(#[trigger] g[r][c]),
        decreases 3 - rownum,
    {
        assert(g[rownum as int] == board@[rownum as int].deep_view());
        if board[rownum].len() != 3 {
            return false;
        }
        let mut colnum: usize = 0;
        while colnum < 3
            invariant
                rownum < 3,
                colnum <= 3,
                g == board.deep_view(),
                board@.len() == 3,
                board@[rownum as int]@.len() == 3,
                g[rownum as int] == board@[rownum as int].deep_view(),
                forall|c: int| 0 <= c < colnum ==> is_mark(#[trigger] g[rownum as int][c]),
            decreases 3 - colnum,
        {
            let c = board[rownum][colnum];
            assert(g[rownum as int][colnum as int] == c);
            if c != 'X' && c != 'O' && c != ' ' {
                return false;
            }
            colnum += 1;
        }
        rownum += 1;
    }
    true
}

/// The ordinal of a mark, as used in the hash.
pub fn get_ord(c: char) -> (ord: u32)
    requires
        is_mark(c),
    ensures
        ord == ord_of(c),
{
    if c == 'X' {
        1
    } else if c == 'O' {
        2
    } else {
        3
    }
}

/// The hash of a board. Distinct boards have distinct hashes.
pub fn get_hash(board: &Board) -> (hash: u32)
    requires
        is_board(board.deep_view()),
    ensures
        hash == hash_of(board.deep_view()),
{
    let ghost g = board.deep_view();
    let ghost digits = cells(g).map_values(|c: char| ord_of(c));
    proof {
        lemma_board_cells(*board);
        assert(pow10(8) == 100_000_000) by {
            reveal_with_fuel(pow10, 9);
        }
    }
    let mut result: u32 = 0;
    let mut row: usize = 0;
    while row < 3
        invariant
            row <= 3,
            g == board.deep_view(),
            is_board(g),
            digits == cells(g).map_values(|c: char| ord_of(c)),
            board@.len() == 3,
            forall|r: int| 0 <= r < 3 ==> (#[trigger] board@[r])@.len() == 3,
            forall|r: int, c: int|
                0 <= r < 3 && 0 <= c < 3 ==> #[trigger] board@[r]@[c] == g[r][c],
            result == decimal(digits.take(3 * row as int)),
            pow10(8) == 100_000_000,
        decreases 3 - row,
    {
        let mut col: usize = 0;
        while col < 3
            invariant
                row < 3,
                col <= 3,
                is_board(g),
                digits == cells(g).map_values(|c: char| ord_of(c)),
                board@.len() == 3,
                forall|r: int| 0 <= r < 3 ==> (#[trigger] board@[r])@.len() == 3,
                forall|r: int, c: int|
                    0 <= r < 3 && 0 <= c < 3 ==> #[trigger] board@[r]@[c] == g[r][c],
                result == decimal(digits.take(3 * row + col)),
                pow10(8) == 100_000_000,
            decreases 3 - col,
        {
            let ghost k: int = 3 * row + col;
            proof {
                let before = digits.take(k);
                let after = digits.take(k + 1);
                assert(after.drop_last() =~= before);
                lemma_decimal_bound(before);
                lemma_pow10_monotonic(k as nat, 8);
            }
            result = 10 * result + get_ord(board[row][col]);
            col += 1;
        }
        row += 1;
    }
    proof {
        assert(digits.take(9) =~= digits);
    }
    result
}

/// Writes `mark` into the cell at `row`, `col`.
pub fn set_cell(board: &mut Board, row: usize, col: usize, mark: char)
    requires
        is_board(old(board).deep_view()),
        row < 3,
        col < 3,
        is_mark(mark),
    ensures
        final(board).deep_view() == placed(old(board).deep_view(), row as int, col as int, mark),
        is_board(final(board).deep_view()),
{
    proof {
        lemma_board_cells(*board);
    }
    board[row][col] = mark;
    proof {
        let g = old(board).deep_view();
        let n = board.deep_view();
        let p = placed(g, row as int, col as int, mark);
        assert forall|r: int| 0 <= r < 3 implies #[trigger] n[r] =~= p[r] by {}
    }
}

/// A copy of `board` in which the empty cell at `row`, `col` holds `mark`.
pub fn apply_mark(board: &Board, row: usize, col: usize, mark: char) -> (next: Board)
    requires
        is_board(board.deep_view()),
        row < 3,
        col < 3,
        board.deep_view()[row as int][col as int] == ' ',
        is_mark(mark),
    ensures
        next.deep_view() == placed(board.deep_view(), row as int, col as int, mark),
        is_board(next.deep_view()),
{
    let mut next = board.clone();
    set_cell(&mut next, row, col, mark);
    next
}

} // verus!
