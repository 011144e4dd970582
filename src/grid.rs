//! The 9×9 grid and its propagation engine.
use vstd::prelude::*;
use crate::cell::{
    Cell,
    CellPossibilities,
    all_digits,
    is_digit,
    is_lowest,
    is_symbol_char,
    lemma_cell_bounded,
    symbol_of,
};

verus! {

broadcast use lemma_cell_bounded;

/// The candidates of each cell, by row and column.
pub type Board = Seq<Seq<Set<u8>>>;

/// `(r, c)` names a cell of the grid.
pub open spec fn in_grid(r: int, c: int) -> bool {
    0 <= r < 9 && 0 <= c < 9
}

/// Nine rows of nine finite sets of digits.
pub open spec fn board_wf(g: Board) -> bool {
    &&& g.len() == 9
    &&& forall|r: int| 0 <= r < 9 ==> #[trigger] g[r].len() == 9
    &&& forall|r: int, c: int|
        in_grid(r, c) ==> (#[trigger] g[r][c]).finite() && g[r][c].subset_of(all_digits())
}

/// `(r, c)` lies in the same 3×3 block as `(x, y)`.
pub open spec fn same_block(r: int, c: int, x: int, y: int) -> bool {
    r / 3 == x / 3 && c / 3 == y / 3
}

/// `(r, c)` is another cell that shares a row, a column or a block with `(x, y)`.
pub open spec fn is_peer(r: int, c: int, x: int, y: int) -> bool {
    &&& !(r == x && c == y)
    &&& (r == x || c == y || same_block(r, c, x, y))
}

/// The board after `(x, y)` is fixed to `v` and `v` is ruled out of all its peers.
pub open spec fn collapse_model(g: Board, x: int, y: int, v: u8) -> Board {
    Seq::new(
        9,
        |r: int|
            Seq::new(
                9,
                |c: int|
                    if r == x && c == y {
                        set![v]
                    } else if is_peer(r, c, x, y) {
                        g[r][c].remove(v)
                    } else {
                        g[r][c]
                    },
            ),
    )
}

/// `(r, c)` comes before `(x, y)` in row-major order.
pub open spec fn before(r: int, c: int, x: int, y: int) -> bool {
    r < x || (r == x && c < y)
}

/// The cell still has more than one candidate.
pub open spec fn undetermined(g: Board, r: int, c: int) -> bool {
    g[r][c].len() > 1
}

/// No cell has more than one candidate left.
pub open spec fn all_settled(g: Board) -> bool {
    forall|r: int, c: int| in_grid(r, c) ==> !#[trigger] undetermined(g, r, c)
}

/// `(x, y)` is the undetermined cell with the fewest candidates, the first in
/// row-major order among those with that many.
pub open spec fn is_least(g: Board, x: int, y: int) -> bool {
    &&& in_grid(x, y)
    &&& undetermined(g, x, y)
    &&& forall|r: int, c: int|
        in_grid(r, c) && #[trigger] undetermined(g, r, c) ==> g[x][y].len() <= g[r][c].len()
            && (before(r, c, x, y) ==> g[x][y].len() < g[r][c].len())
}

/// The cell selected for the next decision.
pub open spec fn least_cell(g: Board) -> (int, int) {
    choose|p: (int, int)| is_least(g, p.0, p.1)
}

/// The lowest digit of `s`.
pub open spec fn lowest_of(s: Set<u8>) -> u8 {
    choose|v: u8| is_lowest(s, v)
}

/// One round of the propagation loop: the selected cell is fixed to its lowest
/// candidate; a settled board stays as it is.
pub open spec fn step(g: Board) -> Board {
    if all_settled(g) {
        g
    } else {
        let p = least_cell(g);
        collapse_model(g, p.0, p.1, lowest_of(g[p.0][p.1]))
    }
}

/// The board after `n` rounds.
pub open spec fn steps(g: Board, n: nat) -> Board
    decreases n,
{
    if n == 0 {
        g
    } else {
        step(steps(g, (n - 1) as nat))
    }
}

/// The cell at position `k` of the row-major order is undetermined.
pub open spec fn undetermined_at(g: Board, k: int) -> bool {
    undetermined(g, k / 9, k % 9)
}

/// How many of the first `n` cells in row-major order are undetermined.
pub open spec fn count_undetermined(g: Board, n: int) -> nat
    decreases n,
{
    if n <= 0 {
        0
    } else {
        count_undetermined(g, n - 1) + if undetermined_at(g, n - 1) {
            1nat
        } else {
            0nat
        }
    }
}

/// How many cells of the board are undetermined.
pub open spec fn undetermined_count(g: Board) -> nat {
    count_undetermined(g, 81)
}

proof fn lemma_count_bounded(g: Board, n: int)
    requires
        0 <= n,
    ensures
        count_undetermined(g, n) <= n,
    decreases n,
{
    if n > 0 {
        lemma_count_bounded(g, n - 1);
    }
}

proof fn lemma_count_monotone(g: Board, h: Board, n: int)
    requires
        0 <= n,
        forall|k: int| 0 <= k < n && #[trigger] undetermined_at(h, k) ==> undetermined_at(g, k),
    ensures
        count_undetermined(h, n) <= count_undetermined(g, n),
    decreases n,
{
    if n > 0 {
        lemma_count_monotone(g, h, n - 1);
    }
}

proof fn lemma_count_drops(g: Board, h: Board, n: int, j: int)
    requires
        0 <= j < n,
        forall|k: int| 0 <= k < n && #[trigger] undetermined_at(h, k) ==> undetermined_at(g, k),
        undetermined_at(g, j),
        !undetermined_at(h, j),
    ensures
        count_undetermined(h, n) < count_undetermined(g, n),
    decreases n,
{
    if j == n - 1 {
        lemma_count_monotone(g, h, n - 1);
    } else {
        lemma_count_drops(g, h, n - 1, j);
    }
}

/// Fixing an undetermined cell to a digit keeps the board well formed, gives no
/// cell more than one candidate that had at most one, and leaves strictly fewer
/// undetermined cells: the propagation loop makes progress on every round.
pub proof fn lemma_collapse_progress(g: Board, x: int, y: int, v: u8)
    requires
        board_wf(g),
        in_grid(x, y),
        undetermined(g, x, y),
        is_digit(v),
    ensures
        board_wf(collapse_model(g, x, y, v)),
        forall|r: int, c: int|
            in_grid(r, c) && #[trigger] undetermined(collapse_model(g, x, y, v), r, c) ==> undetermined(g, r, c),
        undetermined_count(collapse_model(g, x, y, v)) < undetermined_count(g),
{
    let h = collapse_model(g, x, y, v);
    assert forall|r: int, c: int| in_grid(r, c) implies (#[trigger] h[r][c]).finite() && h[r][c].subset_of(all_digits())
        && (undetermined(h, r, c) ==> undetermined(g, r, c)) by {
        if !(r == x && c == y) && is_peer(r, c, x, y) {
            assert(g[r][c].finite());
        }
    }
    assert forall|k: int| 0 <= k < 81 && #[trigger] undetermined_at(h, k) implies undetermined_at(g, k) by {
        assert(in_grid(k / 9, k % 9));
    }
    let j = x * 9 + y;
    assert(j / 9 == x && j % 9 == y);
    lemma_count_drops(g, h, 81, j);
}

/// The selection rule picks at most one cell.
pub proof fn lemma_least_unique(g: Board, x: int, y: int)
    requires
        is_least(g, x, y),
    ensures
        least_cell(g) == (x, y),
{
    let q = (x, y);
    assert(is_least(g, q.0, q.1));
    let p = least_cell(g);
    assert(is_least(g, p.0, p.1));
    assert(undetermined(g, x, y) && undetermined(g, p.0, p.1));
}

/// A set has at most one lowest member.
pub proof fn lemma_lowest_unique(s: Set<u8>, v: u8)
    requires
        is_lowest(s, v),
    ensures
        lowest_of(s) == v,
{
    let w = lowest_of(s);
    assert(is_lowest(s, w));
}

/// Once a board is settled, further rounds leave it as it is.
pub proof fn lemma_steps_stable(g: Board, k: nat, n: nat)
    requires
        all_settled(steps(g, k)),
        k <= n,
    ensures
        steps(g, n) == steps(g, k),
    decreases n,
{
    if n > k {
        lemma_steps_stable(g, k, (n - 1) as nat);
    }
}

/// Candidate count of the cell at position `k` of the row-major order.
spec fn len_at(g: Board, k: int) -> nat {
    g[k / 9][k % 9].len()
}

/// Among the first `k` cells in row-major order, `j` is the undetermined one
/// with the fewest candidates, the first among those with that many.
spec fn best_upto(g: Board, k: int, j: int) -> bool {
    &&& 0 <= j < k
    &&& undetermined_at(g, j)
    &&& forall|i: int|
        0 <= i < k && #[trigger] undetermined_at(g, i) ==> len_at(g, j) <= len_at(g, i) && (i < j
            ==> len_at(g, j) < len_at(g, i))
}

proof fn lemma_best_upto_exists(g: Board, k: int)
    requires
        0 <= k,
    ensures
        (exists|i: int| 0 <= i < k && #[trigger] undetermined_at(g, i)) ==> exists|j: int|
            #[trigger] best_upto(g, k, j),
    decreases k,
{
    if k > 0 {
        lemma_best_upto_exists(g, k - 1);
        if exists|i: int| 0 <= i < k - 1 && #[trigger] undetermined_at(g, i) {
            let j = choose|j: int| #[trigger] best_upto(g, k - 1, j);
            if undetermined_at(g, k - 1) && len_at(g, k - 1) < len_at(g, j) {
                assert(best_upto(g, k, k - 1));
            } else {
                assert(best_upto(g, k, j));
            }
        } else if undetermined_at(g, k - 1) {
            assert(best_upto(g, k, k - 1));
        }
    }
}

/// A board with an undetermined cell has a cell for the selection rule to pick.
pub proof fn lemma_least_exists(g: Board)
    requires
        !all_settled(g),
    ensures
        is_least(g, least_cell(g).0, least_cell(g).1),
{
    let (r0, c0) = choose|r: int, c: int| in_grid(r, c) && #[trigger] undetermined(g, r, c);
    let i0 = r0 * 9 + c0;
    assert(i0 / 9 == r0 && i0 % 9 == c0);
    assert(undetermined_at(g, i0));
    lemma_best_upto_exists(g, 81);
    let j = choose|j: int| #[trigger] best_upto(g, 81, j);
    let x = j / 9;
    let y = j % 9;
    assert forall|r: int, c: int| in_grid(r, c) && #[trigger] undetermined(g, r, c) implies g[x][y].len()
        <= g[r][c].len() && (before(r, c, x, y) ==> g[x][y].len() < g[r][c].len()) by {
        let i = r * 9 + c;
        assert(i / 9 == r && i % 9 == c);
        assert(undetermined_at(g, i));
        assert(before(r, c, x, y) ==> i < j);
    }
    let q = (x, y);
    assert(is_least(g, q.0, q.1));
}

/// A nonempty set of digits has a lowest member.
pub proof fn lemma_lowest_exists(s: Set<u8>)
    requires
        s.subset_of(all_digits()),
        !s.is_empty(),
    ensures
        is_lowest(s, lowest_of(s)),
{
    lemma_lowest_from(s, 1);
}

proof fn lemma_lowest_from(s: Set<u8>, k: int)
    requires
        s.subset_of(all_digits()),
        !s.is_empty(),
        1 <= k <= 10,
        forall|w: u8| s.contains(w) ==> w >= k,
    ensures
        exists|v: u8| is_lowest(s, v),
    decreases 10 - k,
{
    if k == 10 {
        let w = choose|w: u8| s.contains(w);
        assert(all_digits().contains(w));
    } else if s.contains(k as u8) {
        assert(is_lowest(s, k as u8));
    } else {
        lemma_lowest_from(s, k + 1);
    }
}

proof fn lemma_count_positive(g: Board, n: int, j: int)
    requires
        0 <= j < n,
        undetermined_at(g, j),
    ensures
        count_undetermined(g, n) >= 1,
    decreases n,
{
    if j < n - 1 {
        lemma_count_positive(g, n - 1, j);
    }
}

proof fn lemma_rounds(g: Board, n: nat)
    requires
        board_wf(g),
    ensures
        board_wf(steps(g, n)),
        all_settled(steps(g, n)) || n + undetermined_count(steps(g, n)) <= undetermined_count(g),
    decreases n,
{
    if n > 0 {
        let m = (n - 1) as nat;
        lemma_rounds(g, m);
        let h = steps(g, m);
        if !all_settled(h) {
            lemma_least_exists(h);
            let p = least_cell(h);
            assert(h[p.0][p.1].len() > 1);
            assert(h[p.0][p.1].contains(h[p.0][p.1].choose()));
            lemma_lowest_exists(h[p.0][p.1]);
            assert(all_digits().contains(lowest_of(h[p.0][p.1])));
            lemma_collapse_progress(h, p.0, p.1, lowest_of(h[p.0][p.1]));
        }
    }
}

/// From any board, 81 rounds of the propagation loop leave no cell with more
/// than one candidate: once `solve` returns, the selector finds nothing to pick.
pub proof fn lemma_rounds_settle(g: Board)
    requires
        board_wf(g),
    ensures
        all_settled(steps(g, 81)),
{
    lemma_rounds(g, 81);
    lemma_count_bounded(g, 81);
    let h = steps(g, 81);
    if !all_settled(h) {
        let (r, c) = choose|r: int, c: int| in_grid(r, c) && #[trigger] undetermined(h, r, c);
        let i = r * 9 + c;
        assert(i / 9 == r && i % 9 == c);
        lemma_count_positive(h, 81, i);
    }
}

/// A cell as it is shown: its symbol between two spaces.
pub open spec fn cell_text(s: Set<u8>) -> Seq<char> {
    seq![' ', symbol_of(s), ' ']
}

/// The first `n` cells of row `r`, with a `'|'` after every third.
pub open spec fn row_cells_text(g: Board, r: int, n: int) -> Seq<char>
    decreases n,
{
    if n <= 0 {
        Seq::empty()
    } else {
        row_cells_text(g, r, n - 1) + cell_text(g[r][n - 1]) + if n % 3 == 0 {
            seq!['|']
        } else {
            Seq::empty()
        }
    }
}

/// The line drawn under every third row: 29 dashes.
pub open spec fn separator() -> Seq<char> {
    Seq::new(29, |i: int| '-')
}

/// Row `r` as one line, followed by the separator line after every third row.
pub open spec fn line_text(g: Board, r: int) -> Seq<char> {
    row_cells_text(g, r, 9) + seq!['\n'] + if (r + 1) % 3 == 0 {
        separator() + seq!['\n']
    } else {
        Seq::empty()
    }
}

/// The first `n` rows of the board as text.
pub open spec fn board_text(g: Board, n: int) -> Seq<char>
    decreases n,
{
    if n <= 0 {
        Seq::empty()
    } else {
        board_text(g, n - 1) + line_text(g, n - 1)
    }
}

/// A symbol between two spaces.
fn padded(ch: char) -> (r: &'static str)
    requires
        is_symbol_char(ch),
    ensures
        r@ == seq![' ', ch, ' '],
{
    match ch {
        '0' => {
            proof { reveal_strlit(" 0 "); }
            " 0 "
        },
        '1' => {
            proof { reveal_strlit(" 1 "); }
            " 1 "
        },
        '2' => {
            proof { reveal_strlit(" 2 "); }
            " 2 "
        },
        '3' => {
            proof { reveal_strlit(" 3 "); }
            " 3 "
        },
        '4' => {
            proof { reveal_strlit(" 4 "); }
            " 4 "
        },
        '5' => {
            proof { reveal_strlit(" 5 "); }
            " 5 "
        },
        '6' => {
            proof { reveal_strlit(" 6 "); }
            " 6 "
        },
        '7' => {
            proof { reveal_strlit(" 7 "); }
            " 7 "
        },
        '8' => {
            proof { reveal_strlit(" 8 "); }
            " 8 "
        },
        '9' => {
            proof { reveal_strlit(" 9 "); }
            " 9 "
        },
        _ => {
            proof { reveal_strlit(" - "); }
            " - "
        },
    }
}

/// The board while `collapse_block` runs: `(x, y)` already fixed to `v`, and `v`
/// ruled out of the cells that `done` marks.
spec fn partial_board(g: Board, x: int, y: int, v: u8, done: spec_fn(int, int) -> bool) -> Board {
    Seq::new(
        9,
        |r: int|
            Seq::new(
                9,
                |c: int|
                    if r == x && c == y {
                        set![v]
                    } else if done(r, c) {
                        g[r][c].remove(v)
                    } else {
                        g[r][c]
                    },
            ),
    )
}

/// Block cells off both the row and the column of `(x, y)`, up to `(i, j)` in row-major order.
spec fn block_done(x: int, y: int, i: int, j: int) -> spec_fn(int, int) -> bool {
    |r: int, c: int|
        same_block(r, c, x, y) && r != x && c != y && (r < i || (r == i && c < j))
}

/// All block cells off both lines, then the row and column cells below index `i`.
spec fn lines_done(x: int, y: int, i: int) -> spec_fn(int, int) -> bool {
    |r: int, c: int|
        (same_block(r, c, x, y) && r != x && c != y) || (r == x && c != y && c < i) || (c == y
            && r != x && r < i)
}

/// The grid of 81 cells.
pub struct SudokuSpiel {
    cells: [[Cell; 9]; 9],
}

impl View for SudokuSpiel {
    type V = Board;

    closed spec fn view(&self) -> Board {
        Seq::new(9, |r: int| Seq::new(9, |c: int| self.cells[r][c]@))
    }
}

/// Every grid is nine rows of nine finite sets of digits.
pub broadcast proof fn lemma_grid_wf(s: SudokuSpiel)
    ensures
        board_wf(#[trigger] s@),
{
    assert forall|r: int, c: int| in_grid(r, c) implies (#[trigger] s@[r][c]).finite() && s@[r][c].subset_of(
        all_digits(),
    ) by {
        lemma_cell_bounded(s.cells[r][c]);
    }
}

impl SudokuSpiel {
    /// A grid whose cells may all still take every digit.
    pub fn new() -> (r: SudokuSpiel)
        ensures
            forall|x: int, y: int| in_grid(x, y) ==> #[trigger] r@[x][y] == all_digits(),
    {
        let c = Cell::new();
        SudokuSpiel { cells: [[c; 9]; 9] }
    }

    /// The row range and the column range of the 3×3 block around `(x, y)`.
    pub fn get_3x3_block(&self, x: &usize, y: &usize) -> (r: (
        std::ops::Range<usize>,
        std::ops::Range<usize>,
    ))
        requires
            *x < 9,
            *y < 9,
        ensures
            r.0.start == *x - *x % 3,
            r.0.end == r.0.start + 3,
            r.1.start == *y - *y % 3,
            r.1.end == r.1.start + 3,
    {
        let block_start_x = *x - *x % 3;
        let block_start_y = *y - *y % 3;
        (block_start_x..block_start_x + 3, block_start_y..block_start_y + 3)
    }

    /// Fixes `(x, y)` to `num` and rules `num` out of every peer, each peer once.
    /// Returns the candidates that `(x, y)` gave up.
    pub fn collapse_block(&mut self, x: usize, y: usize, num: u8) -> (d: CellPossibilities)
        requires
            x < 9,
            y < 9,
            is_digit(num),
        ensures
            final(self)@ == collapse_model(old(self)@, x as int, y as int, num),
            d@ == old(self)@[x as int][y as int].remove(num),
    {
        let ghost g0 = self@;
        let col = self.collapse_at(x, y, num);
        let (block_x_range, block_y_range) = self.get_3x3_block(&x, &y);
        let mut it_x = block_x_range.start;
        assert(self@ =~~= partial_board(g0, x as int, y as int, num, block_done(x as int, y as int, it_x as int, 0)));
        while it_x < block_x_range.end
            invariant
                block_x_range.start <= it_x <= block_x_range.end,
                block_x_range.start == x - x % 3,
                block_x_range.end == block_x_range.start + 3,
                block_y_range.start == y - y % 3,
                block_y_range.end == block_y_range.start + 3,
                x < 9,
                y < 9,
                self@ == partial_board(g0, x as int, y as int, num, block_done(x as int, y as int, it_x as int, 0)),
            decreases block_x_range.end - it_x,
        {
            let mut it_y = block_y_range.start;
            assert(self@ =~~= partial_board(g0, x as int, y as int, num, block_done(x as int, y as int, it_x as int, it_y as int)));
            while it_y < block_y_range.end
                invariant
                    block_x_range.start <= it_x < block_x_range.end,
                    block_y_range.start <= it_y <= block_y_range.end,
                    block_x_range.start == x - x % 3,
                    block_x_range.end == block_x_range.start + 3,
                    block_y_range.start == y - y % 3,
                    block_y_range.end == block_y_range.start + 3,
                    x < 9,
                    y < 9,
                    self@ == partial_board(g0, x as int, y as int, num, block_done(x as int, y as int, it_x as int, it_y as int)),
                decreases block_y_range.end - it_y,
            {
                if it_x != x && it_y != y {
                    self.restrict_at(it_x, it_y, num);
                }
                assert(self@ =~~= partial_board(g0, x as int, y as int, num, block_done(x as int, y as int, it_x as int, it_y + 1)));
                it_y = it_y + 1;
            }
            assert(self@ =~~= partial_board(g0, x as int, y as int, num, block_done(x as int, y as int, it_x + 1, 0)));
            it_x = it_x + 1;
        }
        assert(self@ =~~= partial_board(g0, x as int, y as int, num, lines_done(x as int, y as int, 0)));
        let mut i: usize = 0;
        while i < 9
            invariant
                i <= 9,
                x < 9,
                y < 9,
                self@ == partial_board(g0, x as int, y as int, num, lines_done(x as int, y as int, i as int)),
            decreases 9 - i,
        {
            if i != y {
                self.restrict_at(x, i, num);
            }
            if i != x {
                self.restrict_at(i, y, num);
            }
            assert(self@ =~~= partial_board(g0, x as int, y as int, num, lines_done(x as int, y as int, i + 1)));
            i = i + 1;
        }
        assert(self@ =~~= collapse_model(g0, x as int, y as int, num));
        col
    }

    /// The most constrained undetermined cell, as `(row, column, count)`; when no
    /// cell has more than one candidate, `(0, 0, usize::MAX)`.
    pub fn get_least_amount_of_possibilities(&self) -> (r: (usize, usize, usize))
        ensures
            r.2 == usize::MAX <==> all_settled(self@),
            r.2 == usize::MAX ==> r.0 == 0 && r.1 == 0,
            r.2 != usize::MAX ==> is_least(self@, r.0 as int, r.1 as int) && r.2 == self@[r.0 as int][r.1 as int].len(),
    {
        let ghost g = self@;
        let mut least: (usize, usize, usize) = (0, 0, usize::MAX);
        let mut x: usize = 0;
        while x < 9
            invariant
                x <= 9,
                g == self@,
                least.2 == usize::MAX ==> least.0 == 0 && least.1 == 0 && forall|r: int, c: int|
                    in_grid(r, c) && r < x ==> !#[trigger] undetermined(g, r, c),
                least.2 != usize::MAX ==> {
                    &&& in_grid(least.0 as int, least.1 as int)
                    &&& least.0 < x
                    &&& undetermined(g, least.0 as int, least.1 as int)
                    &&& least.2 == g[least.0 as int][least.1 as int].len()
                    &&& forall|r: int, c: int|
                        in_grid(r, c) && r < x && #[trigger] undetermined(g, r, c) ==> least.2 <= g[r][c].len()
                            && (before(r, c, least.0 as int, least.1 as int) ==> least.2 < g[r][c].len())
                },
            decreases 9 - x,
        {
            let mut y: usize = 0;
            while y < 9
                invariant
                    x < 9,
                    y <= 9,
                    g == self@,
                    least.2 == usize::MAX ==> least.0 == 0 && least.1 == 0 && forall|r: int, c: int|
                        in_grid(r, c) && before(r, c, x as int, y as int) ==> !#[trigger] undetermined(g, r, c),
                    least.2 != usize::MAX ==> {
                        &&& in_grid(least.0 as int, least.1 as int)
                        &&& before(least.0 as int, least.1 as int, x as int, y as int)
                        &&& undetermined(g, least.0 as int, least.1 as int)
                        &&& least.2 == g[least.0 as int][least.1 as int].len()
                        &&& forall|r: int, c: int|
                            in_grid(r, c) && before(r, c, x as int, y as int) && #[trigger] undetermined(g, r, c)
                                ==> least.2 <= g[r][c].len()
                                && (before(r, c, least.0 as int, least.1 as int) ==> least.2 < g[r][c].len())
                    },
                decreases 9 - y,
            {
                let left = self.cells[x][y].possibilities_left();
                assert(left == g[x as int][y as int].len());
                if left < least.2 && left > 1 {
                    least = (x, y, left);
                }
                y = y + 1;
            }
            x = x + 1;
        }
        least
    }

    /// Runs the propagation loop until no cell has more than one candidate: each
    /// round fixes the most constrained undetermined cell to its lowest candidate.
    pub fn solve(&mut self)
        ensures
            final(self)@ == steps(old(self)@, 81),
            all_settled(final(self)@),
    {
        let ghost g0 = self@;
        let ghost mut k: nat = 0;
        proof {
            lemma_count_bounded(g0, 81);
        }
        let mut cell = self.get_least_amount_of_possibilities();
        while cell.2 != usize::MAX
            invariant
                self@ == steps(g0, k),
                k + undetermined_count(self@) <= undetermined_count(g0),
                undetermined_count(g0) <= 81,
                cell.2 == usize::MAX <==> all_settled(self@),
                cell.2 != usize::MAX ==> is_least(self@, cell.0 as int, cell.1 as int),
            decreases undetermined_count(self@),
        {
            let ghost g = self@;
            let v = self.cells[cell.0][cell.1].lowest().unwrap();
            self.collapse_block(cell.0, cell.1, v);
            proof {
                lemma_least_unique(g, cell.0 as int, cell.1 as int);
                lemma_lowest_unique(g[cell.0 as int][cell.1 as int], v);
                lemma_collapse_progress(g, cell.0 as int, cell.1 as int, v);
                k = k + 1;
            }
            cell = self.get_least_amount_of_possibilities();
        }
        proof {
            lemma_steps_stable(g0, k, 81);
        }
    }

    /// The grid as text: nine lines of nine cells, a `'|'` after every third
    /// column and a line of dashes after every third row.
    pub fn render(&self) -> (r: String)
        ensures
            r@ == board_text(self@, 9),
    {
        let ghost g = self@;
        let mut out = String::new();
        let mut x: usize = 0;
        while x < 9
            invariant
                x <= 9,
                g == self@,
                out@ == board_text(g, x as int),
            decreases 9 - x,
        {
            let mut y: usize = 0;
            while y < 9
                invariant
                    x < 9,
                    y <= 9,
                    g == self@,
                    out@ == board_text(g, x as int) + row_cells_text(g, x as int, y as int),
                decreases 9 - y,
            {
                let ch = self.cells[x][y].symbol();
                out.append(padded(ch));
                if (y + 1) % 3 == 0 {
                    proof { reveal_strlit("|"); }
                    out.append("|");
                }
                assert(out@ =~= board_text(g, x as int) + row_cells_text(g, x as int, y + 1));
                y = y + 1;
            }
            proof { reveal_strlit("\n"); }
            out.append("\n");
            if (x + 1) % 3 == 0 {
                proof { reveal_strlit("-----------------------------\n"); }
                out.append("-----------------------------\n");
            }
            assert(out@ =~= board_text(g, x + 1));
            x = x + 1;
        }
        out
    }

    /// The cell at `(r, c)`.
    pub fn cell(&self, r: usize, c: usize) -> (res: Cell)
        requires
            r < 9,
            c < 9,
        ensures
            res@ == self@[r as int][c as int],
    {
        self.cells[r][c]
    }

    /// Rules `num` out of the cell at `(r, c)` alone, without touching its peers.
    pub fn restrict_at(&mut self, r: usize, c: usize, num: u8)
        requires
            r < 9,
            c < 9,
        ensures
            final(self)@ == old(self)@.update(
                r as int,
                old(self)@[r as int].update(c as int, old(self)@[r as int][c as int].remove(num)),
            ),
    {
        let mut row = self.cells[r];
        let mut cell = row[c];
        cell.restrict(num);
        row[c] = cell;
        self.cells[r] = row;
        assert(self@ =~~= old(self)@.update(
            r as int,
            old(self)@[r as int].update(c as int, old(self)@[r as int][c as int].remove(num)),
        ));
    }

    fn collapse_at(&mut self, r: usize, c: usize, num: u8) -> (d: CellPossibilities)
        requires
            r < 9,
            c < 9,
            is_digit(num),
        ensures
            final(self)@ == old(self)@.update(r as int, old(self)@[r as int].update(c as int, set![num])),
            d@ == old(self)@[r as int][c as int].remove(num),
    {
        let mut row = self.cells[r];
        let mut cell = row[c];
        let d = cell.collapse(num);
        row[c] = cell;
        self.cells[r] = row;
        assert(self@ =~~= old(self)@.update(r as int, old(self)@[r as int].update(c as int, set![num])));
        d
    }
}

} // verus!
