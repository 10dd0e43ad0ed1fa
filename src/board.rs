use vstd::prelude::*;

use crate::grid::{
    agrees_with, cells_in_range, col_of, is_solution_of, is_solved, lemma_solution_of_placed,
    lemma_solution_value_valid, lex_le, peers, row_of, same_box, solve_outcome, valid_at,
};
use crate::render::{board_text, push_char, push_divider, push_sep, row_lead, row_text, to_char};
use crate::symbols::{all_cell_symbols, only_cell_symbols, parse_cells, symbol_value};

verus! {

/// A 9x9 sudoku board, row-major, 0 for an empty cell.
#[derive(Debug, PartialEq, Eq)]
pub struct Board {
    grid: Vec<u8>,
}

/// Why a board could not be built from text.
#[derive(Debug, Clone, Copy, PartialEq, Eq, Structural)]
pub enum BoardError {
    /// The text does not hold exactly 81 characters.
    LengthMismatch,
    /// The text holds a character other than a digit, '.', '_' or ' '.
    InvalidCharacter,
}

impl BoardError {
    /// A sentence that says what is wrong with the text.
    pub fn message(&self) -> (r: &'static str)
        ensures
            *self == BoardError::LengthMismatch ==> r@ == "string must be exactly 81 characters"@,
            *self == BoardError::InvalidCharacter ==> r@
                == "string must contain only digits (and _, ' ', or . for zero, empty)"@,
    {
        match self {
            BoardError::LengthMismatch => "string must be exactly 81 characters",
            BoardError::InvalidCharacter => "string must contain only digits (and _, ' ', or . for zero, empty)",
        }
    }
}

impl View for Board {
    type V = Seq<u8>;

    closed spec fn view(&self) -> Seq<u8> {
        self.grid@
    }
}

impl Board {
    /// Builds a board from 81 cell symbols in row-major order: a digit is
    /// that value, and '0', '.', '_' or ' ' is an empty cell.
    pub fn new(s: String) -> (r: Result<Board, BoardError>)
        ensures
            s@.len() != 81 ==> r == Err::<Board, BoardError>(BoardError::LengthMismatch),
            s@.len() == 81 && !all_cell_symbols(s@) ==> r == Err::<Board, BoardError>(
                BoardError::InvalidCharacter,
            ),
            s@.len() == 81 && all_cell_symbols(s@) ==> r is Ok,
            r matches Ok(b) ==> b.wf() && b@ == parse_cells(s@),
    {
        let text = s.as_str();
        if text.unicode_len() != 81 {
            return Err(BoardError::LengthMismatch);
        }
        if !only_cell_symbols(text) {
            return Err(BoardError::InvalidCharacter);
        }
        let mut grid: Vec<u8> = Vec::new();
        let mut i: usize = 0;
        while i < 81
            invariant
                text@ == s@,
                s@.len() == 81,
                all_cell_symbols(s@),
                i <= 81,
                grid@ == parse_cells(s@).subrange(0, i as int),
            decreases 81 - i,
        {
            let c = text.get_char(i);
            let v = symbol_value(c);
            grid.push(v);
            i = i + 1;
        }
        assert(grid@ =~= parse_cells(s@));
        Ok(Board { grid })
    }

    /// The board holds 81 cells, each from 0 to 9.
    pub open spec fn wf(&self) -> bool {
        cells_in_range(self@)
    }

    /// Whether `n` may stand at position `p`: no other cell of its row,
    /// column or box holds `n`.
    pub fn valid(&self, p: usize, n: u8) -> (r: bool)
        requires
            self.wf(),
            p < 81,
        ensures
            r == valid_at(self@, p as int, n),
    {
        let ghost g = self@;
        let x: usize = p % 9;
        let y: usize = p / 9;
        // Check the row and the column, leaving out the position itself.
        let mut i: usize = 0;
        while i < 9
            invariant
                self.wf(),
                g == self@,
                p < 81,
                x == col_of(p as int),
                y == row_of(p as int),
                i <= 9,
                forall|q: int|
                    0 <= q < 81 && q != p && row_of(q) == y && col_of(q) < i ==> #[trigger] g[q]
                        != n,
                forall|q: int|
                    0 <= q < 81 && q != p && col_of(q) == x && row_of(q) < i ==> #[trigger] g[q]
                        != n,
            decreases 9 - i,
        {
            if i != x && self.grid[y * 9 + i] == n {
                assert(peers(p as int, (y * 9 + i) as int));
                return false;
            }
            if i != y && self.grid[i * 9 + x] == n {
                assert(peers(p as int, (i * 9 + x) as int));
                return false;
            }
            proof {
                assert forall|q: int|
                    0 <= q < 81 && q != p && row_of(q) == y && col_of(q) < i + 1 implies #[trigger] g[q]
                    != n by {
                    if col_of(q) == i {
                        assert(q == y * 9 + i);
                    }
                }
                assert forall|q: int|
                    0 <= q < 81 && q != p && col_of(q) == x && row_of(q) < i + 1 implies #[trigger] g[q]
                    != n by {
                    if row_of(q) == i {
                        assert(q == i * 9 + x);
                    }
                }
            }
            i = i + 1;
        }
        // Check the containing box.
        let x0: usize = (x / 3) * 3;
        let y0: usize = (y / 3) * 3;
        let mut dx: usize = 0;
        while dx < 3
            invariant
                self.wf(),
                g == self@,
                p < 81,
                x == col_of(p as int),
                y == row_of(p as int),
                x0 == (x / 3) * 3,
                y0 == (y / 3) * 3,
                dx <= 3,
                forall|q: int|
                    0 <= q < 81 && q != p && row_of(q) == y ==> #[trigger] g[q] != n,
                forall|q: int|
                    0 <= q < 81 && q != p && col_of(q) == x ==> #[trigger] g[q] != n,
                forall|q: int|
                    0 <= q < 81 && q != p && same_box(p as int, q) && col_of(q) < x0 + dx
                        ==> #[trigger] g[q] != n,
            decreases 3 - dx,
        {
            let mut dy: usize = 0;
            while dy < 3
                invariant
                    self.wf(),
                    g == self@,
                    p < 81,
                    x == col_of(p as int),
                    y == row_of(p as int),
                    x0 == (x / 3) * 3,
                    y0 == (y / 3) * 3,
                    dx < 3,
                    dy <= 3,
                    forall|q: int|
                        0 <= q < 81 && q != p && row_of(q) == y ==> #[trigger] g[q] != n,
                    forall|q: int|
                        0 <= q < 81 && q != p && col_of(q) == x ==> #[trigger] g[q] != n,
                    forall|q: int|
                        0 <= q < 81 && q != p && same_box(p as int, q) && col_of(q) < x0 + dx
                            ==> #[trigger] g[q] != n,
                    forall|q: int|
                        0 <= q < 81 && q != p && col_of(q) == x0 + dx && row_of(q) >= y0
                            && row_of(q) < y0 + dy ==> #[trigger] g[q] != n,
                decreases 3 - dy,
            {
                // Leave out the position being checked.
                if !((y0 + dy) == y && (x0 + dx) == x) {
                    if self.grid[(y0 + dy) * 9 + x0 + dx] == n {
                        assert(peers(p as int, ((y0 + dy) * 9 + x0 + dx) as int));
                        return false;
                    }
                }
                proof {
                    assert forall|q: int|
                        0 <= q < 81 && q != p && col_of(q) == x0 + dx && row_of(q) >= y0
                            && row_of(q) < y0 + dy + 1 implies #[trigger] g[q] != n by {
                        if row_of(q) == y0 + dy {
                            assert(q == (y0 + dy) * 9 + x0 + dx);
                        }
                    }
                }
                dy = dy + 1;
            }
            assert forall|q: int|
                0 <= q < 81 && q != p && same_box(p as int, q) && col_of(q) < x0 + dx + 1
                    implies #[trigger] g[q] != n by {
                if col_of(q) == x0 + dx {
                    assert(y0 <= row_of(q) < y0 + 3);
                }
            }
            dx = dx + 1;
        }
        assert forall|q: int| 0 <= q < 81 && #[trigger] peers(p as int, q) implies g[q] != n by {
            if same_box(p as int, q) {
                assert(col_of(q) < x0 + 3);
            }
        }
        true
    }

    /// Whether every cell is filled and clashes with no peer.
    pub fn solved(&self) -> (r: bool)
        requires
            self.wf(),
        ensures
            r == is_solved(self@),
    {
        let mut p: usize = 0;
        while p < 81
            invariant
                self.wf(),
                p <= 81,
                forall|i: int| 0 <= i < p ==> #[trigger] self@[i] != 0 && valid_at(self@, i, self@[i]),
            decreases 81 - p,
        {
            let n = self.grid[p];
            if n == 0 || !self.valid(p, n) {
                return false;
            }
            p = p + 1;
        }
        true
    }

    /// The first empty position at or after `p`, or 81 when there is none.
    pub fn next_unsolved(&self, p: usize) -> (r: usize)
        requires
            self.wf(),
        ensures
            r == 81 || p <= r,
            p >= 81 ==> r == 81,
            r <= 81,
            r < 81 ==> self@[r as int] == 0,
            forall|i: int| p <= i < r ==> #[trigger] self@[i] != 0,
    {
        let mut i: usize = p;
        while i < 81
            invariant
                self.wf(),
                p <= i,
                forall|j: int| p <= j < i && j < 81 ==> #[trigger] self@[j] != 0,
            decreases 81 - i,
        {
            if self.grid[i] == 0 {
                return i;
            }
            i = i + 1;
        }
        81
    }

    /// Depth-first search from the empty position `p` (81: none is left).
    /// Every position before `p` is filled. Candidates are tried in
    /// ascending order, so the solution found is the first of all in
    /// row-major lexicographic order; on failure the board is left as it was.
    pub fn solve_helper(&mut self, p: usize) -> (r: bool)
        requires
            old(self).wf(),
            p <= 81,
            p < 81 ==> old(self)@[p as int] == 0,
            forall|i: int| 0 <= i < p ==> #[trigger] old(self)@[i] != 0,
        ensures
            final(self).wf(),
            r ==> is_solution_of(old(self)@, final(self)@),
            r ==> forall|s: Seq<u8>|
                is_solution_of(old(self)@, s) ==> #[trigger] lex_le(final(self)@, s),
            !r ==> final(self)@ == old(self)@,
            !r ==> forall|s: Seq<u8>| !#[trigger] is_solution_of(old(self)@, s),
        decreases 81 - p,
    {
        let ghost g0 = self@;
        // Every position is filled: the board is its own only candidate.
        if p == 81 {
            proof {
                assert forall|s: Seq<u8>| #[trigger] is_solution_of(g0, s) implies s == g0 by {
                    assert(s =~= g0);
                }
            }
            return self.solved();
        }
        let mut n: u8 = 1;
        while n < 10
            invariant
                self.wf(),
                1 <= n <= 10,
                p < 81,
                g0 == old(self)@,
                cells_in_range(g0),
                g0[p as int] == 0,
                forall|i: int| 0 <= i < p ==> #[trigger] g0[i] != 0,
                forall|i: int| 0 <= i < 81 && i != p ==> #[trigger] self@[i] == g0[i],
                forall|s: Seq<u8>| #[trigger] is_solution_of(g0, s) ==> n <= s[p as int],
            decreases 10 - n,
        {
            let ghost before = self@;
            let ok = self.valid(p, n);
            if ok {
                self.grid.set(p, n);
                let ghost g1 = self@;
                assert(g1 =~= g0.update(p as int, n));
                let next = self.next_unsolved(p + 1);
                if self.solve_helper(next) {
                    proof {
                        let fin = self@;
                        assert(agrees_with(g0, fin)) by {
                            assert forall|i: int| 0 <= i < 81 && g0[i] != 0 implies #[trigger] fin[i]
                                == g0[i] by {
                                assert(g1[i] == g0[i]);
                            }
                        }
                        assert forall|s: Seq<u8>| is_solution_of(g0, s) implies #[trigger] lex_le(
                            fin,
                            s,
                        ) by {
                            if s[p as int] == n {
                                lemma_solution_of_placed(g0, s, p as int, n);
                            } else {
                                assert forall|i: int|
                                    0 <= i < 81 && #[trigger] fin[i] != s[i] && (forall|j: int|
                                        0 <= j < i ==> fin[j] == s[j]) implies fin[i] < s[i] by {
                                    if i < p {
                                        assert(g0[i] != 0);
                                        assert(g1[i] == g0[i]);
                                    } else if i > p {
                                        assert(fin[p as int] == s[p as int]);
                                    }
                                }
                            }
                        }
                    }
                    return true;
                }
            }
            proof {
                assert forall|s: Seq<u8>| #[trigger] is_solution_of(g0, s) implies n + 1 <= s[p
                    as int] by {
                    if s[p as int] == n {
                        lemma_solution_value_valid(g0, s, p as int);
                        if !ok {
                            assert forall|q: int| 0 <= q < 81 && #[trigger] peers(p as int, q)
                                implies before[q] != n by {
                                assert(before[q] == g0[q]);
                            }
                        } else {
                            lemma_solution_of_placed(g0, s, p as int, n);
                        }
                    }
                }
            }
            n = n + 1;
        }
        // No candidate leads to a solution: empty the position again.
        self.grid.set(p, 0);
        assert(self@ =~= g0);
        false
    }

    /// Solves the board in place. On success the board holds the first
    /// solution, in row-major lexicographic order, that keeps every clue;
    /// on failure none exists and the board is unchanged.
    pub fn solve(&mut self) -> (r: bool)
        requires
            old(self).wf(),
        ensures
            final(self).wf(),
            solve_outcome(old(self)@, r, final(self)@),
    {
        let p = self.next_unsolved(0);
        self.solve_helper(p)
    }

    /// The board as nine lines of digits, with ` | ` between boxes and a
    /// divider line between bands of three rows.
    pub fn to_string(&self) -> (r: String)
        requires
            self.wf(),
        ensures
            r@ == board_text(self@, 9),
    {
        let mut out = String::new();
        let mut y: usize = 0;
        while y < 9
            invariant
                self.wf(),
                y <= 9,
                out@ == board_text(self@, y as int),
            decreases 9 - y,
        {
            if y % 3 == 0 && y != 0 {
                push_divider(&mut out);
            }
            assert(out@ == board_text(self@, y as int) + row_lead(y as int));
            let ghost lead = out@;
            let mut c: usize = 0;
            while c < 9
                invariant
                    self.wf(),
                    y < 9,
                    c <= 9,
                    out@ == lead + row_text(self@, y as int, c as int),
                decreases 9 - c,
            {
                push_char(&mut out, to_char(self.grid[y * 9 + c]));
                push_sep(&mut out, c);
                assert(out@ =~= lead + row_text(self@, y as int, c + 1));
                c = c + 1;
            }
            y = y + 1;
        }
        out
    }

    /// The cells, row-major, 0 for an empty cell.
    pub fn grid(&self) -> (r: &Vec<u8>)
        ensures
            r@ == self@,
    {
        &self.grid
    }
}

} // verus!
