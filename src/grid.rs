use vstd::prelude::*;
use vstd::set_lib::{lemma_int_range, lemma_map_size, lemma_subset_equality, set_int_range};

verus! {

/// Row of a linear cell position.
pub open spec fn row_of(p: int) -> int {
    p / 9
}

/// Column of a linear cell position.
pub open spec fn col_of(p: int) -> int {
    p % 9
}

/// Two linear cell positions lie in the same 3x3 box.
pub open spec fn same_box(p: int, q: int) -> bool {
    row_of(p) / 3 == row_of(q) / 3 && col_of(p) / 3 == col_of(q) / 3
}

/// Two distinct cells that share a row, a column or a box.
pub open spec fn peers(p: int, q: int) -> bool {
    p != q && (row_of(p) == row_of(q) || col_of(p) == col_of(q) || same_box(p, q))
}

/// Placing `n` at `p` clashes with no peer of `p`; the cell `p` itself is ignored.
pub open spec fn valid_at(g: Seq<u8>, p: int, n: u8) -> bool {
    forall|q: int| 0 <= q < 81 && #[trigger] peers(p, q) ==> g[q] != n
}

/// Every cell holds a value from 0 (empty) to 9.
pub open spec fn cells_in_range(g: Seq<u8>) -> bool {
    g.len() == 81 && forall|i: int| 0 <= i < 81 ==> #[trigger] g[i] <= 9
}

/// Every cell is filled and no cell clashes with a peer.
pub open spec fn is_solved(g: Seq<u8>) -> bool {
    g.len() == 81 && forall|p: int| 0 <= p < 81 ==> #[trigger] g[p] != 0 && valid_at(g, p, g[p])
}

/// `s` keeps every clue (non-zero cell) of `g`.
pub open spec fn agrees_with(g: Seq<u8>, s: Seq<u8>) -> bool {
    s.len() == 81 && forall|i: int| 0 <= i < 81 && g[i] != 0 ==> #[trigger] s[i] == g[i]
}

/// `s` is a complete, consistent board that keeps the clues of `g`.
pub open spec fn is_solution_of(g: Seq<u8>, s: Seq<u8>) -> bool {
    cells_in_range(s) && is_solved(s) && agrees_with(g, s)
}

/// `a` comes no later than `b` in row-major lexicographic order: at the
/// first cell where they differ, `a` holds the smaller value.
pub open spec fn lex_le(a: Seq<u8>, b: Seq<u8>) -> bool {
    forall|i: int|
        0 <= i < 81 && #[trigger] a[i] != b[i] && (forall|j: int| 0 <= j < i ==> a[j] == b[j])
            ==> a[i] < b[i]
}

/// Two boards of 81 cells that agree below `k` and differ somewhere have a
/// first cell of difference at or after `k`.
proof fn lemma_first_difference(a: Seq<u8>, b: Seq<u8>, k: int) -> (i: int)
    requires
        a.len() == 81,
        b.len() == 81,
        a != b,
        0 <= k <= 81,
        forall|j: int| 0 <= j < k ==> a[j] == b[j],
    ensures
        k <= i < 81,
        a[i] != b[i],
        forall|j: int| 0 <= j < i ==> a[j] == b[j],
    decreases 81 - k,
{
    if k == 81 {
        assert(a =~= b);
        0
    } else if a[k] != b[k] {
        k
    } else {
        lemma_first_difference(a, b, k + 1)
    }
}

/// There is at most one solution that comes first in lexicographic order:
/// two solutions of the same puzzle, each no later than every solution,
/// are the same board.
pub proof fn lemma_first_solution_unique(g: Seq<u8>, r1: Seq<u8>, r2: Seq<u8>)
    requires
        is_solution_of(g, r1),
        is_solution_of(g, r2),
        forall|s: Seq<u8>| is_solution_of(g, s) ==> lex_le(r1, s),
        forall|s: Seq<u8>| is_solution_of(g, s) ==> lex_le(r2, s),
    ensures
        r1 == r2,
{
    if r1 != r2 {
        let i = lemma_first_difference(r1, r2, 0);
        assert(lex_le(r1, r2));
        assert(lex_le(r2, r1));
        assert(r2[i] != r1[i]);
        assert forall|j: int| 0 <= j < i implies r2[j] == r1[j] by {}
    }
}

/// The value that a solution holds at a cell may be placed there on any board
/// whose clues the solution keeps.
pub proof fn lemma_solution_value_valid(g: Seq<u8>, s: Seq<u8>, p: int)
    requires
        cells_in_range(g),
        is_solution_of(g, s),
        0 <= p < 81,
    ensures
        valid_at(g, p, s[p]),
{
    assert(s[p] != 0 && valid_at(s, p, s[p]));
    assert forall|q: int| 0 <= q < 81 && #[trigger] peers(p, q) implies g[q] != s[p] by {
        if g[q] != 0 {
            assert(s[q] == g[q]);
        }
    }
}

/// Placing a value at a cell keeps every solution whose value there it is.
pub proof fn lemma_solution_of_placed(g: Seq<u8>, s: Seq<u8>, p: int, n: u8)
    requires
        g.len() == 81,
        0 <= p < 81,
        is_solution_of(g, s),
        s[p] == n,
    ensures
        is_solution_of(g.update(p, n), s),
{
    let h = g.update(p, n);
    assert forall|i: int| 0 <= i < 81 && h[i] != 0 implies #[trigger] s[i] == h[i] by {
        if i != p {
            assert(s[i] == g[i]);
        }
    }
}

/// What a search on board `g` may end with: either `found`, and `r` is the
/// first solution of `g` in row-major lexicographic order; or not, `g` has no
/// solution and `r` is `g` itself.
pub open spec fn solve_outcome(g: Seq<u8>, found: bool, r: Seq<u8>) -> bool {
    if found {
        is_solution_of(g, r) && forall|s: Seq<u8>| is_solution_of(g, s) ==> #[trigger] lex_le(r, s)
    } else {
        r == g && forall|s: Seq<u8>| !#[trigger] is_solution_of(g, s)
    }
}

/// Solving is deterministic: two searches on the same board agree on whether
/// a solution exists and leave the same board.
pub proof fn lemma_solve_deterministic(
    g: Seq<u8>,
    found1: bool,
    r1: Seq<u8>,
    found2: bool,
    r2: Seq<u8>,
)
    requires
        solve_outcome(g, found1, r1),
        solve_outcome(g, found2, r2),
    ensures
        found1 == found2,
        r1 == r2,
{
    if found1 && found2 {
        lemma_first_solution_unique(g, r1, r2);
    } else if found1 {
        assert(is_solution_of(g, r1));
    } else if found2 {
        assert(is_solution_of(g, r2));
    }
}

/// Some cell of `unit` holds `v`.
pub open spec fn holds_value(g: Seq<u8>, unit: Set<int>, v: int) -> bool {
    exists|q: int| #[trigger] unit.contains(q) && g[q] == v
}

/// Nine cells whose values are distinct digits from 1 to 9 hold every digit.
proof fn lemma_nine_distinct_digits(g: Seq<u8>, unit: Set<int>, v: int)
    requires
        g.len() == 81,
        unit.finite(),
        unit.len() == 9,
        forall|q: int| #[trigger] unit.contains(q) ==> 0 <= q < 81 && 1 <= g[q] <= 9,
        forall|q1: int, q2: int|
            unit.contains(q1) && unit.contains(q2) && q1 != q2 ==> #[trigger] g[q1] != #[trigger] g[q2],
        1 <= v <= 9,
    ensures
        holds_value(g, unit, v),
{
    let f = |q: int| g[q] as int;
    let values = unit.map(f);
    lemma_map_size(unit, values, f);
    lemma_int_range(1, 10);
    assert(values.subset_of(set_int_range(1, 10)));
    lemma_subset_equality(values, set_int_range(1, 10));
    assert(set_int_range(1, 10).contains(v));
    let q = choose|q: int| unit.contains(q) && f(q) == v;
}

/// The cells of the row of `p`.
pub open spec fn row_cells(p: int) -> Set<int> {
    Set::new(|q: int| 0 <= q < 81 && row_of(q) == row_of(p))
}

/// The cells of the column of `p`.
pub open spec fn col_cells(p: int) -> Set<int> {
    Set::new(|q: int| 0 <= q < 81 && col_of(q) == col_of(p))
}

/// The cells of the box of `p`.
pub open spec fn box_cells(p: int) -> Set<int> {
    Set::new(|q: int| 0 <= q < 81 && same_box(p, q))
}

/// A row, a column and a box each hold nine cells.
proof fn lemma_unit_sizes(p: int)
    requires
        0 <= p < 81,
    ensures
        row_cells(p).finite() && row_cells(p).len() == 9,
        col_cells(p).finite() && col_cells(p).len() == 9,
        box_cells(p).finite() && box_cells(p).len() == 9,
{
    let y = row_of(p);
    let x = col_of(p);
    lemma_int_range(y * 9, y * 9 + 9);
    assert(row_cells(p) =~= set_int_range(y * 9, y * 9 + 9));
    lemma_int_range(0, 9);
    let fc = |k: int| k * 9 + x;
    assert forall|q: int| #[trigger] col_cells(p).contains(q) implies set_int_range(0, 9).map(
        fc,
    ).contains(q) by {
        assert(set_int_range(0, 9).contains(row_of(q)));
        assert(fc(row_of(q)) == q);
    }
    assert(col_cells(p) =~= set_int_range(0, 9).map(fc));
    lemma_map_size(set_int_range(0, 9), col_cells(p), fc);
    let x0 = (x / 3) * 3;
    let y0 = (y / 3) * 3;
    let fb = |k: int| (y0 + k / 3) * 9 + x0 + k % 3;
    assert forall|q: int| #[trigger] box_cells(p).contains(q) implies set_int_range(0, 9).map(
        fb,
    ).contains(q) by {
        let k = (row_of(q) - y0) * 3 + (col_of(q) - x0);
        assert(k / 3 == row_of(q) - y0);
        assert(k % 3 == col_of(q) - x0);
        assert(set_int_range(0, 9).contains(k));
        assert(fb(k) == q);
    }
    assert forall|q: int| #[trigger] set_int_range(0, 9).map(fb).contains(q) implies box_cells(
        p,
    ).contains(q) by {
        let k = choose|k: int| set_int_range(0, 9).contains(k) && fb(k) == q;
        assert(row_of(q) == y0 + k / 3);
        assert(col_of(q) == x0 + k % 3);
    }
    assert(box_cells(p) =~= set_int_range(0, 9).map(fb));
    assert forall|k1: int, k2: int|
        set_int_range(0, 9).contains(k1) && set_int_range(0, 9).contains(k2) && #[trigger] fb(k1)
            == #[trigger] fb(k2) implies k1 == k2 by {
        assert(row_of(fb(k1)) == y0 + k1 / 3);
        assert(col_of(fb(k1)) == x0 + k1 % 3);
        assert(row_of(fb(k2)) == y0 + k2 / 3);
        assert(col_of(fb(k2)) == x0 + k2 % 3);
    }
    lemma_map_size(set_int_range(0, 9), box_cells(p), fb);
}

/// On a solved board every row, every column and every box holds each digit
/// from 1 to 9 exactly once: each cell holds a digit, no two cells of a unit
/// hold the same one, and each digit stands somewhere in each unit.
pub proof fn lemma_solved_units_are_permutations(g: Seq<u8>)
    requires
        cells_in_range(g),
        is_solved(g),
    ensures
        forall|p: int| 0 <= p < 81 ==> 1 <= #[trigger] g[p] <= 9,
        forall|p: int, q: int|
            0 <= p < 81 && 0 <= q < 81 && #[trigger] peers(p, q) ==> g[p] != g[q],
        forall|p: int, v: int|
            0 <= p < 81 && 1 <= v <= 9 ==> #[trigger] holds_value(g, row_cells(p), v),
        forall|p: int, v: int|
            0 <= p < 81 && 1 <= v <= 9 ==> #[trigger] holds_value(g, col_cells(p), v),
        forall|p: int, v: int|
            0 <= p < 81 && 1 <= v <= 9 ==> #[trigger] holds_value(g, box_cells(p), v),
{
    assert forall|p: int, q: int|
        0 <= p < 81 && 0 <= q < 81 && #[trigger] peers(p, q) implies g[p] != g[q] by {
        assert(g[p] != 0 && valid_at(g, p, g[p]));
    }
    assert forall|p: int, v: int| 0 <= p < 81 && 1 <= v <= 9 implies holds_value(g, row_cells(p), v)
        && holds_value(g, col_cells(p), v) && holds_value(g, box_cells(p), v) by {
        lemma_unit_sizes(p);
        assert forall|q1: int, q2: int|
            row_cells(p).contains(q1) && row_cells(p).contains(q2) && q1 != q2 implies #[trigger] g[q1]
            != #[trigger] g[q2] by {
            assert(peers(q1, q2));
        }
        lemma_nine_distinct_digits(g, row_cells(p), v);
        assert forall|q1: int, q2: int|
            col_cells(p).contains(q1) && col_cells(p).contains(q2) && q1 != q2 implies #[trigger] g[q1]
            != #[trigger] g[q2] by {
            assert(peers(q1, q2));
        }
        lemma_nine_distinct_digits(g, col_cells(p), v);
        assert forall|q1: int, q2: int|
            box_cells(p).contains(q1) && box_cells(p).contains(q2) && q1 != q2 implies #[trigger] g[q1]
            != #[trigger] g[q2] by {
            assert(peers(q1, q2));
        }
        lemma_nine_distinct_digits(g, box_cells(p), v);
    }
}

/// A search that succeeds leaves a solved board: every cell holds a digit
/// from 1 to 9, no two peers hold the same digit, and each row, column and
/// box holds every digit.
pub proof fn lemma_found_board_is_solved(g: Seq<u8>, r: Seq<u8>)
    requires
        solve_outcome(g, true, r),
    ensures
        is_solved(r),
        forall|p: int| 0 <= p < 81 ==> 1 <= #[trigger] r[p] <= 9,
        forall|p: int, q: int|
            0 <= p < 81 && 0 <= q < 81 && #[trigger] peers(p, q) ==> r[p] != r[q],
        forall|p: int, v: int|
            0 <= p < 81 && 1 <= v <= 9 ==> #[trigger] holds_value(r, row_cells(p), v),
        forall|p: int, v: int|
            0 <= p < 81 && 1 <= v <= 9 ==> #[trigger] holds_value(r, col_cells(p), v),
        forall|p: int, v: int|
            0 <= p < 81 && 1 <= v <= 9 ==> #[trigger] holds_value(r, box_cells(p), v),
{
    lemma_solved_units_are_permutations(r);
}

} // verus!
