use vstd::prelude::*;

verus! {

/// The character of a cell value from 0 to 9.
pub open spec fn digit_char(v: u8) -> char {
    ((v + 48) as u8) as char
}

/// What follows cell `c` of a row: a space, a box border ` | ` after the
/// third and sixth cells, and a line break after the last.
pub open spec fn cell_sep(c: int) -> Seq<char> {
    if c == 8 {
        seq!['\n']
    } else if c == 2 || c == 5 {
        seq![' ', '|', ' ']
    } else {
        seq![' ']
    }
}

/// The line that separates two bands of three rows: `------+-------+------`.
pub open spec fn divider() -> Seq<char> {
    Seq::new(21, |i: int| if i == 6 || i == 14 { '+' } else { '-' }).push('\n')
}

/// The text of the first `c` cells of row `y`.
pub open spec fn row_text(g: Seq<u8>, y: int, c: int) -> Seq<char>
    decreases c,
{
    if c <= 0 {
        Seq::empty()
    } else {
        row_text(g, y, c - 1) + seq![digit_char(g[y * 9 + c - 1])] + cell_sep(c - 1)
    }
}

/// What stands before row `y`: a divider before the fourth and seventh rows.
pub open spec fn row_lead(y: int) -> Seq<char> {
    if y == 3 || y == 6 {
        divider()
    } else {
        Seq::empty()
    }
}

/// The text of the first `y` rows of a board.
pub open spec fn board_text(g: Seq<u8>, y: int) -> Seq<char>
    decreases y,
{
    if y <= 0 {
        Seq::empty()
    } else {
        board_text(g, y - 1) + row_lead(y - 1) + row_text(g, y - 1, 9)
    }
}

/// The character of a cell value from 0 to 9.
pub(crate) fn to_char(v: u8) -> (c: char)
    requires
        v <= 9,
    ensures
        c == digit_char(v),
{
    (v + 48) as char
}

/// Relies on std's String::push: the character is appended at the end.
#[verifier::external_body]
pub(crate) fn push_char(s: &mut String, c: char)
    ensures
        final(s)@ == old(s)@.push(c),
{
    s.push(c)
}

/// Appends the text that follows cell `c` of a row.
pub(crate) fn push_sep(s: &mut String, c: usize)
    requires
        c < 9,
    ensures
        final(s)@ == old(s)@ + cell_sep(c as int),
{
    if c == 8 {
        push_char(s, '\n');
    } else if c == 2 || c == 5 {
        push_char(s, ' ');
        push_char(s, '|');
        push_char(s, ' ');
    } else {
        push_char(s, ' ');
    }
    assert(final(s)@ =~= old(s)@ + cell_sep(c as int));
}

/// Appends the line that separates two bands of rows.
pub(crate) fn push_divider(s: &mut String)
    ensures
        final(s)@ == old(s)@ + divider(),
{
    let ghost start = s@;
    let mut i: usize = 0;
    while i < 21
        invariant
            i <= 21,
            s@ == start + divider().subrange(0, i as int),
        decreases 21 - i,
    {
        if i == 6 || i == 14 {
            push_char(s, '+');
        } else {
            push_char(s, '-');
        }
        assert(s@ =~= start + divider().subrange(0, i + 1));
        i = i + 1;
    }
    push_char(s, '\n');
    assert(s@ =~= start + divider());
}

} // verus!
