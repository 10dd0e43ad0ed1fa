use vstd::prelude::*;

verus! {

/// The anchored pattern of a text made of cell symbols only.
pub const CELL_PATTERN: &'static str = "^[ 0-9._]*$";

/// A decimal digit character.
pub open spec fn is_digit_symbol(c: char) -> bool {
    '0' as u32 <= c as u32 && c as u32 <= '9' as u32
}

/// A character that marks an empty cell.
pub open spec fn is_blank_symbol(c: char) -> bool {
    c == '.' || c == '_' || c == ' '
}

/// A character that may stand for a cell.
pub open spec fn is_cell_symbol(c: char) -> bool {
    is_digit_symbol(c) || is_blank_symbol(c)
}

/// Every character of `s` stands for a cell.
pub open spec fn all_cell_symbols(s: Seq<char>) -> bool {
    forall|i: int| 0 <= i < s.len() ==> #[trigger] is_cell_symbol(s[i])
}

/// The value of a cell symbol: its digit, or 0 for a blank.
pub open spec fn cell_value(c: char) -> u8 {
    if is_digit_symbol(c) {
        (c as u32 - '0' as u32) as u8
    } else {
        0
    }
}

/// The cells that a text of cell symbols stands for.
pub open spec fn parse_cells(s: Seq<char>) -> Seq<u8> {
    Seq::new(s.len(), |i: int| cell_value(s[i]))
}

/// Relies on regex::Regex::new and regex::Regex::is_match: the anchored
/// pattern `^[ 0-9._]*$` compiles, and matches a text exactly when each of its
/// characters is an ASCII digit, '.', '_' or a space.
#[verifier::external_body]
fn matches_pattern(pattern: &str, s: &str) -> (r: bool)
    requires
        pattern@ == CELL_PATTERN@,
    ensures
        r == all_cell_symbols(s@),
{
    match regex::Regex::new(pattern) {
        Ok(re) => re.is_match(s),
        Err(_) => false,
    }
}

/// Whether every character of `s` stands for a cell.
pub fn only_cell_symbols(s: &str) -> (r: bool)
    ensures
        r == all_cell_symbols(s@),
{
    matches_pattern(CELL_PATTERN, s)
}

/// The value of a cell symbol: its digit, or 0 for a blank.
pub fn symbol_value(c: char) -> (r: u8)
    requires
        is_cell_symbol(c),
    ensures
        r == cell_value(c),
        r <= 9,
{
    if '0' <= c && c <= '9' {
        (c as u32 - '0' as u32) as u8
    } else {
        0
    }
}

} // verus!
