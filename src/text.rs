//! The text form of a grid: lines of whitespace-separated tokens, each token
//! standing for one cell by its first character.
use vstd::prelude::*;

verus! {

/// The characters with Unicode's White_Space property.
pub open spec fn is_space(c: char) -> bool {
    ('\u{9}' <= c <= '\u{D}') || c == ' ' || c == '\u{85}' || c == '\u{A0}' || c == '\u{1680}'
        || ('\u{2000}' <= c <= '\u{200A}') || c == '\u{2028}' || c == '\u{2029}' || c
        == '\u{202F}' || c == '\u{205F}' || c == '\u{3000}'
}

/// Position `i` of `line` starts a token.
pub open spec fn starts_token(line: Seq<char>, i: int) -> bool {
    !is_space(line[i]) && (i == 0 || is_space(line[i - 1]))
}

/// The first character of each token among the first `n` characters.
pub open spec fn token_heads(line: Seq<char>, n: int) -> Seq<char>
    decreases n,
{
    if n <= 0 {
        Seq::empty()
    } else if starts_token(line, n - 1) {
        token_heads(line, n - 1).push(line[n - 1])
    } else {
        token_heads(line, n - 1)
    }
}

/// The rows that the first `n` lines give: each line's token heads, lines
/// without tokens left out.
pub open spec fn rows_of_lines(lines: Seq<Seq<char>>, n: int) -> Seq<Seq<char>>
    decreases n,
{
    if n <= 0 {
        Seq::empty()
    } else {
        let heads = token_heads(lines[n - 1], lines[n - 1].len() as int);
        if heads.len() == 0 {
            rows_of_lines(lines, n - 1)
        } else {
            rows_of_lines(lines, n - 1).push(heads)
        }
    }
}

fn is_space_char(c: char) -> (r: bool)
    ensures
        r == is_space(c),
{
    ('\u{9}' <= c && c <= '\u{D}') || c == ' ' || c == '\u{85}' || c == '\u{A0}' || c
        == '\u{1680}' || ('\u{2000}' <= c && c <= '\u{200A}') || c == '\u{2028}' || c
        == '\u{2029}' || c == '\u{202F}' || c == '\u{205F}' || c == '\u{3000}'
}

/// The first character of each whitespace-separated token of `line`.
pub fn token_heads_of(line: &Vec<char>) -> (r: Vec<char>)
    ensures
        r@ == token_heads(line@, line@.len() as int),
{
    let mut out: Vec<char> = Vec::new();
    let mut i: usize = 0;
    while i < line.len()
        invariant
            i <= line@.len(),
            out@ == token_heads(line@, i as int),
        decreases line@.len() - i,
    {
        let c = line[i];
        if !is_space_char(c) && (i == 0 || is_space_char(line[i - 1])) {
            out.push(c);
        }
        i += 1;
    }
    out
}

/// The rows of symbols that lines of text give, for `Sudoku::from_rows`:
/// the token heads of each line, lines without tokens skipped.
pub fn rows_of_text(lines: &Vec<Vec<char>>) -> (r: Vec<Vec<char>>)
    ensures
        r@.map_values(|row: Vec<char>| row@) == rows_of_lines(
            lines@.map_values(|l: Vec<char>| l@),
            lines@.len() as int,
        ),
{
    let ghost ls = lines@.map_values(|l: Vec<char>| l@);
    let mut out: Vec<Vec<char>> = Vec::new();
    let mut k: usize = 0;
    while k < lines.len()
        invariant
            k <= lines@.len(),
            ls == lines@.map_values(|l: Vec<char>| l@),
            out@.map_values(|row: Vec<char>| row@) == rows_of_lines(ls, k as int),
        decreases lines@.len() - k,
    {
        let heads = token_heads_of(&lines[k]);
        assert(ls[k as int] == lines@[k as int]@);
        let ghost before = out@.map_values(|row: Vec<char>| row@);
        if heads.len() != 0 {
            out.push(heads);
            assert(out@.map_values(|row: Vec<char>| row@) =~= before.push(heads@));
        }
        k += 1;
    }
    out
}

} // verus!
