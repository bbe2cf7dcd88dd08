//! The value of a block string (`"""..."""`), by GraphQL's BlockStringValue
//! algorithm: line terminators are normalised, the common indentation of
//! all lines but the first is removed, and leading and trailing blank lines
//! are dropped.
//!
//! White space here is the space and the horizontal tab: indentation is the
//! number of them that a line starts with, and a blank line holds nothing
//! else.

use vstd::prelude::*;


verus! {

/// `\r\n` and lone `\r` become `\n`.
pub open spec fn normalize_newlines(s: Seq<char>) -> Seq<char>
    decreases s.len(),
{
    if s.len() == 0 {
        seq![]
    } else if s[0] == '\r' && s.len() >= 2 && s[1] == '\n' {
        seq!['\n'] + normalize_newlines(s.skip(2))
    } else if s[0] == '\r' {
        seq!['\n'] + normalize_newlines(s.skip(1))
    } else {
        seq![s[0]] + normalize_newlines(s.skip(1))
    }
}

/// The pieces of `s` between `\n` characters (`str::split('\n')`).
pub open spec fn split_lines(s: Seq<char>) -> Seq<Seq<char>>
    decreases s.len(),
{
    if s.len() == 0 {
        seq![seq![]]
    } else {
        let prev = split_lines(s.drop_last());
        if s.last() == '\n' {
            prev.push(seq![])
        } else {
            prev.update(prev.len() - 1, prev.last().push(s.last()))
        }
    }
}

/// GraphQL's white space: a space or a horizontal tab.
pub open spec fn is_white_space(c: char) -> bool {
    c == ' ' || c == '\t'
}

/// Number of white-space characters that `line` starts with.
pub open spec fn space_prefix_len(line: Seq<char>) -> nat
    decreases line.len(),
{
    if line.len() == 0 {
        0
    } else if is_white_space(line[0]) {
        1 + space_prefix_len(line.skip(1))
    } else {
        0
    }
}

/// `line` consists of white space only.
pub open spec fn is_blank(line: Seq<char>) -> bool {
    forall|i: int| 0 <= i < line.len() ==> is_white_space(#[trigger] line[i])
}

/// The smallest indentation among the non-blank lines `lines[1..k]`.
pub open spec fn common_indent_upto(lines: Seq<Seq<char>>, k: nat) -> Option<nat>
    decreases k,
{
    if k <= 1 {
        None
    } else {
        let prev = common_indent_upto(lines, (k - 1) as nat);
        let line = lines[k - 1];
        if space_prefix_len(line) < line.len() {
            let ind = space_prefix_len(line);
            match prev {
                None => Some(ind),
                Some(c) => Some(if ind < c {
                    ind
                } else {
                    c
                }),
            }
        } else {
            prev
        }
    }
}

/// The common indentation of the lines after the first (0 if every one of
/// them is blank).
pub open spec fn common_indent(lines: Seq<Seq<char>>) -> nat {
    match common_indent_upto(lines, lines.len()) {
        None => 0,
        Some(c) => c,
    }
}

pub open spec fn min_nat(a: nat, b: nat) -> nat {
    if a < b {
        a
    } else {
        b
    }
}

/// Line `i` with the common indentation `common` removed (the first line is
/// kept as it is).
pub open spec fn dedent_line(line: Seq<char>, i: int, common: nat) -> Seq<char> {
    if i == 0 {
        line
    } else {
        line.skip(min_nat(common, line.len()) as int)
    }
}

/// The lines with the common indentation removed.
pub open spec fn dedented_lines(raw: Seq<char>) -> Seq<Seq<char>> {
    let lines = split_lines(normalize_newlines(raw));
    let common = common_indent(lines);
    Seq::new(lines.len(), |i: int| dedent_line(lines[i], i, common))
}

/// Number of blank lines at the front of `lines`.
pub open spec fn leading_blank(lines: Seq<Seq<char>>) -> nat
    decreases lines.len(),
{
    if lines.len() > 0 && is_blank(lines[0]) {
        1 + leading_blank(lines.skip(1))
    } else {
        0
    }
}

/// Number of blank lines at the back of `lines`.
pub open spec fn trailing_blank(lines: Seq<Seq<char>>) -> nat
    decreases lines.len(),
{
    if lines.len() > 0 && is_blank(lines.last()) {
        1 + trailing_blank(lines.drop_last())
    } else {
        0
    }
}

/// `lines` without blank lines at the front and at the back.
pub open spec fn strip_blank_lines(lines: Seq<Seq<char>>) -> Seq<Seq<char>> {
    let front = lines.skip(leading_blank(lines) as int);
    front.take(front.len() - trailing_blank(front))
}

/// The lines joined with `\n`.
pub open spec fn join_lines(lines: Seq<Seq<char>>) -> Seq<char>
    decreases lines.len(),
{
    if lines.len() == 0 {
        seq![]
    } else if lines.len() == 1 {
        lines[0]
    } else {
        join_lines(lines.drop_last()) + seq!['\n'] + lines.last()
    }
}

/// The value of a block string whose raw text (between the quotes) is `raw`.
pub open spec fn dedent(raw: Seq<char>) -> Seq<char> {
    join_lines(strip_blank_lines(dedented_lines(raw)))
}

} // verus!
