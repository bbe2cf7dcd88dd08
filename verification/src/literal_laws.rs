//! What literals stand for: the keywords `true`, `false` and `null` in
//! value position, the escapes of quoted strings, and the indentation that
//! block strings lose.

use vstd::prelude::*;

use crate::ast::SpecValue;
use crate::block_spec::{
    common_indent, common_indent_upto, is_blank, join_lines, leading_blank, normalize_newlines,
    space_prefix_len, split_lines, strip_blank_lines, trailing_blank,
};
use crate::block_string::lemma_blank_prefix;
use crate::ast::OperationType;
use crate::lex_spec::{
    char_at_is, is_line_end, is_scalar_value, lex_number, lex_string_body, lex_token_at,
    scan_digits,
};
use crate::parse_spec::{bump, digits_value, kind_at, operation_keyword, p_value};
use vstd::arithmetic::power::pow;
use crate::text::{hex_value, is_digit};
use crate::token::{SpecToken, SpecTokenKind};

verus! {

// ---------------------------------------------------------------------
// Keywords in value position
// ---------------------------------------------------------------------

/// In value position the name `true` is the boolean true, `false` the
/// boolean false, `null` the null value, and any other name an enum value
/// of that name; each takes up its one token.
pub proof fn law_keyword_values(t: Seq<SpecToken>, i: nat)
    requires
        i < t.len(),
    ensures
        kind_at(t, i) == SpecTokenKind::Name("true"@) ==> p_value(t, i) == Ok::<_, crate::parse_spec::SpecParseError>(
            (SpecValue::Boolean(true), bump(t, i)),
        ),
        kind_at(t, i) == SpecTokenKind::Name("false"@) ==> p_value(t, i) == Ok::<_, crate::parse_spec::SpecParseError>(
            (SpecValue::Boolean(false), bump(t, i)),
        ),
        kind_at(t, i) == SpecTokenKind::Name("null"@) ==> p_value(t, i) == Ok::<_, crate::parse_spec::SpecParseError>(
            (SpecValue::Null, bump(t, i)),
        ),
        kind_at(t, i) is Name && kind_at(t, i)->Name_0 != "true"@ && kind_at(t, i)->Name_0
            != "false"@ && kind_at(t, i)->Name_0 != "null"@ ==> p_value(t, i) == Ok::<_, crate::parse_spec::SpecParseError>(
            (SpecValue::Enum(kind_at(t, i)->Name_0), bump(t, i)),
        ),
{
    reveal_strlit("true");
    reveal_strlit("false");
    reveal_strlit("null");
    assert("true"@ != "false"@) by {
        assert("true"@[0] != "false"@[0]);
    }
    assert("true"@ != "null"@) by {
        assert("true"@[0] != "null"@[0]);
    }
    assert("false"@ != "null"@) by {
        assert("false"@[0] != "null"@[0]);
    }
}

/// `query` and `mutation` name the two operation types that a document
/// may define, each taking up its one token.
pub proof fn law_operation_keywords(t: Seq<SpecToken>, i: nat)
    requires
        i < t.len(),
    ensures
        kind_at(t, i) == SpecTokenKind::Name("query"@) ==> operation_keyword(t, i) == Ok::<_, crate::parse_spec::SpecParseError>(
            (OperationType::Query, bump(t, i)),
        ),
        kind_at(t, i) == SpecTokenKind::Name("mutation"@) ==> operation_keyword(t, i) == Ok::<_, crate::parse_spec::SpecParseError>(
            (OperationType::Mutation, bump(t, i)),
        ),
        !(kind_at(t, i) == SpecTokenKind::Name("query"@) || kind_at(t, i) == SpecTokenKind::Name(
            "mutation"@,
        )) ==> operation_keyword(t, i) is Err,
{
    reveal_strlit("query");
    reveal_strlit("mutation");
    assert("query"@ != "mutation"@) by {
        assert("query"@[0] != "mutation"@[0]);
    }
}

/// Digits are read in base ten, the first the most significant: the value
/// of two runs of digits one after the other is the first's value shifted
/// by as many decimal places as the second has digits, plus the second's.
pub proof fn law_digits_value(a: Seq<char>, b: Seq<char>)
    ensures
        digits_value(a + b) == digits_value(a) * pow(10, b.len()) + digits_value(b),
    decreases b.len(),
{
    reveal(pow);
    if b.len() == 0 {
        assert(a + b =~= a);
    } else {
        let b1 = b.drop_last();
        law_digits_value(a, b1);
        assert((a + b).drop_last() =~= a + b1);
        assert((a + b).last() == b.last());
        let da = digits_value(a) as int;
        let db1 = digits_value(b1) as int;
        let p1 = pow(10, b1.len());
        assert(pow(10, b.len()) == 10 * p1);
        assert((da * p1 + db1) * 10 == da * (10 * p1) + db1 * 10) by (nonlinear_arith);
    }
}

// ---------------------------------------------------------------------
// Numbers
// ---------------------------------------------------------------------

/// A character that makes a number a float: the decimal point or the
/// exponent mark.
pub open spec fn is_float_mark(c: char) -> bool {
    c == '.' || c == 'e' || c == 'E'
}

proof fn lemma_scan_digits(s: Seq<char>, q: nat)
    requires
        q <= s.len(),
    ensures
        q <= scan_digits(s, q) <= s.len(),
        forall|x: int| q <= x < scan_digits(s, q) ==> is_digit(#[trigger] s[x]),
        scan_digits(s, q) < s.len() ==> !is_digit(s[scan_digits(s, q) as int]),
    decreases s.len() - q,
{
    if q < s.len() && is_digit(s[q as int]) {
        lemma_scan_digits(s, q + 1);
    }
}

/// A number token is the longest run of its characters: an integer where
/// its text has neither a decimal point nor an exponent, a float where it
/// has one of them; the text is the input from the start to the end of
/// the token, and no digit follows it.
pub proof fn law_number_literals(s: Seq<char>, start: nat)
    requires
        start < s.len(),
    ensures
        lex_number(s, start) matches Ok((k, e)) ==> {
            let text = s.subrange(start as int, e as int);
            &&& start < e <= s.len()
            &&& e < s.len() ==> !is_digit(s[e as int])
            &&& (forall|x: int| 0 <= x < text.len() ==> !is_float_mark(#[trigger] text[x]))
                ==> k == crate::token::SpecTokenKind::Int(text)
            &&& (exists|x: int| 0 <= x < text.len() && is_float_mark(#[trigger] text[x]))
                ==> k == crate::token::SpecTokenKind::Float(text)
        },
{
    let p = if char_at_is(s, start, '-') {
        start + 1
    } else {
        start
    };
    let m = if char_at_is(s, p, '0') {
        p + 1
    } else {
        scan_digits(s, p)
    };
    if p < s.len() {
        lemma_scan_digits(s, p);
    }
    if lex_number(s, start) is Ok {
        assert(p < s.len() && is_digit(s[p as int]));
        // The integer part holds no float mark.
        assert forall|x: int| start <= x < m implies !is_float_mark(#[trigger] s[x]) by {
            if x >= p {
                assert(is_digit(s[x]));
            }
        }
        assert(m <= s.len());
        assert(m < s.len() ==> !is_digit(s[m as int]));
        let (k, e) = lex_number(s, start)->Ok_0;
        let text = s.subrange(start as int, e as int);
        if char_at_is(s, m, '.') {
            lemma_scan_digits(s, m + 1);
            let e1 = scan_digits(s, m + 1);
            assert(e1 > m + 1);
            if char_at_is(s, e1, 'e') || char_at_is(s, e1, 'E') {
                let q = if char_at_is(s, e1 + 1, '+') || char_at_is(s, e1 + 1, '-') {
                    e1 + 2
                } else {
                    e1 + 1
                };
                lemma_scan_digits(s, q);
            }
            assert(e > m);
            assert(text[m - start] == s[m as int]);
        } else if char_at_is(s, m, 'e') || char_at_is(s, m, 'E') {
            let q = if char_at_is(s, m + 1, '+') || char_at_is(s, m + 1, '-') {
                m + 2
            } else {
                m + 1
            };
            lemma_scan_digits(s, q);
            assert(e > m);
            assert(text[m - start] == s[m as int]);
            assert(is_float_mark(text[m - start]));
        } else {
            assert(e == m);
            assert forall|x: int| 0 <= x < text.len() implies !is_float_mark(#[trigger] text[x]) by {
                assert(text[x] == s[start + x]);
            }
        }
    }
}

// ---------------------------------------------------------------------
// Punctuators
// ---------------------------------------------------------------------

/// Each punctuator character is a token of its own kind, one character
/// long.
pub proof fn law_punctuators(s: Seq<char>, p: nat)
    requires
        p < s.len(),
    ensures
        ({
            let c = s[p as int];
            let r = lex_token_at(s, p);
            &&& c == '!' ==> r == Ok::<_, crate::lex_spec::SpecLexError>((SpecTokenKind::Bang, p + 1))
            &&& c == '$' ==> r == Ok::<_, crate::lex_spec::SpecLexError>((SpecTokenKind::Dollar, p + 1))
            &&& c == '&' ==> r == Ok::<_, crate::lex_spec::SpecLexError>((SpecTokenKind::Amp, p + 1))
            &&& c == '(' ==> r == Ok::<_, crate::lex_spec::SpecLexError>((SpecTokenKind::ParenL, p + 1))
            &&& c == ')' ==> r == Ok::<_, crate::lex_spec::SpecLexError>((SpecTokenKind::ParenR, p + 1))
            &&& c == ':' ==> r == Ok::<_, crate::lex_spec::SpecLexError>((SpecTokenKind::Colon, p + 1))
            &&& c == '=' ==> r == Ok::<_, crate::lex_spec::SpecLexError>((SpecTokenKind::Equals, p + 1))
            &&& c == '@' ==> r == Ok::<_, crate::lex_spec::SpecLexError>((SpecTokenKind::At, p + 1))
            &&& c == '[' ==> r == Ok::<_, crate::lex_spec::SpecLexError>((SpecTokenKind::BracketL, p + 1))
            &&& c == ']' ==> r == Ok::<_, crate::lex_spec::SpecLexError>((SpecTokenKind::BracketR, p + 1))
            &&& c == '{' ==> r == Ok::<_, crate::lex_spec::SpecLexError>((SpecTokenKind::BraceL, p + 1))
            &&& c == '}' ==> r == Ok::<_, crate::lex_spec::SpecLexError>((SpecTokenKind::BraceR, p + 1))
            &&& c == '|' ==> r == Ok::<_, crate::lex_spec::SpecLexError>((SpecTokenKind::Pipe, p + 1))
        }),
{
    reveal(lex_token_at);
}

// ---------------------------------------------------------------------
// Quoted strings
// ---------------------------------------------------------------------

/// In a quoted string, `\n`, `\t`, `\r`, `\b` and `\f` stand for the
/// newline, the tab, the carriage return, the backspace and the form
/// feed, `\"`, `\\` and `\/` for the quote, the backslash and the slash;
/// reading goes on after the two characters. A backslash before any other
/// character but `u` is an error.
pub proof fn law_string_escapes(s: Seq<char>, start: nat, q: nat, acc: Seq<char>)
    requires
        q + 1 < s.len(),
        s[q as int] == '\\',
    ensures
        s[(q + 1) as int] == 'n' ==> lex_string_body(s, start, q, acc) == lex_string_body(
            s,
            start,
            q + 2,
            acc.push('\n'),
        ),
        s[(q + 1) as int] == 't' ==> lex_string_body(s, start, q, acc) == lex_string_body(
            s,
            start,
            q + 2,
            acc.push('\t'),
        ),
        s[(q + 1) as int] == 'r' ==> lex_string_body(s, start, q, acc) == lex_string_body(
            s,
            start,
            q + 2,
            acc.push('\r'),
        ),
        s[(q + 1) as int] == 'b' ==> lex_string_body(s, start, q, acc) == lex_string_body(
            s,
            start,
            q + 2,
            acc.push('\u{0008}'),
        ),
        s[(q + 1) as int] == 'f' ==> lex_string_body(s, start, q, acc) == lex_string_body(
            s,
            start,
            q + 2,
            acc.push('\u{000C}'),
        ),
        s[(q + 1) as int] == '"' ==> lex_string_body(s, start, q, acc) == lex_string_body(
            s,
            start,
            q + 2,
            acc.push('"'),
        ),
        s[(q + 1) as int] == '\\' ==> lex_string_body(s, start, q, acc) == lex_string_body(
            s,
            start,
            q + 2,
            acc.push('\\'),
        ),
        s[(q + 1) as int] == '/' ==> lex_string_body(s, start, q, acc) == lex_string_body(
            s,
            start,
            q + 2,
            acc.push('/'),
        ),
        !(s[(q + 1) as int] == 'n' || s[(q + 1) as int] == 't' || s[(q + 1) as int] == 'r' || s[(q + 1) as int] == 'b' || s[(q + 1) as int]
            == 'f' || s[(q + 1) as int] == '"' || s[(q + 1) as int] == '\\' || s[(q + 1) as int] == '/' || s[(q + 1) as int] == 'u')
            ==> lex_string_body(s, start, q, acc) is Err,
{
}

/// In a quoted string, `\u` and four hexadecimal digits stand for the
/// character with that code, where it is a Unicode scalar value, and
/// reading goes on after the six characters; another code is an error.
pub proof fn law_unicode_escape(s: Seq<char>, start: nat, q: nat, acc: Seq<char>)
    requires
        q + 5 < s.len(),
        s[q as int] == '\\',
        s[(q + 1) as int] == 'u',
        hex_value(s[(q + 2) as int]) is Some,
        hex_value(s[(q + 3) as int]) is Some,
        hex_value(s[(q + 4) as int]) is Some,
        hex_value(s[(q + 5) as int]) is Some,
    ensures
        ({
            let code = 4096 * (hex_value(s[(q + 2) as int])->0 as nat) + 256 * (hex_value(s[(q + 3) as int])->0 as nat)
                + 16 * (hex_value(s[(q + 4) as int])->0 as nat) + (hex_value(s[(q + 5) as int])->0 as nat);
            &&& is_scalar_value(code) ==> lex_string_body(s, start, q, acc) == lex_string_body(
                s,
                start,
                q + 6,
                acc.push(code as char),
            )
            &&& !is_scalar_value(code) ==> lex_string_body(s, start, q, acc) is Err
        }),
{
    let h0 = hex_value(s[(q + 2) as int])->0 as nat;
    let h1 = hex_value(s[(q + 3) as int])->0 as nat;
    let h2 = hex_value(s[(q + 4) as int])->0 as nat;
    let h3 = hex_value(s[(q + 5) as int])->0 as nat;
    reveal_with_fuel(crate::lex_spec::hex_escape_code, 5);
    assert(((((0 * 16 + h0) as nat * 16 + h1) as nat * 16 + h2) as nat * 16 + h3) as nat == 4096
        * h0 + 256 * h1 + 16 * h2 + h3) by (nonlinear_arith);
}

/// In a quoted string, any character but the quote, the backslash and a
/// line end stands for itself; the quote ends the string.
pub proof fn law_string_characters(s: Seq<char>, start: nat, q: nat, acc: Seq<char>)
    requires
        q < s.len(),
    ensures
        s[q as int] == '"' ==> lex_string_body(s, start, q, acc) == Ok::<_, crate::lex_spec::SpecLexError>(
            (acc, q + 1),
        ),
        s[q as int] != '"' && s[q as int] != '\\' && !is_line_end(s[q as int]) ==> lex_string_body(
            s,
            start,
            q,
            acc,
        ) == lex_string_body(s, start, q + 1, acc.push(s[q as int])),
        is_line_end(s[q as int]) ==> lex_string_body(s, start, q, acc) is Err,
{
}

// ---------------------------------------------------------------------
// Block strings
// ---------------------------------------------------------------------

proof fn lemma_common_indent_upto(lines: Seq<Seq<char>>, k: nat)
    requires
        k <= lines.len(),
    ensures
        common_indent_upto(lines, k) is None <==> forall|j: int|
            1 <= j < k ==> is_blank(#[trigger] lines[j]),
        common_indent_upto(lines, k) matches Some(c) ==> {
            &&& forall|j: int|
                1 <= j < k && !is_blank(#[trigger] lines[j]) ==> c <= space_prefix_len(lines[j])
            &&& exists|j: int|
                1 <= j < k && !is_blank(#[trigger] lines[j]) && space_prefix_len(lines[j]) == c
        },
    decreases k,
{
    if k > 1 {
        lemma_common_indent_upto(lines, (k - 1) as nat);
        let line = lines[k - 1];
        lemma_blank_prefix(line);
        let prev = common_indent_upto(lines, (k - 1) as nat);
        if !is_blank(line) {
            if let Some(c) = prev {
                let w = choose|j: int|
                    1 <= j < k - 1 && !is_blank(#[trigger] lines[j]) && space_prefix_len(lines[j])
                        == c;
                if space_prefix_len(line) >= c {
                    assert(1 <= w < k && !is_blank(lines[w]));
                }
            }
            assert(!is_blank(lines[k - 1]));
        }
    }
}

/// Line terminators are normalised: no carriage return is left, and a
/// text without one is unchanged.
pub proof fn law_normalized_newlines(s: Seq<char>)
    ensures
        !normalize_newlines(s).contains('\r'),
        !s.contains('\r') ==> normalize_newlines(s) == s,
    decreases s.len(),
{
    if s.len() > 0 {
        law_normalized_newlines(s.skip(1));
        if s.len() >= 2 {
            law_normalized_newlines(s.skip(2));
        }
        let r = normalize_newlines(s);
        let head = if s[0] == '\r' {
            seq!['\n']
        } else {
            seq![s[0]]
        };
        let tail = if s[0] == '\r' && s.len() >= 2 && s[1] == '\n' {
            normalize_newlines(s.skip(2))
        } else {
            normalize_newlines(s.skip(1))
        };
        assert(r == head + tail);
        assert forall|x: int| 0 <= x < r.len() implies r[x] != '\r' by {
            if x > 0 {
                assert(r[x] == tail[x - 1]);
                assert(tail.contains(tail[x - 1]));
            }
        }
        if !s.contains('\r') {
            assert forall|x: int| 0 <= x < s.len() - 1 implies s.skip(1)[x] != '\r' by {
                assert(s.skip(1)[x] == s[x + 1]);
            }
            assert(s[0] != '\r');
            assert(!s.skip(1).contains('\r'));
            assert(seq![s[0]] + s.skip(1) =~= s);
        }
    }
}

proof fn lemma_join_extend(l: Seq<Seq<char>>, c: char)
    requires
        l.len() > 0,
    ensures
        join_lines(l.update(l.len() - 1, l.last().push(c))) == join_lines(l).push(c),
{
    let u = l.update(l.len() - 1, l.last().push(c));
    if l.len() > 1 {
        assert(u.drop_last() =~= l.drop_last());
        assert(u.last() == l.last().push(c));
    }
}

/// Splitting a text at its newlines gives lines that hold no newline and
/// that, joined with newlines, give the text back.
pub proof fn law_split_lines(s: Seq<char>)
    ensures
        split_lines(s).len() > 0,
        join_lines(split_lines(s)) == s,
        forall|j: int| 0 <= j < split_lines(s).len() ==> !(#[trigger] split_lines(s)[j]).contains('\n'),
    decreases s.len(),
{
    if s.len() > 0 {
        let pre = s.drop_last();
        law_split_lines(pre);
        let prev = split_lines(pre);
        let r = split_lines(s);
        if s.last() == '\n' {
            assert(r.drop_last() =~= prev);
            assert(join_lines(r) == join_lines(prev) + seq!['\n'] + Seq::<char>::empty());
            assert(pre.push('\n') =~= s);
            assert(join_lines(prev) + seq!['\n'] + Seq::<char>::empty() =~= pre.push('\n'));
            assert forall|j: int| 0 <= j < r.len() implies !(#[trigger] r[j]).contains('\n') by {
                if j < r.len() - 1 {
                    assert(r[j] == prev[j]);
                } else {
                    assert(r[j] == Seq::<char>::empty());
                }
            }
        } else {
            lemma_join_extend(prev, s.last());
            assert(pre.push(s.last()) =~= s);
            assert forall|j: int| 0 <= j < r.len() implies !(#[trigger] r[j]).contains('\n') by {
                if j < r.len() - 1 {
                    assert(r[j] == prev[j]);
                } else {
                    let line = prev.last();
                    assert(!prev[prev.len() - 1].contains('\n'));
                    assert(r[j] == line.push(s.last()));
                    assert forall|x: int| 0 <= x < r[j].len() implies r[j][x] != '\n' by {
                        if x < line.len() {
                            assert(r[j][x] == line[x]);
                            assert(line.contains(line[x]));
                        }
                    }
                }
            }
        }
    } else {
        assert(split_lines(s)[0] =~= Seq::<char>::empty());
    }
}

proof fn lemma_leading_blank(lines: Seq<Seq<char>>)
    ensures
        leading_blank(lines) <= lines.len(),
        forall|j: int| 0 <= j < leading_blank(lines) ==> is_blank(#[trigger] lines[j]),
        leading_blank(lines) < lines.len() ==> !is_blank(lines[leading_blank(lines) as int]),
    decreases lines.len(),
{
    if lines.len() > 0 && is_blank(lines[0]) {
        let rest = lines.skip(1);
        lemma_leading_blank(rest);
        assert forall|j: int| 0 <= j < leading_blank(lines) implies is_blank(#[trigger] lines[j]) by {
            if j > 0 {
                assert(lines[j] == rest[j - 1]);
            }
        }
        if leading_blank(lines) < lines.len() {
            assert(lines[leading_blank(lines) as int] == rest[leading_blank(rest) as int]);
        }
    }
}

proof fn lemma_trailing_blank(lines: Seq<Seq<char>>)
    ensures
        trailing_blank(lines) <= lines.len(),
        forall|j: int|
            lines.len() - trailing_blank(lines) <= j < lines.len() ==> is_blank(#[trigger] lines[j]),
        trailing_blank(lines) < lines.len() ==> !is_blank(
            lines[lines.len() - trailing_blank(lines) - 1],
        ),
    decreases lines.len(),
{
    if lines.len() > 0 && is_blank(lines.last()) {
        let rest = lines.drop_last();
        lemma_trailing_blank(rest);
        assert forall|j: int|
            lines.len() - trailing_blank(lines) <= j < lines.len() implies is_blank(
            #[trigger] lines[j],
        ) by {
            if j < lines.len() - 1 {
                assert(lines[j] == rest[j]);
            }
        }
        if trailing_blank(lines) < lines.len() {
            assert(lines[lines.len() - trailing_blank(lines) - 1] == rest[rest.len()
                - trailing_blank(rest) - 1]);
        }
    }
}

/// Dropping blank lines keeps a run of consecutive lines that starts and
/// ends with a non-blank line; every line dropped before or after the run
/// is blank.
pub proof fn law_strip_blank_lines(lines: Seq<Seq<char>>)
    ensures
        exists|a: int, b: int|
            {
                &&& 0 <= a <= b <= lines.len()
                &&& #[trigger] lines.subrange(a, b) == strip_blank_lines(lines)
                &&& forall|j: int| 0 <= j < a ==> is_blank(#[trigger] lines[j])
                &&& forall|j: int| b <= j < lines.len() ==> is_blank(#[trigger] lines[j])
            },
        strip_blank_lines(lines).len() > 0 ==> !is_blank(strip_blank_lines(lines)[0]) && !is_blank(
            strip_blank_lines(lines).last(),
        ),
{
    lemma_leading_blank(lines);
    let a = leading_blank(lines) as int;
    let front = lines.skip(a);
    lemma_trailing_blank(front);
    let b = a + front.len() - trailing_blank(front);
    let r = strip_blank_lines(lines);
    assert(r =~= lines.subrange(a, b));
    assert forall|j: int| b <= j < lines.len() implies is_blank(#[trigger] lines[j]) by {
        assert(lines[j] == front[j - a]);
    }
    if r.len() > 0 {
        assert(r[0] == lines[a]);
        assert(r.last() == front[front.len() - trailing_blank(front) - 1]);
    }
}

/// The common indentation of a block string is the least indentation
/// among its non-blank lines after the first, or zero where there is no
/// such line: the first line takes no part in it.
pub proof fn law_common_indent(lines: Seq<Seq<char>>)
    ensures
        forall|j: int|
            1 <= j < lines.len() && !is_blank(#[trigger] lines[j]) ==> common_indent(lines)
                <= space_prefix_len(lines[j]),
        (exists|j: int| 1 <= j < lines.len() && !is_blank(#[trigger] lines[j])) ==> exists|j: int|
            1 <= j < lines.len() && !is_blank(#[trigger] lines[j]) && space_prefix_len(lines[j])
                == common_indent(lines),
        (forall|j: int| 1 <= j < lines.len() ==> is_blank(#[trigger] lines[j])) ==> common_indent(
            lines,
        ) == 0,
{
    lemma_common_indent_upto(lines, lines.len());
}

} // verus!
