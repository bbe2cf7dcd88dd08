//! Blanks and commas between tokens carry no meaning: replacing one of
//! them by another leaves the tokens, and any lexical error, unchanged.

use vstd::prelude::*;

use crate::lex_spec::{
    block_raw, char_at_is, hex_escape_code, is_ignored, lemma_block_raw_advances,
    lemma_hex_escape_in_bounds, lemma_lex_from_step, lemma_skip_ignored_ge,
    lemma_string_body_advances, lemma_token_advances, lex_exponent, lex_fraction, lex_from,
    lex_number, lex_string, lex_string_body, lex_token_at, scan_digits, scan_name, simple_escape,
    skip_ignored, spec_tokenize, triple_quote_at, unicode_escape,
};
use crate::text::{hex_value, is_digit, is_name_continue, is_name_start};

verus! {

/// A blank or a comma.
pub open spec fn is_separator(c: char) -> bool {
    c == ' ' || c == '\t' || c == ','
}

/// `s2` is `s` with the separator at `i` replaced by a separator.
pub open spec fn separator_swapped(s: Seq<char>, s2: Seq<char>, i: nat) -> bool {
    &&& i < s.len()
    &&& s2.len() == s.len()
    &&& is_separator(s[i as int])
    &&& is_separator(s2[i as int])
    &&& forall|q: int| 0 <= q < s.len() && q != i ==> #[trigger] s2[q] == s[q]
}

/// Position `i` lies outside every token of the tokenizer's run over `s`
/// from `a`: in ignored characters or a comment before a token, and not
/// after a string literal that fails to lex.
pub open spec fn outside_literals(s: Seq<char>, a: nat, i: nat) -> bool
    decreases s.len() - a,
{
    let p = skip_ignored(s, a, false);
    if i < p || p >= s.len() {
        true
    } else {
        match lex_token_at(s, p) {
            Ok((k, end)) => if k is Eof {
                true
            } else if i < end {
                false
            } else {
                proof {
                    lemma_skip_ignored_ge(s, a, false);
                    lemma_token_advances(s, p);
                }
                outside_literals(s, end, i)
            },
            Err(_) => s[p as int] != '"' || string_extent(s, p) <= i,
        }
    }
}

/// One past the last character that reading four hexadecimal digits from
/// `h` looks at, `k` of them read already.
pub open spec fn hex_extent(s: Seq<char>, h: nat, k: nat) -> nat
    decreases 4 - k,
{
    if k >= 4 {
        h + 4
    } else if h + k >= s.len() {
        s.len()
    } else if hex_value(s[(h + k) as int]) is None {
        h + k + 1
    } else {
        hex_extent(s, h, k + 1)
    }
}

/// One past the last character that reading the rest of a quoted string
/// from `q` looks at, whether the string ends well or not.
pub open spec fn quoted_extent(s: Seq<char>, start: nat, q: nat) -> nat
    decreases s.len() - q,
{
    if q >= s.len() {
        s.len()
    } else {
        let c = s[q as int];
        if c == '"' || crate::lex_spec::is_line_end(c) {
            q + 1
        } else if c == '\\' {
            if q + 1 >= s.len() {
                s.len()
            } else {
                let e = s[(q + 1) as int];
                if simple_escape(e) is Some {
                    quoted_extent(s, start, q + 2)
                } else if e == 'u' {
                    if unicode_escape(s, start, q + 2) is Ok {
                        proof {
                            lemma_hex_escape_in_bounds(s, start, q + 2, 0, 0);
                        }
                        quoted_extent(s, start, q + 6)
                    } else {
                        hex_extent(s, q + 2, 0)
                    }
                } else {
                    q + 2
                }
            }
        } else {
            quoted_extent(s, start, q + 1)
        }
    }
}

/// One past the last character that lexing the string literal at `p`
/// looks at: its end where it lexes, else the point where it failed.
pub open spec fn string_extent(s: Seq<char>, p: nat) -> nat {
    if triple_quote_at(s, p) {
        match block_raw(s, p, p + 3, seq![]) {
            Ok((_, end)) => end,
            Err(_) => s.len(),
        }
    } else {
        quoted_extent(s, p, p + 1)
    }
}

// ---------------------------------------------------------------------
// What the scanners read
// ---------------------------------------------------------------------

proof fn lemma_char_eq(s: Seq<char>, s2: Seq<char>, i: nat, q: nat, c: char)
    requires
        separator_swapped(s, s2, i),
        !is_separator(c),
    ensures
        char_at_is(s, q, c) == char_at_is(s2, q, c),
{
    if q < s.len() && q != i {
        assert(s2[q as int] == s[q as int]);
    }
}

proof fn lemma_class_eq(s: Seq<char>, s2: Seq<char>, i: nat, q: nat)
    requires
        separator_swapped(s, s2, i),
        q < s.len(),
    ensures
        is_digit(s[q as int]) == is_digit(s2[q as int]),
        is_name_continue(s[q as int]) == is_name_continue(s2[q as int]),
        is_ignored(s[q as int]) == is_ignored(s2[q as int]),
        (s[q as int] == '#') == (s2[q as int] == '#'),
        crate::lex_spec::is_line_end(s[q as int]) == crate::lex_spec::is_line_end(s2[q as int]),
{
    if q != i {
        assert(s2[q as int] == s[q as int]);
    }
}

proof fn lemma_skip_eq(s: Seq<char>, s2: Seq<char>, i: nat, a: nat, c: bool)
    requires
        separator_swapped(s, s2, i),
    ensures
        skip_ignored(s, a, c) == skip_ignored(s2, a, c),
    decreases s.len() - a,
{
    if a < s.len() {
        lemma_class_eq(s, s2, i, a);
        lemma_skip_eq(s, s2, i, a + 1, false);
        lemma_skip_eq(s, s2, i, a + 1, true);
    }
}

/// Where skipping stops inside the input there is no separator.
proof fn lemma_skip_stops(s: Seq<char>, a: nat, c: bool)
    ensures
        skip_ignored(s, a, c) < s.len() ==> !is_separator(s[skip_ignored(s, a, c) as int]),
    decreases s.len() - a,
{
    if a < s.len() {
        lemma_skip_stops(s, a + 1, false);
        lemma_skip_stops(s, a + 1, true);
    }
}

proof fn lemma_scan_digits_eq(s: Seq<char>, s2: Seq<char>, i: nat, q: nat)
    requires
        separator_swapped(s, s2, i),
    ensures
        scan_digits(s, q) == scan_digits(s2, q),
        forall|x: int| q <= x < scan_digits(s, q) ==> is_digit(#[trigger] s[x]),
    decreases s.len() - q,
{
    if q < s.len() {
        lemma_class_eq(s, s2, i, q);
        lemma_scan_digits_eq(s, s2, i, q + 1);
    }
}

proof fn lemma_scan_name_eq(s: Seq<char>, s2: Seq<char>, i: nat, q: nat)
    requires
        separator_swapped(s, s2, i),
    ensures
        scan_name(s, q) == scan_name(s2, q),
        forall|x: int| q <= x < scan_name(s, q) ==> is_name_continue(#[trigger] s[x]),
    decreases s.len() - q,
{
    if q < s.len() {
        lemma_class_eq(s, s2, i, q);
        lemma_scan_name_eq(s, s2, i, q + 1);
    }
}

/// No separator stands in `s[a..b]`.
spec fn no_separator(s: Seq<char>, a: nat, b: nat) -> bool {
    forall|x: int| a <= x < b ==> !is_separator(#[trigger] s[x])
}

proof fn lemma_same_text(s: Seq<char>, s2: Seq<char>, i: nat, a: nat, b: nat)
    requires
        separator_swapped(s, s2, i),
        a <= b <= s.len(),
        no_separator(s, a, b),
    ensures
        s.subrange(a as int, b as int) == s2.subrange(a as int, b as int),
{
    assert forall|x: int| 0 <= x < b - a implies s.subrange(a as int, b as int)[x] == s2.subrange(
        a as int,
        b as int,
    )[x] by {
        assert(!is_separator(s[a + x]));
        if a + x != i {
            assert(s2[a + x] == s[a + x]);
        }
    }
    assert(s.subrange(a as int, b as int) =~= s2.subrange(a as int, b as int));
}

proof fn lemma_exponent_eq(s: Seq<char>, s2: Seq<char>, i: nat, start: nat, p: nat, f: bool)
    requires
        separator_swapped(s, s2, i),
        start <= p <= s.len(),
        no_separator(s, start, p),
    ensures
        lex_exponent(s, start, p, f) == lex_exponent(s2, start, p, f),
{
    lemma_char_eq(s, s2, i, p, 'e');
    lemma_char_eq(s, s2, i, p, 'E');
    lemma_char_eq(s, s2, i, p + 1, '+');
    lemma_char_eq(s, s2, i, p + 1, '-');
    if char_at_is(s, p, 'e') || char_at_is(s, p, 'E') {
        let q = if char_at_is(s, p + 1, '+') || char_at_is(s, p + 1, '-') {
            p + 2
        } else {
            p + 1
        };
        lemma_scan_digits_eq(s, s2, i, q);
        crate::lex_spec::lemma_scan_digits_ge(s, q);
        let e = scan_digits(s, q);
        if e != q {
            assert forall|x: int| start <= x < e implies !is_separator(#[trigger] s[x]) by {
                if x >= q {
                    assert(is_digit(s[x]));
                }
            }
            lemma_same_text(s, s2, i, start, e);
        }
    } else {
        lemma_same_text(s, s2, i, start, p);
    }
}

proof fn lemma_fraction_eq(s: Seq<char>, s2: Seq<char>, i: nat, start: nat, p: nat)
    requires
        separator_swapped(s, s2, i),
        start <= p <= s.len(),
        no_separator(s, start, p),
    ensures
        lex_fraction(s, start, p) == lex_fraction(s2, start, p),
{
    lemma_char_eq(s, s2, i, p, '.');
    if char_at_is(s, p, '.') {
        lemma_scan_digits_eq(s, s2, i, p + 1);
        crate::lex_spec::lemma_scan_digits_ge(s, p + 1);
        let e = scan_digits(s, p + 1);
        assert forall|x: int| start <= x < e implies !is_separator(#[trigger] s[x]) by {
            if x > p {
                assert(is_digit(s[x]));
            }
        }
        lemma_exponent_eq(s, s2, i, start, e, true);
    } else {
        lemma_exponent_eq(s, s2, i, start, p, false);
    }
}

proof fn lemma_number_eq(s: Seq<char>, s2: Seq<char>, i: nat, start: nat)
    requires
        separator_swapped(s, s2, i),
        start < s.len(),
        !is_separator(s[start as int]),
    ensures
        lex_number(s, start) == lex_number(s2, start),
{
    lemma_char_eq(s, s2, i, start, '-');
    let p = if char_at_is(s, start, '-') {
        start + 1
    } else {
        start
    };
    lemma_char_eq(s, s2, i, p, '0');
    if p + 1 < s.len() {
        lemma_class_eq(s, s2, i, p + 1);
    }
    if p < s.len() {
        lemma_class_eq(s, s2, i, p);
    }
    if char_at_is(s, p, '0') {
        assert(no_separator(s, start, p + 1));
        lemma_fraction_eq(s, s2, i, start, p + 1);
    } else if p < s.len() && is_digit(s[p as int]) {
        lemma_scan_digits_eq(s, s2, i, p);
        crate::lex_spec::lemma_scan_digits_ge(s, p);
        let e = scan_digits(s, p);
        assert forall|x: int| start <= x < e implies !is_separator(#[trigger] s[x]) by {
            if x >= p {
                assert(is_digit(s[x]));
            }
        }
        lemma_fraction_eq(s, s2, i, start, e);
    }
}

// ---------------------------------------------------------------------
// Strings
// ---------------------------------------------------------------------

proof fn lemma_triple_eq(s: Seq<char>, s2: Seq<char>, i: nat, q: nat)
    requires
        separator_swapped(s, s2, i),
    ensures
        triple_quote_at(s, q) == triple_quote_at(s2, q),
{
    lemma_char_eq(s, s2, i, q, '"');
    lemma_char_eq(s, s2, i, q + 1, '"');
    lemma_char_eq(s, s2, i, q + 2, '"');
}

/// The hexadecimal digits read from `q` agree where `s` and `s2` do.
proof fn lemma_hex_eq(s: Seq<char>, s2: Seq<char>, i: nat, start: nat, q: nat, k: nat, code: nat)
    requires
        separator_swapped(s, s2, i),
        k <= 4,
        !(q <= i < q + 4),
    ensures
        hex_escape_code(s, start, q, k, code) == hex_escape_code(s2, start, q, k, code),
    decreases 4 - k,
{
    if k < 4 && q + k < s.len() {
        assert(s2[(q + k) as int] == s[(q + k) as int]);
        if let Some(d) = hex_value(s[(q + k) as int]) {
            lemma_hex_eq(s, s2, i, start, q, k + 1, (code * 16 + d) as nat);
        }
    }
}

proof fn lemma_hex_extent_ge(s: Seq<char>, h: nat, k: nat)
    requires
        k <= 4,
    ensures
        k < 4 && h + k < s.len() ==> hex_extent(s, h, k) > h + k,
        k < 4 && h + k >= s.len() ==> hex_extent(s, h, k) == s.len(),
    decreases 4 - k,
{
    if k < 4 && h + k < s.len() && hex_value(s[(h + k) as int]) is Some {
        lemma_hex_extent_ge(s, h, k + 1);
        assert(hex_extent(s, h, k) == hex_extent(s, h, k + 1));
        if k + 1 >= 4 {
            assert(hex_extent(s, h, k + 1) == h + 4);
        }
    }
}

proof fn lemma_quoted_extent_ge(s: Seq<char>, start: nat, q: nat)
    ensures
        q < s.len() ==> quoted_extent(s, start, q) > q,
        q < s.len() && s[q as int] == '\\' && q + 1 < s.len() ==> quoted_extent(s, start, q) > q
            + 1,
        q >= s.len() ==> quoted_extent(s, start, q) == s.len(),
    decreases s.len() - q,
{
    if q < s.len() {
        let c = s[q as int];
        if c == '\\' && q + 1 < s.len() {
            let e = s[(q + 1) as int];
            if simple_escape(e) is Some {
                lemma_quoted_extent_ge(s, start, q + 2);
            } else if e == 'u' {
                lemma_hex_escape_in_bounds(s, start, q + 2, 0, 0);
                lemma_hex_extent_ge(s, q + 2, 0);
                if unicode_escape(s, start, q + 2) is Ok {
                    lemma_quoted_extent_ge(s, start, q + 6);
                }
            }
        } else if c != '"' && !crate::lex_spec::is_line_end(c) && c != '\\' {
            lemma_quoted_extent_ge(s, start, q + 1);
        }
    }
}

/// Where a quoted string lexes, what it looks at ends where it ends.
proof fn lemma_quoted_extent_ok(s: Seq<char>, start: nat, q: nat, acc: Seq<char>)
    ensures
        lex_string_body(s, start, q, acc) matches Ok((_, end)) ==> quoted_extent(s, start, q)
            == end,
    decreases s.len() - q,
{
    if q < s.len() {
        let c = s[q as int];
        if c == '\\' && q + 1 < s.len() {
            let e = s[(q + 1) as int];
            match simple_escape(e) {
                Some(x) => lemma_quoted_extent_ok(s, start, q + 2, acc.push(x)),
                None => if e == 'u' {
                    lemma_hex_escape_in_bounds(s, start, q + 2, 0, 0);
                    if let Ok(x) = unicode_escape(s, start, q + 2) {
                        lemma_quoted_extent_ok(s, start, q + 6, acc.push(x));
                    }
                },
            }
        } else if c != '"' && !crate::lex_spec::is_line_end(c) && c != '\\' {
            lemma_quoted_extent_ok(s, start, q + 1, acc.push(c));
        }
    }
}

/// Hexadecimal digits that fail before `i`, or lie wholly before or after
/// it, read the same in `s` and `s2`.
proof fn lemma_hex_fail_eq(
    s: Seq<char>,
    s2: Seq<char>,
    i: nat,
    start: nat,
    h: nat,
    k: nat,
    code: nat,
)
    requires
        separator_swapped(s, s2, i),
        k <= 4,
        i < h + k || hex_extent(s, h, k) <= i,
    ensures
        hex_escape_code(s, start, h, k, code) == hex_escape_code(s2, start, h, k, code),
    decreases 4 - k,
{
    if k < 4 && h + k < s.len() {
        lemma_hex_extent_ge(s, h, k);
        assert(s2[(h + k) as int] == s[(h + k) as int]);
        if let Some(d) = hex_value(s[(h + k) as int]) {
            lemma_hex_fail_eq(s, s2, i, start, h, k + 1, (code * 16 + d) as nat);
        }
    }
}

/// A quoted string read from `q`, wholly before `i` or with all that its
/// lexing looks at before `i`, reads the same in `s` and `s2`.
proof fn lemma_body_eq(s: Seq<char>, s2: Seq<char>, i: nat, start: nat, q: nat, acc: Seq<char>)
    requires
        separator_swapped(s, s2, i),
        i < q || quoted_extent(s, start, q) <= i,
    ensures
        lex_string_body(s, start, q, acc) == lex_string_body(s2, start, q, acc),
    decreases s.len() - q,
{
    if q < s.len() {
        lemma_quoted_extent_ge(s, start, q);
        let c = s[q as int];
        assert(s2[q as int] == c);
        if c == '\\' && q + 1 < s.len() {
            let e = s[(q + 1) as int];
            assert(s2[(q + 1) as int] == e);
            match simple_escape(e) {
                Some(x) => {
                    lemma_body_eq(s, s2, i, start, q + 2, acc.push(x));
                },
                None => {
                    if e == 'u' {
                        lemma_hex_escape_in_bounds(s, start, q + 2, 0, 0);
                        if let Ok(x) = unicode_escape(s, start, q + 2) {
                            lemma_quoted_extent_ge(s, start, q + 6);
                            lemma_hex_eq(s, s2, i, start, q + 2, 0, 0);
                            lemma_body_eq(s, s2, i, start, q + 6, acc.push(x));
                        } else {
                            lemma_hex_fail_eq(s, s2, i, start, q + 2, 0, 0);
                        }
                    }
                },
            }
        } else if c != '"' && !crate::lex_spec::is_line_end(c) && c != '\\' {
            lemma_body_eq(s, s2, i, start, q + 1, acc.push(c));
        }
    }
}

/// A block string read from `q`, wholly before `i` or wholly after it,
/// reads the same in `s` and `s2`.
proof fn lemma_block_eq(s: Seq<char>, s2: Seq<char>, i: nat, start: nat, q: nat, raw: Seq<char>)
    requires
        separator_swapped(s, s2, i),
        i < q || (block_raw(s, start, q, raw) matches Ok((_, end)) && end <= i),
    ensures
        block_raw(s, start, q, raw) == block_raw(s2, start, q, raw),
    decreases s.len() - q,
{
    lemma_triple_eq(s, s2, i, q);
    lemma_triple_eq(s, s2, i, q + 1);
    if !triple_quote_at(s, q) && q < s.len() {
        assert(s2[q as int] == s[q as int]) by {
            if i >= q {
                if s[q as int] == '\\' && triple_quote_at(s, q + 1) {
                    lemma_block_raw_advances(s, start, q + 4, raw + seq!['"', '"', '"']);
                } else {
                    lemma_block_raw_advances(s, start, q + 1, raw.push(s[q as int]));
                }
            }
        }
        if s[q as int] == '\\' && triple_quote_at(s, q + 1) {
            lemma_block_eq(s, s2, i, start, q + 4, raw + seq!['"', '"', '"']);
        } else {
            lemma_block_eq(s, s2, i, start, q + 1, raw.push(s[q as int]));
        }
    }
}

proof fn lemma_string_eq(s: Seq<char>, s2: Seq<char>, i: nat, p: nat)
    requires
        separator_swapped(s, s2, i),
        i < p || string_extent(s, p) <= i,
    ensures
        lex_string(s, p) == lex_string(s2, p),
{
    lemma_triple_eq(s, s2, i, p);
    if triple_quote_at(s, p) {
        lemma_block_eq(s, s2, i, p, p + 3, seq![]);
    } else {
        lemma_body_eq(s, s2, i, p, p + 1, seq![]);
    }
}

/// Where the string literal at `p` lexes, what it looks at ends where it
/// ends.
proof fn lemma_string_extent_ok(s: Seq<char>, p: nat)
    requires
        p < s.len(),
        s[p as int] == '"',
    ensures
        lex_token_at(s, p) matches Ok((_, end)) ==> string_extent(s, p) == end,
{
    reveal(lex_token_at);
    lemma_quoted_extent_ok(s, p, p + 1, seq![]);
}

/// The token at `p` reads the same in `s` and `s2`, unless it is a string
/// literal whose lexing looks at `i`.
proof fn lemma_token_eq(s: Seq<char>, s2: Seq<char>, i: nat, p: nat)
    requires
        separator_swapped(s, s2, i),
        p >= s.len() || !is_separator(s[p as int]),
        p >= s.len() || s[p as int] != '"' || i < p || string_extent(s, p) <= i,
    ensures
        lex_token_at(s, p) == lex_token_at(s2, p),
{
    reveal(lex_token_at);
    if p < s.len() {
        let c = s[p as int];
        assert(s2[p as int] == c);
        lemma_char_eq(s, s2, i, p + 1, '.');
        lemma_char_eq(s, s2, i, p + 2, '.');
        if c == '"' {
            lemma_string_eq(s, s2, i, p);
        } else if is_name_start(c) {
            lemma_scan_name_eq(s, s2, i, p);
            crate::lex_spec::lemma_scan_name_ge(s, p);
            lemma_same_text(s, s2, i, p, scan_name(s, p));
        } else if c == '-' || is_digit(c) {
            lemma_number_eq(s, s2, i, p);
        }
    }
}

// ---------------------------------------------------------------------
// The law
// ---------------------------------------------------------------------

proof fn lemma_lex_from_swap(s: Seq<char>, s2: Seq<char>, i: nat, a: nat)
    requires
        separator_swapped(s, s2, i),
        outside_literals(s, a, i),
    ensures
        lex_from(s, a) == lex_from(s2, a),
    decreases s.len() - a,
{
    lemma_lex_from_step(s, a);
    lemma_lex_from_step(s2, a);
    lemma_skip_eq(s, s2, i, a, false);
    lemma_skip_stops(s, a, false);
    lemma_skip_ignored_ge(s, a, false);
    let p = skip_ignored(s, a, false);
    lemma_token_advances(s, p);
    if p < s.len() && s[p as int] == '"' {
        lemma_string_extent_ok(s, p);
    }
    lemma_token_eq(s, s2, i, p);
    if let Ok((k, end)) = lex_token_at(s, p) {
        if !(k is Eof) {
            if i < p {
                lemma_skip_ignored_ge(s, end, false);
            }
            lemma_lex_from_swap(s, s2, i, end);
        }
    }
}

/// Replacing a blank or a comma that stands between tokens (or in a
/// comment) by another blank or comma changes neither the tokens, with
/// their positions, nor a lexical error.
pub proof fn law_separators_between_tokens(s: Seq<char>, s2: Seq<char>, i: nat)
    requires
        separator_swapped(s, s2, i),
        outside_literals(s, 0, i),
    ensures
        lex_from(s2, 0) == lex_from(s, 0),
        spec_tokenize(s2) == spec_tokenize(s),
{
    lemma_lex_from_swap(s, s2, i, 0);
}

} // verus!
