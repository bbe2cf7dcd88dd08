//! Character classes and small text utilities shared by the tokenizer,
//! the parser and the validator.

use vstd::prelude::*;
use vstd::std_specs::iter::IteratorSpec;

verus! {

// ---------------------------------------------------------------------
// Character classes
// ---------------------------------------------------------------------

pub open spec fn is_digit(c: char) -> bool {
    '0' <= c && c <= '9'
}

pub open spec fn is_alpha(c: char) -> bool {
    ('a' <= c && c <= 'z') || ('A' <= c && c <= 'Z')
}

/// First character of a GraphQL name: `[_A-Za-z]`.
pub open spec fn is_name_start(c: char) -> bool {
    c == '_' || is_alpha(c)
}

/// Later characters of a GraphQL name: `[_0-9A-Za-z]`.
pub open spec fn is_name_continue(c: char) -> bool {
    c == '_' || is_alpha(c) || is_digit(c)
}

/// The value of a hexadecimal digit (either case).
pub open spec fn hex_value(c: char) -> Option<u32> {
    if is_digit(c) {
        Some((c as u32 - '0' as u32) as u32)
    } else if 'a' <= c && c <= 'f' {
        Some((c as u32 - 'a' as u32 + 10) as u32)
    } else if 'A' <= c && c <= 'F' {
        Some((c as u32 - 'A' as u32 + 10) as u32)
    } else {
        None
    }
}

pub fn is_digit_char(c: char) -> (res: bool)
    ensures
        res == is_digit(c),
{
    '0' <= c && c <= '9'
}

pub fn is_name_start_char(c: char) -> (res: bool)
    ensures
        res == is_name_start(c),
{
    c == '_' || ('a' <= c && c <= 'z') || ('A' <= c && c <= 'Z')
}

pub fn is_name_continue_char(c: char) -> (res: bool)
    ensures
        res == is_name_continue(c),
{
    c == '_' || ('a' <= c && c <= 'z') || ('A' <= c && c <= 'Z') || ('0' <= c && c <= '9')
}

pub fn hex_value_of(c: char) -> (res: Option<u32>)
    ensures
        res == hex_value(c),
{
    if '0' <= c && c <= '9' {
        Some((c as u32) - ('0' as u32))
    } else if 'a' <= c && c <= 'f' {
        Some((c as u32) - ('a' as u32) + 10)
    } else if 'A' <= c && c <= 'F' {
        Some((c as u32) - ('A' as u32) + 10)
    } else {
        None
    }
}

// ---------------------------------------------------------------------
// Text conversions
// ---------------------------------------------------------------------

/// The characters of `s`, in order.
pub fn chars_of(s: &str) -> (res: Vec<char>)
    ensures
        res@ == s@,
{
    broadcast use vstd::string::group_string_axioms;

    let mut out: Vec<char> = Vec::new();
    let mut it = s.chars();
    loop
        invariant
            it.obeys_prophetic_iter_laws(),
            out@ + it.remaining() == s@,
            it.decrease() is Some,
        ensures
            out@ == s@,
        decreases it.decrease()->0,
    {
        let ghost before = it;
        match it.next() {
            Some(c) => {
                proof {
                    assert(out@.push(c) + it.remaining() =~= out@ + before.remaining());
                }
                out.push(c);
            },
            None => {
                proof {
                    assert(out@ =~= s@);
                }
                break;
            },
        }
    }
    out
}

/// Appends one character to a `String` (std's `String::push`).
#[verifier::external_body]
pub(crate) fn push_char(s: &mut String, c: char)
    ensures
        final(s)@ == old(s)@.push(c),
{
    s.push(c);
}

/// A `String` holding the characters `chars[from..to]`.
pub fn string_of_range(chars: &Vec<char>, from: usize, to: usize) -> (res: String)
    requires
        from <= to <= chars@.len(),
    ensures
        res@ == chars@.subrange(from as int, to as int),
{
    let mut out = String::new();
    let mut i = from;
    while i < to
        invariant
            from <= i <= to <= chars@.len(),
            out@ == chars@.subrange(from as int, i as int),
        decreases to - i,
    {
        push_char(&mut out, chars[i]);
        proof {
            assert(chars@.subrange(from as int, i + 1) =~= chars@.subrange(from as int, i as int).push(
                chars@[i as int],
            ));
        }
        i = i + 1;
    }
    out
}

/// A `String` holding all of `chars`.
pub fn string_of_chars(chars: &Vec<char>) -> (res: String)
    ensures
        res@ == chars@,
{
    let r = string_of_range(chars, 0, chars.len());
    proof {
        assert(chars@.subrange(0, chars@.len() as int) =~= chars@);
    }
    r
}

/// A `String` with the text of `s`.
pub fn owned(s: &str) -> (res: String)
    ensures
        res@ == s@,
{
    String::from_str(s)
}

/// `a` followed by `b`.
pub fn concat(a: String, b: &str) -> (res: String)
    ensures
        res@ == a@ + b@,
{
    let mut a = a;
    a.append(b);
    a
}

/// Compares two `String`s by their text.
pub fn same_text(a: &String, b: &String) -> (res: bool)
    ensures
        res == (a@ == b@),
{
    a.eq(b)
}

/// Compares a `String` with a `str` by their text.
pub fn text_is(a: &String, b: &str) -> (res: bool)
    ensures
        res == (a@ == b@),
{
    let b = owned(b);
    a.eq(&b)
}

/// A copy of a `String`.
pub fn copy_string(s: &String) -> (res: String)
    ensures
        res@ == s@,
{
    s.clone()
}

/// What `char::from_u32` returns: the character with code point `code`,
/// if `code` is a Unicode scalar value.
#[verifier::external_body]
pub(crate) fn char_from_code(code: u32) -> (res: Option<char>)
    ensures
        res is Some <==> (code <= 0x10FFFF && !(0xD800 <= code && code <= 0xDFFF)),
        res matches Some(c) ==> c as u32 == code && c == code as char,
{
    char::from_u32(code)
}

/// The text that std's `Debug` formatting writes for a character
/// (quoted, with escapes).
pub uninterp spec fn char_debug(c: char) -> Seq<char>;

/// The text that std's `Debug` formatting writes for a string
/// (quoted, with escapes).
pub uninterp spec fn str_debug(s: Seq<char>) -> Seq<char>;

/// std's `Debug` formatting of a `char` (`format!("{:?}", c)`). Its
/// result is named by `char_debug`; what the escapes are is left to std.
#[verifier::external_body]
pub(crate) fn debug_char(c: char) -> (res: String)
    ensures
        res@ == char_debug(c),
{
    format!("{:?}", c)
}

/// std's `Debug` formatting of a `str` (`format!("{:?}", s)`). Its result
/// is named by `str_debug`; what the escapes are is left to std.
#[verifier::external_body]
pub(crate) fn debug_str(s: &str) -> (res: String)
    ensures
        res@ == str_debug(s@),
{
    format!("{:?}", s)
}

// ---------------------------------------------------------------------
// Decimal and hexadecimal renderings
// ---------------------------------------------------------------------

pub open spec fn digit_char(d: nat) -> char
    recommends
        d < 10,
{
    (('0' as u32) + d) as char
}

/// The decimal rendering of `n`, without leading zeros ("0" for zero).
pub open spec fn decimal_text(n: nat) -> Seq<char>
    decreases n,
{
    if n < 10 {
        seq![digit_char(n)]
    } else {
        decimal_text(n / 10).push(digit_char(n % 10))
    }
}

pub open spec fn hex_upper_char(d: nat) -> char
    recommends
        d < 16,
{
    if d < 10 {
        (('0' as u32) + d) as char
    } else {
        (('A' as u32) + (d - 10)) as char
    }
}

/// Four upper-case hexadecimal digits of `n` (`{:04X}` for `n < 0x10000`).
pub open spec fn hex4_text(n: nat) -> Seq<char> {
    seq![
        hex_upper_char((n / 4096) % 16),
        hex_upper_char((n / 256) % 16),
        hex_upper_char((n / 16) % 16),
        hex_upper_char(n % 16),
    ]
}

fn digit_char_of(d: u32) -> (res: char)
    requires
        d < 10,
    ensures
        res == digit_char(d as nat),
{
    let code: u32 = ('0' as u32) + d;
    let r = char_from_code(code);
    r.unwrap()
}

fn hex_upper_char_of(d: u32) -> (res: char)
    requires
        d < 16,
    ensures
        res == hex_upper_char(d as nat),
{
    let code: u32 = if d < 10 {
        ('0' as u32) + d
    } else {
        ('A' as u32) + (d - 10)
    };
    let r = char_from_code(code);
    r.unwrap()
}

/// The decimal rendering of `n`.
pub fn decimal_string(n: usize) -> (res: String)
    ensures
        res@ == decimal_text(n as nat),
    decreases n,
{
    if n < 10 {
        let mut s = String::new();
        push_char(&mut s, digit_char_of(n as u32));
        proof {
            assert(s@ =~= seq![digit_char(n as nat)]);
        }
        s
    } else {
        let mut s = decimal_string(n / 10);
        push_char(&mut s, digit_char_of((n % 10) as u32));
        s
    }
}

/// Four upper-case hexadecimal digits of `n`.
pub fn hex4_string(n: u32) -> (res: String)
    requires
        n < 0x10000,
    ensures
        res@ == hex4_text(n as nat),
{
    let mut s = String::new();
    push_char(&mut s, hex_upper_char_of((n / 4096) % 16));
    push_char(&mut s, hex_upper_char_of((n / 256) % 16));
    push_char(&mut s, hex_upper_char_of((n / 16) % 16));
    push_char(&mut s, hex_upper_char_of(n % 16));
    proof {
        assert(s@ =~= hex4_text(n as nat));
    }
    s
}

} // verus!
