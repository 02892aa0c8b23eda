use owo_colors::OwoColorize;
use vstd::prelude::*;

use crate::error::CliError;
use crate::matcher::{compile_matcher, regex_compiles, Matcher};

verus! {

/// The terminal colours the output uses.
#[derive(Clone, Copy, Debug)]
pub enum Colors {
    Red,
    Green,
    Blue,
    Yellow,
}

/// The ANSI foreground code of a colour.
pub open spec fn fg_code(color: Colors) -> Seq<char> {
    match color {
        Colors::Red => seq!['3', '1'],
        Colors::Green => seq!['3', '2'],
        Colors::Yellow => seq!['3', '3'],
        Colors::Blue => seq!['3', '4'],
    }
}

/// `text` between the escape that selects `color` as foreground and the
/// escape that restores the default foreground.
pub open spec fn colored(color: Colors, text: Seq<char>) -> Seq<char> {
    seq!['\x1b', '['] + fg_code(color) + seq!['m'] + text + seq!['\x1b', '[', '3', '9', 'm']
}

/// Calls `owo_colors::OwoColorize::red` and renders it. Trusted: the text
/// is wrapped in `ESC[31m` and `ESC[39m`.
#[verifier::external_body]
fn paint_red(text: &str) -> (r: String)
    ensures
        r@ == colored(Colors::Red, text@),
{
    text.red().to_string()
}

/// Calls `owo_colors::OwoColorize::green` and renders it. Trusted: the
/// text is wrapped in `ESC[32m` and `ESC[39m`.
#[verifier::external_body]
fn paint_green(text: &str) -> (r: String)
    ensures
        r@ == colored(Colors::Green, text@),
{
    text.green().to_string()
}

/// Calls `owo_colors::OwoColorize::blue` and renders it. Trusted: the text
/// is wrapped in `ESC[34m` and `ESC[39m`.
#[verifier::external_body]
fn paint_blue(text: &str) -> (r: String)
    ensures
        r@ == colored(Colors::Blue, text@),
{
    text.blue().to_string()
}

/// Calls `owo_colors::OwoColorize::yellow` and renders it. Trusted: the
/// text is wrapped in `ESC[33m` and `ESC[39m`.
#[verifier::external_body]
fn paint_yellow(text: &str) -> (r: String)
    ensures
        r@ == colored(Colors::Yellow, text@),
{
    text.yellow().to_string()
}

impl Colors {
    /// `pattern` coloured with `color` for a terminal.
    pub fn colorize_pattern(color: Self, pattern: &str) -> (r: String)
        ensures
            r@ == colored(color, pattern@),
    {
        match color {
            Colors::Red => paint_red(pattern),
            Colors::Green => paint_green(pattern),
            Colors::Blue => paint_blue(pattern),
            Colors::Yellow => paint_yellow(pattern),
        }
    }
}

/// The decimal digit `d` (`d` below ten).
pub open spec fn digit_char(d: nat) -> char {
    if d == 0 {
        '0'
    } else if d == 1 {
        '1'
    } else if d == 2 {
        '2'
    } else if d == 3 {
        '3'
    } else if d == 4 {
        '4'
    } else if d == 5 {
        '5'
    } else if d == 6 {
        '6'
    } else if d == 7 {
        '7'
    } else if d == 8 {
        '8'
    } else {
        '9'
    }
}

/// The decimal notation of `n`, without sign or leading zeros.
pub open spec fn decimal(n: nat) -> Seq<char>
    decreases n,
{
    if n < 10 {
        seq![digit_char(n)]
    } else {
        decimal(n / 10).push(digit_char(n % 10))
    }
}

/// Formats `n` with `std::fmt::Display` (through `format!`). Trusted: the
/// result is the decimal notation of `n`, as std documents for integers.
#[verifier::external_body]
pub(crate) fn usize_to_decimal(n: usize) -> (r: String)
    ensures
        r@ == decimal(n as nat),
{
    format!("{}", n)
}

/// Whether `c` is one of the ASCII digits `0` to `9`.
pub open spec fn is_decimal_digit(c: char) -> bool {
    '0' <= c && c <= '9'
}

/// The number that the decimal digits `s` denote.
pub open spec fn digits_value(s: Seq<char>) -> nat
    decreases s.len(),
{
    if s.len() == 0 {
        0
    } else {
        digits_value(s.drop_last()) * 10 + ((s.last() as int) - ('0' as int)) as nat
    }
}

/// `s` without one leading `+`, if it has one.
pub open spec fn unsigned_digits(s: Seq<char>) -> Seq<char> {
    if s.len() > 0 && s[0] == '+' {
        s.drop_first()
    } else {
        s
    }
}

/// The `usize` that `s` denotes: an optional `+` followed by one or more
/// ASCII digits whose value fits; `None` for anything else.
pub open spec fn parsed_usize(s: Seq<char>) -> Option<usize> {
    let d = unsigned_digits(s);
    if d.len() > 0 && (forall|i: int| 0 <= i < d.len() ==> is_decimal_digit(#[trigger] d[i]))
        && digits_value(d) <= usize::MAX {
        Some(digits_value(d) as usize)
    } else {
        None
    }
}

/// Calls `str::parse::<usize>`. Trusted: as std documents for
/// `from_str_radix`, it succeeds exactly on an optional `+` followed by
/// digits whose value fits, with that value.
#[verifier::external_body]
fn parse_usize(s: &str) -> (r: Result<usize, std::num::ParseIntError>)
    ensures
        r is Ok <==> parsed_usize(s@) is Some,
        r matches Ok(n) ==> parsed_usize(s@) == Some(n),
{
    s.parse::<usize>()
}

/// Compiles the search pattern, ignoring case when asked to.
pub fn build_regex(pattern: &str, ignore_case: bool) -> (r: Result<Matcher, CliError>)
    ensures
        r is Ok <==> regex_compiles(pattern@, ignore_case),
        r matches Ok(m) ==> m@ == (pattern@, ignore_case),
        r matches Err(e) ==> e is Regex,
{
    match compile_matcher(pattern, ignore_case) {
        Ok(m) => Ok(m),
        Err(e) => Err(CliError::from(e)),
    }
}

/// Which context lines to print around each matching line, with the
/// number of lines still in its textual form.
#[derive(Clone, Copy)]
pub enum ContextType<'context> {
    After(&'context str),
    Before(&'context str),
    Context(&'context str),
    NoContext,
}

/// Reads a context size.
pub fn parse_context(context: &str) -> (r: Result<usize, CliError>)
    ensures
        r is Ok <==> parsed_usize(context@) is Some,
        r matches Ok(n) ==> parsed_usize(context@) == Some(n),
        r matches Err(e) ==> e is Parse,
{
    match parse_usize(context) {
        Ok(n) => Ok(n),
        Err(e) => Err(CliError::from(e)),
    }
}

} // verus!
