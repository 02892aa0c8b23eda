use vstd::prelude::*;

use crate::error::CliError;
use crate::flag::Flags;
use crate::matcher::{first_match, Matcher};
use crate::print_with_context::{
    after_context_output, before_context_output, colorize_matched, context_output, entry_line,
    highlighted, lines_view, match_flags, matching_line_numbers, print_after_context,
    print_before_context, print_context, print_line_number, selected_indices,
};
use crate::utils::{decimal, parse_context, parsed_usize, usize_to_decimal, ContextType};

verus! {

/// The number of lines that hold a match of `re`.
pub open spec fn match_count(re: (Seq<char>, bool), lines: Seq<Seq<char>>) -> nat {
    selected_indices(match_flags(re, lines)).len()
}

/// The printed form of the matching line `line` at index `i`: its 1-based
/// number when `line_number` holds, then the line, with its matches in red
/// when `highlight` holds.
pub open spec fn printed_match(
    re: (Seq<char>, bool),
    i: int,
    line: Seq<char>,
    highlight: bool,
    line_number: bool,
) -> Seq<char> {
    entry_line(
        (
            i,
            if highlight {
                highlighted(re, line)
            } else {
                line
            },
        ),
        line_number,
    )
}

/// The printed forms of the matching lines among the first `k` lines.
pub open spec fn matches_prefix(
    re: (Seq<char>, bool),
    lines: Seq<Seq<char>>,
    highlight: bool,
    line_number: bool,
    k: int,
) -> Seq<Seq<char>> {
    selected_indices(match_flags(re, lines).take(k)).map_values(
        |i: int| printed_match(re, i, lines[i], highlight, line_number),
    )
}

/// The lines printed by the search without context: one for every
/// matching line, in order.
pub open spec fn matches_output(
    re: (Seq<char>, bool),
    lines: Seq<Seq<char>>,
    highlight: bool,
    line_number: bool,
) -> Seq<Seq<char>> {
    matches_prefix(re, lines, highlight, line_number, lines.len() as int)
}

/// For every line, whether it holds no match of `re`.
pub open spec fn miss_flags(re: (Seq<char>, bool), lines: Seq<Seq<char>>) -> Seq<bool> {
    match_flags(re, lines).map_values(|b: bool| !b)
}

/// The lines printed by the inverted search: every line without a match,
/// in order, after its line number when asked.
pub open spec fn inverted_output(re: (Seq<char>, bool), lines: Seq<Seq<char>>, line_number: bool) -> Seq<Seq<char>> {
    selected_indices(miss_flags(re, lines)).map_values(|i: int| entry_line((i, lines[i]), line_number))
}

/// The lines a search prints, or `None` when its context size does not
/// parse.
pub open spec fn search_output(
    re: (Seq<char>, bool),
    lines: Seq<Seq<char>>,
    flags: Flags,
    context: ContextType,
    separator: Seq<char>,
) -> Option<Seq<Seq<char>>> {
    if flags.count {
        Some(seq![decimal(match_count(re, lines))])
    } else if flags.no_match {
        Some(inverted_output(re, lines, flags.line_number))
    } else {
        match context {
            ContextType::Before(size) => match parsed_usize(size@) {
                Some(c) => Some(before_context_output(re, lines, c as int, flags.highlight, flags.line_number, separator)),
                None => None,
            },
            ContextType::After(size) => match parsed_usize(size@) {
                Some(c) => Some(after_context_output(re, lines, c as int, flags.highlight, flags.line_number, separator)),
                None => None,
            },
            ContextType::Context(size) => match parsed_usize(size@) {
                Some(c) => Some(
                    context_output(re, lines, c as int, flags.highlight, flags.line_number, separator),
                ),
                None => None,
            },
            ContextType::NoContext => Some(matches_output(re, lines, flags.highlight, flags.line_number)),
        }
    }
}

/// The selected indices of a prefix grow by the next index when it is
/// selected.
pub proof fn lemma_selected_take_step(flags: Seq<bool>, i: int)
    requires
        0 <= i < flags.len(),
    ensures
        selected_indices(flags.take(i + 1)) == if flags[i] {
            selected_indices(flags.take(i)).push(i)
        } else {
            selected_indices(flags.take(i))
        },
{
    assert(flags.take(i + 1).drop_last() =~= flags.take(i));
}

/// A prefix of the flags selects no more indices than all of them.
pub proof fn lemma_selected_prefix_le(flags: Seq<bool>, k: int)
    requires
        0 <= k <= flags.len(),
    ensures
        selected_indices(flags.take(k)).len() <= selected_indices(flags).len(),
    decreases flags.len() - k,
{
    if k == flags.len() {
        assert(flags.take(k) =~= flags);
    } else {
        lemma_selected_take_step(flags, k);
        lemma_selected_prefix_le(flags, k + 1);
    }
}

/// The number of lines that hold a match of `re`.
pub fn count_matches(lines: &Vec<String>, re: &Matcher) -> (r: u32)
    requires
        match_count(re@, lines_view(lines@)) <= u32::MAX,
    ensures
        r as nat == match_count(re@, lines_view(lines@)),
{
    let ghost mf = match_flags(re@, lines_view(lines@));
    let mut matches: u32 = 0;
    let mut i: usize = 0;
    while i < lines.len()
        invariant
            0 <= i <= lines@.len(),
            mf == match_flags(re@, lines_view(lines@)),
            selected_indices(mf).len() <= u32::MAX,
            matches as nat == selected_indices(mf.take(i as int)).len(),
        decreases lines@.len() - i,
    {
        proof {
            lemma_selected_take_step(mf, i as int);
            lemma_selected_prefix_le(mf, i + 1);
        }
        if first_match(re, lines[i].as_str()).is_some() {
            matches = matches + 1;
        }
        i = i + 1;
    }
    assert(mf.take(i as int) =~= mf);
    matches
}

/// The printed form of the matching line `line` at index `i`.
fn render_match(re: &Matcher, i: usize, line: &str, flags: &Flags) -> (r: String)
    requires
        i < usize::MAX,
    ensures
        r@ == printed_match(re@, i as int, line@, flags.highlight, flags.line_number),
{
    let mut matched_line = if flags.line_number {
        print_line_number(i + 1)
    } else {
        String::new()
    };
    if flags.highlight {
        let (_, colored_line) = colorize_matched(i, line, re);
        matched_line.append(colored_line.as_str());
    } else {
        matched_line.append(line);
    }
    matched_line
}

/// The lines printed for the matching lines, in order: highlighted and
/// numbered as the flags ask.
pub fn print_matches(lines: &Vec<String>, re: &Matcher, flags: &Flags) -> (r: Vec<String>)
    ensures
        r@.map_values(|s: String| s@) == matches_output(
            re@,
            lines_view(lines@),
            flags.highlight,
            flags.line_number,
        ),
{
    let ghost lv = lines_view(lines@);
    let ghost mf = match_flags(re@, lv);
    let mut out: Vec<String> = Vec::new();
    let mut i: usize = 0;
    while i < lines.len()
        invariant
            0 <= i <= lines@.len(),
            lv == lines_view(lines@),
            mf == match_flags(re@, lv),
            out@.map_values(|s: String| s@) == matches_prefix(re@, lv, flags.highlight, flags.line_number, i as int),
        decreases lines@.len() - i,
    {
        proof {
            lemma_selected_take_step(mf, i as int);
        }
        let ghost before = out@.map_values(|s: String| s@);
        if first_match(re, lines[i].as_str()).is_some() {
            let matched_line = render_match(re, i, lines[i].as_str(), flags);
            let ghost printed = matched_line@;
            out.push(matched_line);
            assert(out@.map_values(|s: String| s@) =~= before.push(printed));
            assert(matches_prefix(re@, lv, flags.highlight, flags.line_number, i + 1) =~= matches_prefix(
                re@,
                lv,
                flags.highlight,
                flags.line_number,
                i as int,
            ).push(printed));
        } else {
            assert(matches_prefix(re@, lv, flags.highlight, flags.line_number, i + 1) =~= matches_prefix(
                re@,
                lv,
                flags.highlight,
                flags.line_number,
                i as int,
            ));
        }
        i = i + 1;
    }
    out
}

/// The lines printed for the lines without a match, in order, numbered
/// when asked.
pub fn print_invert_matches(lines: &Vec<String>, re: &Matcher, flags: &Flags) -> (r: Vec<String>)
    ensures
        r@.map_values(|s: String| s@) == inverted_output(re@, lines_view(lines@), flags.line_number),
{
    let ghost lv = lines_view(lines@);
    let ghost mf = miss_flags(re@, lv);
    let mut out: Vec<String> = Vec::new();
    let mut i: usize = 0;
    while i < lines.len()
        invariant
            0 <= i <= lines@.len(),
            lv == lines_view(lines@),
            mf == miss_flags(re@, lv),
            out@.map_values(|s: String| s@) == selected_indices(mf.take(i as int)).map_values(
                |k: int| entry_line((k, lv[k]), flags.line_number),
            ),
        decreases lines@.len() - i,
    {
        proof {
            lemma_selected_take_step(mf, i as int);
        }
        let ghost before = out@.map_values(|s: String| s@);
        let ghost prev = selected_indices(mf.take(i as int));
        if first_match(re, lines[i].as_str()).is_none() {
            let mut printed = if flags.line_number {
                print_line_number(i + 1)
            } else {
                String::new()
            };
            printed.append(lines[i].as_str());
            let ghost p = printed@;
            assert(p == entry_line((i as int, lv[i as int]), flags.line_number));
            out.push(printed);
            assert(out@.map_values(|s: String| s@) =~= before.push(p));
            assert(prev.push(i as int).map_values(|k: int| entry_line((k, lv[k]), flags.line_number))
                =~= prev.map_values(|k: int| entry_line((k, lv[k]), flags.line_number)).push(p));
        }
        i = i + 1;
    }
    assert(mf.take(i as int) =~= mf);
    out
}

/// Runs the search that the flags and the context ask for over `lines`
/// and returns the lines to print, or the error of a context size that
/// does not parse.
pub fn choose_process(
    lines: &Vec<String>,
    re: &Matcher,
    flags: &Flags,
    context: ContextType,
    group_separator: &str,
) -> (r: Result<Vec<String>, CliError>)
    requires
        flags.count ==> match_count(re@, lines_view(lines@)) <= u32::MAX,
    ensures
        match search_output(re@, lines_view(lines@), *flags, context, group_separator@) {
            Some(out) => r matches Ok(v) && v@.map_values(|s: String| s@) == out,
            None => r matches Err(e) && e is Parse,
        },
{
    if flags.count {
        let count = count_matches(lines, re);
        let printed = usize_to_decimal(count as usize);
        let ghost p = printed@;
        let out = vec![printed];
        assert(out@.map_values(|s: String| s@) =~= seq![p]);
        return Ok(out);
    } else if flags.no_match {
        return Ok(print_invert_matches(lines, re, flags));
    }
    match context {
        ContextType::Before(before_ctx) => match parse_context(before_ctx) {
            Ok(size) => Ok(print_before_context(lines, re, flags, size, group_separator)),
            Err(e) => Err(e),
        },
        ContextType::After(after_ctx) => match parse_context(after_ctx) {
            Ok(size) => Ok(print_after_context(lines, re, flags, size, group_separator)),
            Err(e) => Err(e),
        },
        ContextType::Context(ctx) => match parse_context(ctx) {
            Ok(size) => Ok(print_context(lines, re, flags, size, group_separator)),
            Err(e) => Err(e),
        },
        ContextType::NoContext => Ok(print_matches(lines, re, flags)),
    }
}

/// The number of matching lines, or `None` when it does not fit a `u32`.
pub fn try_count_matches(lines: &Vec<String>, re: &Matcher) -> (r: Option<u32>)
    ensures
        match r {
            Some(c) => c as nat == match_count(re@, lines_view(lines@)),
            None => match_count(re@, lines_view(lines@)) > u32::MAX,
        },
{
    let numbers = matching_line_numbers(lines, re);
    assert(numbers@.map_values(|x: usize| x as int).len() == numbers@.len());
    if numbers.len() <= 4294967295usize {
        Some(count_matches(lines, re))
    } else {
        None
    }
}

/// The search of [`choose_process`], run only where its count fits a
/// `u32`: `None` when counting is asked for and more than `u32::MAX`
/// lines match.
pub fn search(
    lines: &Vec<String>,
    re: &Matcher,
    flags: &Flags,
    context: ContextType,
    group_separator: &str,
) -> (r: Option<Result<Vec<String>, CliError>>)
    ensures
        r is None <==> flags.count && match_count(re@, lines_view(lines@)) > u32::MAX,
        r matches Some(res) ==> match search_output(re@, lines_view(lines@), *flags, context, group_separator@) {
            Some(out) => res matches Ok(v) && v@.map_values(|s: String| s@) == out,
            None => res matches Err(e) && e is Parse,
        },
{
    if flags.count {
        let numbers = matching_line_numbers(lines, re);
        assert(numbers@.map_values(|x: usize| x as int).len() == numbers@.len());
        if numbers.len() > 4294967295usize {
            return None;
        }
    }
    Some(choose_process(lines, re, flags, context, group_separator))
}
/// What a search does when reading its input fails part way.
#[derive(Clone, Copy, Debug, PartialEq, Eq, Structural)]
pub enum ReadFailure {
    /// Search the lines that were read before the failure.
    UseLinesRead,
    /// Report the read error as the search's error.
    Report,
    /// Stop the program.
    Abort,
}

/// What to do when reading fails, as a function of the search: the plain
/// and the inverted searches use the lines read so far, the before- and
/// after-context searches report the error, and counting and the search
/// with context on both sides stop.
pub open spec fn read_failure_action(flags: Flags, context: ContextType) -> ReadFailure {
    if flags.count {
        ReadFailure::Abort
    } else if flags.no_match {
        ReadFailure::UseLinesRead
    } else {
        match context {
            ContextType::NoContext => ReadFailure::UseLinesRead,
            ContextType::Context(_) => ReadFailure::Abort,
            ContextType::Before(_) => ReadFailure::Report,
            ContextType::After(_) => ReadFailure::Report,
        }
    }
}

/// What to do when reading the input fails.
pub fn on_read_failure(flags: &Flags, context: ContextType) -> (r: ReadFailure)
    ensures
        r == read_failure_action(*flags, context),
{
    if flags.count {
        ReadFailure::Abort
    } else if flags.no_match {
        ReadFailure::UseLinesRead
    } else {
        match context {
            ContextType::NoContext => ReadFailure::UseLinesRead,
            ContextType::Context(_) => ReadFailure::Abort,
            ContextType::Before(_) => ReadFailure::Report,
            ContextType::After(_) => ReadFailure::Report,
        }
    }
}
} // verus!
