use vstd::prelude::*;

use crate::flag::Flags;
use crate::matcher::{first_match, line_matches, regex_replace_all, replace_all, Matcher};
use crate::utils::{colored, decimal, usize_to_decimal, Colors};

verus! {

/// The texts of `lines`.
pub open spec fn lines_view(lines: Seq<String>) -> Seq<Seq<char>> {
    lines.map_values(|l: String| l@)
}

/// For every line, whether it holds a match of `re`.
pub open spec fn match_flags(re: (Seq<char>, bool), lines: Seq<Seq<char>>) -> Seq<bool> {
    lines.map_values(|l: Seq<char>| line_matches(re, l))
}

/// The prefix printed before a line whose 1-based number is `n`.
pub open spec fn line_number_prefix(n: nat) -> Seq<char> {
    colored(Colors::Green, decimal(n)) + seq![':', ' ']
}

/// The replacement that colours a whole match red: `$0` between the
/// escapes of red and of the default foreground.
pub open spec fn red_match() -> Seq<char> {
    colored(Colors::Red, seq!['$', '0'])
}

/// A line with every match of `re` coloured red, each once; a line
/// without a match as it is.
pub open spec fn highlighted(re: (Seq<char>, bool), line: Seq<char>) -> Seq<char> {
    if line_matches(re, line) {
        regex_replace_all(re, line, red_match())
    } else {
        line
    }
}

/// The prefix printed before the line whose 1-based number is
/// `line_number`: the number in green, a colon and a space.
pub fn print_line_number(line_number: usize) -> (r: String)
    ensures
        r@ == line_number_prefix(line_number as nat),
{
    let digits = usize_to_decimal(line_number);
    let mut r = Colors::colorize_pattern(Colors::Green, digits.as_str());
    r.append(": ");
    proof {
        reveal_strlit(": ");
    }
    r
}

/// The line with each of its matches coloured red, next to its index. A
/// line without a match comes back unchanged.
pub fn colorize_matched(i: usize, line: &str, re: &Matcher) -> (r: (usize, String))
    ensures
        r.0 == i,
        r.1@ == highlighted(re@, line@),
        !line_matches(re@, line@) ==> r.1@ == line@,
{
    let red = Colors::colorize_pattern(Colors::Red, "$0");
    proof {
        reveal_strlit("$0");
    }
    assert(red@ == red_match());
    let matched_line = replace_all(re, line, red.as_str());
    (i, matched_line)
}

/// Line `i` with the text printed for it: highlighted when `highlight`
/// holds, as it is otherwise.
fn line_text(lines: &Vec<String>, i: usize, re: &Matcher, highlight: bool) -> (r: (usize, String))
    requires
        i < lines@.len(),
    ensures
        r.0 == i,
        r.1@ == context_text(re@, lines_view(lines@), highlight)(i as int),
{
    if highlight {
        colorize_matched(i, lines[i].as_str(), re)
    } else {
        (i, lines[i].clone())
    }
}

/// The entries of a group: line indices with the text to print for them.
pub open spec fn entries_view(entries: Seq<(usize, String)>) -> Seq<(int, Seq<char>)> {
    entries.map_values(|e: (usize, String)| (e.0 as int, e.1@))
}

/// The groups of entries.
pub open spec fn groups_view(groups: Seq<Vec<(usize, String)>>) -> Seq<Seq<(int, Seq<char>)>> {
    groups.map_values(|g: Vec<(usize, String)>| entries_view(g@))
}

/// The printed form of one entry: its text, after its line number when
/// line numbers are asked for.
pub open spec fn entry_line(e: (int, Seq<char>), line_number: bool) -> Seq<char> {
    if line_number {
        line_number_prefix((e.0 + 1) as nat) + e.1
    } else {
        e.1
    }
}

/// The printed lines of one group.
pub open spec fn render_group(group: Seq<(int, Seq<char>)>, line_number: bool) -> Seq<Seq<char>> {
    group.map_values(|e: (int, Seq<char>)| entry_line(e, line_number))
}

/// The printed lines of all groups, with the separator, in yellow, between
/// two consecutive groups.
pub open spec fn render_groups(
    groups: Seq<Seq<(int, Seq<char>)>>,
    line_number: bool,
    separator: Seq<char>,
) -> Seq<Seq<char>>
    decreases groups.len(),
{
    if groups.len() == 0 {
        Seq::empty()
    } else {
        let before = render_groups(groups.drop_last(), line_number, separator);
        let before = if groups.len() > 1 {
            before.push(colored(Colors::Yellow, separator))
        } else {
            before
        };
        before + render_group(groups.last(), line_number)
    }
}

/// The lines printed for the groups of entries: a yellow separator line
/// between two consecutive groups, and every entry on a line of its own,
/// after its 1-based line number when `line_number` holds.
pub fn print_groups(groups: &Vec<Vec<(usize, String)>>, line_number: bool, group_separator: &str) -> (r: Vec<String>)
    requires
        forall|g: int, t: int|
            0 <= g < groups@.len() && 0 <= t < groups@[g]@.len() ==> #[trigger] groups@[g]@[t].0 < usize::MAX,
    ensures
        r@.map_values(|s: String| s@) == render_groups(groups_view(groups@), line_number, group_separator@),
{
    let mut out: Vec<String> = Vec::new();
    let mut index: usize = 0;
    while index < groups.len()
        invariant
            0 <= index <= groups@.len(),
            forall|g: int, t: int|
                0 <= g < groups@.len() && 0 <= t < groups@[g]@.len() ==> #[trigger] groups@[g]@[t].0 < usize::MAX,
            out@.map_values(|s: String| s@) == render_groups(
                groups_view(groups@).take(index as int),
                line_number,
                group_separator@,
            ),
        decreases groups@.len() - index,
    {
        let ghost gv = groups_view(groups@);
        let ghost before = out@.map_values(|s: String| s@);
        assert(gv.take(index + 1).drop_last() =~= gv.take(index as int));
        if index != 0 {
            let sep = Colors::colorize_pattern(Colors::Yellow, group_separator);
            out.push(sep);
            assert(out@.map_values(|s: String| s@) =~= before.push(colored(Colors::Yellow, group_separator@)));
        }
        let ghost start = out@.map_values(|s: String| s@);
        let group = &groups[index];
        let mut t: usize = 0;
        while t < group.len()
            invariant
                0 <= t <= group@.len(),
                index < groups@.len(),
                group == groups@[index as int],
                forall|u: int| 0 <= u < group@.len() ==> #[trigger] group@[u].0 < usize::MAX,
                out@.map_values(|s: String| s@) == start + render_group(
                    entries_view(group@).take(t as int),
                    line_number,
                ),
            decreases group@.len() - t,
        {
            let ghost prev = out@.map_values(|s: String| s@);
            let entry = &group[t];
            let mut printed = if line_number {
                print_line_number(entry.0 + 1)
            } else {
                String::new()
            };
            printed.append(entry.1.as_str());
            assert(printed@ == entry_line((entry.0 as int, entry.1@), line_number));
            let ghost pv = printed@;
            out.push(printed);
            assert(out@.map_values(|s: String| s@) =~= prev.push(pv));
            let ghost e = (entry.0 as int, entry.1@);
            assert(entries_view(group@).take(t + 1) =~= entries_view(group@).take(t as int).push(e));
            assert(render_group(entries_view(group@).take(t as int).push(e), line_number)
                =~= render_group(entries_view(group@).take(t as int), line_number).push(
                entry_line(e, line_number),
            ));
            assert(out@.map_values(|s: String| s@) =~= start + render_group(
                entries_view(group@).take(t + 1),
                line_number,
            ));
            t = t + 1;
        }
        assert(entries_view(group@).take(t as int) =~= entries_view(group@));
        assert(gv.take(index + 1).last() == entries_view(group@));
        index = index + 1;
    }
    assert(groups_view(groups@).take(index as int) =~= groups_view(groups@));
    out
}

/// The indices from `lo` up to, and without, `hi`.
pub open spec fn index_range(lo: int, hi: int) -> Seq<int> {
    if lo < hi {
        Seq::new((hi - lo) as nat, |t: int| lo + t)
    } else {
        Seq::empty()
    }
}

/// The larger of two integers.
pub open spec fn max_int(a: int, b: int) -> int {
    if a < b {
        b
    } else {
        a
    }
}

/// The smaller of two integers.
pub open spec fn min_int(a: int, b: int) -> int {
    if a < b {
        a
    } else {
        b
    }
}

/// The closed groups and the open group of line indices, once the open
/// group has been closed if its last line lies more than `context_size`
/// lines before line `i`.
pub open spec fn split_if_far(
    done: Seq<Seq<int>>,
    current: Seq<int>,
    i: int,
    context_size: int,
) -> (Seq<Seq<int>>, Seq<int>) {
    if current.len() > 0 && current.last() + context_size < i {
        (done.push(current), Seq::empty())
    } else {
        (done, current)
    }
}

/// The state of a grouping pass over the lines: the closed groups, the
/// open group and the first line that has not been added yet.
pub type GroupState = (Seq<Seq<int>>, Seq<int>, int);

/// The state before any line.
pub open spec fn initial_state() -> GroupState {
    (Seq::empty(), Seq::empty(), 0)
}

/// All groups of a final state, the open one last when it is not empty.
pub open spec fn close_groups(s: GroupState) -> Seq<Seq<int>> {
    if s.1.len() > 0 {
        s.0.push(s.1)
    } else {
        s.0
    }
}

/// The step of the before-context pass at the matching line `i`: the up
/// to `context_size` lines before it that were not added yet, then line
/// `i`.
pub open spec fn before_step(s: GroupState, i: int, context_size: int) -> GroupState {
    let (done, current) = split_if_far(s.0, s.1, i, context_size);
    let start = max_int(max_int(i - context_size, 0), s.2);
    (done, current + index_range(start, i).push(i), i + 1)
}

/// The before-context pass over the first `k` lines.
pub open spec fn before_state(matched: Seq<bool>, context_size: int, k: nat) -> GroupState
    decreases k,
{
    if k == 0 {
        initial_state()
    } else {
        let s = before_state(matched, context_size, (k - 1) as nat);
        if matched[k - 1] {
            before_step(s, k - 1, context_size)
        } else {
            s
        }
    }
}

/// The groups of line indices that the before-context search prints.
pub open spec fn before_groups(matched: Seq<bool>, context_size: int) -> Seq<Seq<int>> {
    close_groups(before_state(matched, context_size, matched.len()))
}

/// Line indices paired with the text printed for them.
pub open spec fn with_text(indices: Seq<int>, text: spec_fn(int) -> Seq<char>) -> Seq<(int, Seq<char>)> {
    indices.map_values(|j: int| (j, text(j)))
}

/// Groups of line indices paired with the text printed for them.
pub open spec fn groups_with_text(
    groups: Seq<Seq<int>>,
    text: spec_fn(int) -> Seq<char>,
) -> Seq<Seq<(int, Seq<char>)>> {
    groups.map_values(|g: Seq<int>| with_text(g, text))
}

/// The text of each line with its matches coloured red.
pub open spec fn highlighted_lines(re: (Seq<char>, bool), lines: Seq<Seq<char>>) -> spec_fn(int) -> Seq<char> {
    |j: int| highlighted(re, lines[j])
}

/// The lines printed by the before-context search.
pub open spec fn before_context_output(
    re: (Seq<char>, bool),
    lines: Seq<Seq<char>>,
    context_size: int,
    highlight: bool,
    line_number: bool,
    separator: Seq<char>,
) -> Seq<Seq<char>> {
    render_groups(
        groups_with_text(before_groups(match_flags(re, lines), context_size), context_text(re, lines, highlight)),
        line_number,
        separator,
    )
}

/// Every index of the state lies in `[0, k)`, and so does the first line
/// not added yet, or it is `k`.
pub open spec fn state_within(s: GroupState, k: int) -> bool {
    &&& 0 <= s.2 <= k
    &&& indices_within(s, k)
}

/// Every index of the state lies in `[0, n)`.
pub open spec fn indices_within(s: GroupState, n: int) -> bool {
    &&& forall|t: int| 0 <= t < s.1.len() ==> 0 <= #[trigger] s.1[t] < n
    &&& forall|g: int, t: int| 0 <= g < s.0.len() && 0 <= t < s.0[g].len() ==> 0 <= #[trigger] s.0[g][t] < n
}

/// The before-context pass only names lines it has passed.
pub proof fn lemma_before_state_within(matched: Seq<bool>, context_size: int, k: nat)
    requires
        k <= matched.len(),
        context_size >= 0,
    ensures
        state_within(before_state(matched, context_size, k), k as int),
    decreases k,
{
    if k > 0 {
        lemma_before_state_within(matched, context_size, (k - 1) as nat);
        let s = before_state(matched, context_size, (k - 1) as nat);
        if matched[k - 1] {
            let (done, current) = split_if_far(s.0, s.1, k - 1, context_size);
            let start = max_int(max_int(k - 1 - context_size, 0), s.2);
            let added = index_range(start, k - 1).push(k - 1);
            assert forall|g: int, t: int| 0 <= g < done.len() && 0 <= t < done[g].len() implies 0 <= #[trigger] done[g][t] < k by {
                if g < s.0.len() {
                    assert(done[g] == s.0[g]);
                } else {
                    assert(done[g] == s.1);
                }
            }
            assert forall|t: int| 0 <= t < (current + added).len() implies 0 <= #[trigger] (current + added)[t] < k by {
                if t >= current.len() {
                    assert((current + added)[t] == added[t - current.len()]);
                }
            }
        }
    }
}

/// Every index of every group lies in `[0, n)`.
pub open spec fn groups_within(groups: Seq<Seq<int>>, n: int) -> bool {
    forall|g: int, t: int| 0 <= g < groups.len() && 0 <= t < groups[g].len() ==> 0 <= #[trigger] groups[g][t] < n
}

/// Closing a state keeps its indices where they were.
pub proof fn lemma_close_within(s: GroupState, k: int)
    requires
        indices_within(s, k),
    ensures
        groups_within(close_groups(s), k),
{
    let gs = close_groups(s);
    assert forall|g: int, t: int| 0 <= g < gs.len() && 0 <= t < gs[g].len() implies 0 <= #[trigger] gs[g][t] < k by {
        if g < s.0.len() {
            assert(gs[g] == s.0[g]);
        } else {
            assert(gs[g] == s.1);
        }
    }
}

/// Appending an entry appends its view.
pub proof fn lemma_entries_push(v: Seq<(usize, String)>, e: (usize, String))
    ensures
        entries_view(v.push(e)) == entries_view(v).push((e.0 as int, e.1@)),
{
    assert(entries_view(v.push(e)) =~= entries_view(v).push((e.0 as int, e.1@)));
}

/// Appending a group appends its view.
pub proof fn lemma_groups_push(v: Seq<Vec<(usize, String)>>, g: Vec<(usize, String)>)
    ensures
        groups_view(v.push(g)) == groups_view(v).push(entries_view(g@)),
{
    assert(groups_view(v.push(g)) =~= groups_view(v).push(entries_view(g@)));
}

/// Appending an index appends it with its text.
pub proof fn lemma_with_text_push(indices: Seq<int>, j: int, text: spec_fn(int) -> Seq<char>)
    ensures
        with_text(indices.push(j), text) == with_text(indices, text).push((j, text(j))),
{
    assert(with_text(indices.push(j), text) =~= with_text(indices, text).push((j, text(j))));
}

/// Appending a group of indices appends it with its texts.
pub proof fn lemma_groups_with_text_push(groups: Seq<Seq<int>>, g: Seq<int>, text: spec_fn(int) -> Seq<char>)
    ensures
        groups_with_text(groups.push(g), text) == groups_with_text(groups, text).push(with_text(g, text)),
{
    assert(groups_with_text(groups.push(g), text) =~= groups_with_text(groups, text).push(with_text(g, text)));
}

/// The range grows by its upper end.
pub proof fn lemma_index_range_push(lo: int, hi: int)
    requires
        lo <= hi,
    ensures
        index_range(lo, hi + 1) == index_range(lo, hi).push(hi),
{
    assert(index_range(lo, hi + 1) =~= index_range(lo, hi).push(hi));
}

/// Where the views of exec groups and spec groups agree, so do the indices.
pub proof fn lemma_groups_indices(
    v: Seq<Vec<(usize, String)>>,
    groups: Seq<Seq<int>>,
    text: spec_fn(int) -> Seq<char>,
    n: int,
)
    requires
        groups_view(v) == groups_with_text(groups, text),
        groups_within(groups, n),
        n <= usize::MAX,
    ensures
        forall|g: int, t: int| 0 <= g < v.len() && 0 <= t < v[g]@.len() ==> #[trigger] v[g]@[t].0 < usize::MAX,
{
    assert(groups_view(v).len() == v.len());
    assert(groups_with_text(groups, text).len() == groups.len());
    assert forall|g: int, t: int| 0 <= g < v.len() && 0 <= t < v[g]@.len() implies #[trigger] v[g]@[t].0 < usize::MAX by {
        assert(groups_view(v)[g] == entries_view(v[g]@));
        assert(entries_view(v[g]@).len() == v[g]@.len());
        assert(with_text(groups[g], text).len() == groups[g].len());
        assert(groups_with_text(groups, text)[g] == with_text(groups[g], text));
        assert(entries_view(v[g]@)[t].0 == v[g]@[t].0 as int);
        assert(with_text(groups[g], text)[t].0 == groups[g][t]);
    }
}

/// Moves `from` into a new group at the end of `groups`, leaving it empty.
fn close_group(groups: &mut Vec<Vec<(usize, String)>>, from: &mut Vec<(usize, String)>)
    ensures
        final(groups)@ == old(groups)@.push(*old(from)),
        final(from)@.len() == 0,
{
    let mut taken: Vec<(usize, String)> = Vec::new();
    std::mem::swap(&mut taken, from);
    groups.push(taken);
}

/// The lines printed when every matching line is shown after up to
/// `context_size` lines that precede it: a match opens a new group when it
/// lies more than `context_size` lines after the last line of the open
/// group, and lines are highlighted when the flags ask for it.
pub fn print_before_context(
    lines: &Vec<String>,
    re: &Matcher,
    flags: &Flags,
    context_size: usize,
    group_separator: &str,
) -> (r: Vec<String>)
    ensures
        r@.map_values(|s: String| s@) == before_context_output(
            re@,
            lines_view(lines@),
            context_size as int,
            flags.highlight,
            flags.line_number,
            group_separator@,
        ),
{
    let ghost lv = lines_view(lines@);
    let ghost mf = match_flags(re@, lv);
    let ghost text = context_text(re@, lv, flags.highlight);
    let ghost ctx = context_size as int;
    let n = lines.len();
    let mut matched_lines: Vec<Vec<(usize, String)>> = Vec::new();
    let mut current_group: Vec<(usize, String)> = Vec::new();
    let mut last_line_added: usize = 0;
    let mut i: usize = 0;
    while i < n
        invariant
            n == lines@.len(),
            0 <= i <= n,
            lv == lines_view(lines@),
            mf == match_flags(re@, lv),
            text == context_text(re@, lv, flags.highlight),
            ctx == context_size as int,
            groups_view(matched_lines@) == groups_with_text(before_state(mf, ctx, i as nat).0, text),
            entries_view(current_group@) == with_text(before_state(mf, ctx, i as nat).1, text),
            last_line_added as int == before_state(mf, ctx, i as nat).2,
            state_within(before_state(mf, ctx, i as nat), i as int),
        decreases n - i,
    {
        proof {
            lemma_before_state_within(mf, ctx, (i + 1) as nat);
        }
        let ghost s = before_state(mf, ctx, i as nat);
        if first_match(re, lines[i].as_str()).is_none() {
            assert(!mf[i as int]);
            i = i + 1;
            continue;
        }
        assert(mf[i as int]);
        let ghost split = split_if_far(s.0, s.1, i as int, ctx);
        let ghost done = split.0;
        let ghost current = split.1;
        assert(entries_view(current_group@).len() == current_group@.len());
        assert(with_text(s.1, text).len() == s.1.len());
        if current_group.len() > 0 {
            let last_index = current_group[current_group.len() - 1].0;
            assert(entries_view(current_group@)[current_group@.len() - 1].0 == last_index as int);
            assert(last_index as int == s.1.last());
            if last_index < i && i - last_index > context_size {
                let ghost gvec = current_group;
                let ghost old_groups = matched_lines@;
                close_group(&mut matched_lines, &mut current_group);
                proof {
                    lemma_groups_push(old_groups, gvec);
                    lemma_groups_with_text_push(s.0, s.1, text);
                }
                assert(groups_view(matched_lines@) =~= groups_with_text(done, text));
                assert(entries_view(current_group@) =~= with_text(current, text));
            } else {
                assert(done == s.0 && current == s.1);
            }
        } else {
            assert(done == s.0 && current == s.1);
        }
        assert(groups_view(matched_lines@) == groups_with_text(done, text));
        assert(entries_view(current_group@) == with_text(current, text));
        let start = i.saturating_sub(context_size);
        let mut j = if start > last_line_added {
            start
        } else {
            last_line_added
        };
        let ghost first = j as int;
        assert(first == max_int(max_int(i - ctx, 0), s.2));
        while j < i
            invariant
                n == lines@.len(),
                first <= j <= i < n,
                lv == lines_view(lines@),
                text == context_text(re@, lv, flags.highlight),
                entries_view(current_group@) == with_text(current + index_range(first, j as int), text),
            decreases i - j,
        {
            let (line_number, context_line) = line_text(lines, j, re, flags.highlight);
            let ghost before = current_group@;
            assert(context_line@ == text(j as int));
            current_group.push((line_number, context_line));
            proof {
                lemma_entries_push(before, (line_number, context_line));
                lemma_index_range_push(first, j as int);
                assert(current + index_range(first, j + 1) =~= (current + index_range(first, j as int)).push(j as int));
                lemma_with_text_push(current + index_range(first, j as int), j as int, text);
            }
            j = j + 1;
        }
        let (index, matched_line) = line_text(lines, i, re, flags.highlight);
        let ghost before = current_group@;
        assert(matched_line@ == text(i as int));
        current_group.push((index, matched_line));
        proof {
            lemma_entries_push(before, (index, matched_line));
            assert(current + index_range(first, i as int).push(i as int) =~= (current + index_range(first, i as int)).push(i as int));
            lemma_with_text_push(current + index_range(first, i as int), i as int, text);
        }
        assert(current + index_range(first, i as int).push(i as int) =~= before_state(mf, ctx, (i + 1) as nat).1);
        last_line_added = i + 1;
        i = i + 1;
    }
    assert(before_state(mf, ctx, n as nat) == before_state(mf, ctx, mf.len()));
    let ghost fin = before_state(mf, ctx, n as nat);
    assert(entries_view(current_group@).len() == current_group@.len());
    assert(with_text(fin.1, text).len() == fin.1.len());
    if current_group.len() > 0 {
        let ghost old_groups = matched_lines@;
        let ghost gvec = current_group;
        close_group(&mut matched_lines, &mut current_group);
        proof {
            lemma_groups_push(old_groups, gvec);
            lemma_groups_with_text_push(fin.0, fin.1, text);
        }
        assert(groups_view(matched_lines@) =~= groups_with_text(close_groups(fin), text));
    }
    assert(groups_view(matched_lines@) == groups_with_text(close_groups(fin), text));
    proof {
        lemma_close_within(fin, n as int);
        lemma_groups_indices(matched_lines@, close_groups(fin), text, n as int);
    }
    print_groups(&matched_lines, flags.line_number, group_separator)
}

/// The step of the after-context pass at the matching line `i` of `n`:
/// line `i` unless it was added already, then the up to `context_size`
/// lines after it that were not added yet.
pub open spec fn after_step(s: GroupState, i: int, context_size: int, n: int) -> GroupState {
    let (done, current) = split_if_far(s.0, s.1, i, context_size);
    let current = if i >= s.2 {
        current.push(i)
    } else {
        current
    };
    let added = if i >= s.2 {
        i
    } else {
        s.2
    };
    let end = min_int(i + context_size, n - 1);
    (done, current + index_range(max_int(added, i + 1), end + 1), i + context_size + 1)
}

/// The after-context pass over the first `k` lines.
pub open spec fn after_state(matched: Seq<bool>, context_size: int, k: nat) -> GroupState
    decreases k,
{
    if k == 0 {
        initial_state()
    } else {
        let s = after_state(matched, context_size, (k - 1) as nat);
        if matched[k - 1] {
            after_step(s, k - 1, context_size, matched.len() as int)
        } else {
            s
        }
    }
}

/// The groups of line indices that the after-context search prints.
pub open spec fn after_groups(matched: Seq<bool>, context_size: int) -> Seq<Seq<int>> {
    close_groups(after_state(matched, context_size, matched.len()))
}

/// The lines printed by the after-context search.
pub open spec fn after_context_output(
    re: (Seq<char>, bool),
    lines: Seq<Seq<char>>,
    context_size: int,
    highlight: bool,
    line_number: bool,
    separator: Seq<char>,
) -> Seq<Seq<char>> {
    render_groups(
        groups_with_text(after_groups(match_flags(re, lines), context_size), context_text(re, lines, highlight)),
        line_number,
        separator,
    )
}

/// The after-context pass only names lines of the input.
pub proof fn lemma_after_state_within(matched: Seq<bool>, context_size: int, k: nat)
    requires
        k <= matched.len(),
        context_size >= 0,
    ensures
        indices_within(after_state(matched, context_size, k), matched.len() as int),
        after_state(matched, context_size, k).2 >= 0,
    decreases k,
{
    let n = matched.len() as int;
    if k > 0 {
        lemma_after_state_within(matched, context_size, (k - 1) as nat);
        let s = after_state(matched, context_size, (k - 1) as nat);
        let i = k - 1;
        if matched[i] {
            let (done, current) = split_if_far(s.0, s.1, i, context_size);
            let current = if i >= s.2 { current.push(i) } else { current };
            let added = if i >= s.2 { i } else { s.2 };
            let end = min_int(i + context_size, n - 1);
            let extra = index_range(max_int(added, i + 1), end + 1);
            assert forall|g: int, t: int| 0 <= g < done.len() && 0 <= t < done[g].len() implies 0 <= #[trigger] done[g][t] < n by {
                if g < s.0.len() {
                    assert(done[g] == s.0[g]);
                } else {
                    assert(done[g] == s.1);
                }
            }
            assert forall|t: int| 0 <= t < (current + extra).len() implies 0 <= #[trigger] (current + extra)[t] < n by {
                if t >= current.len() {
                    assert((current + extra)[t] == extra[t - current.len()]);
                }
            }
        }
    }
}

/// The lines printed when every matching line is shown before up to
/// `context_size` lines that follow it: a match closes the open group when
/// the group's last line lies more than `context_size` lines before it,
/// and lines are highlighted when the flags ask for it.
pub fn print_after_context(
    lines: &Vec<String>,
    re: &Matcher,
    flags: &Flags,
    context_size: usize,
    group_separator: &str,
) -> (r: Vec<String>)
    ensures
        r@.map_values(|s: String| s@) == after_context_output(
            re@,
            lines_view(lines@),
            context_size as int,
            flags.highlight,
            flags.line_number,
            group_separator@,
        ),
{
    let ghost lv = lines_view(lines@);
    let ghost mf = match_flags(re@, lv);
    let ghost text = context_text(re@, lv, flags.highlight);
    let ghost ctx = context_size as int;
    let n = lines.len();
    let mut matched_lines: Vec<Vec<(usize, String)>> = Vec::new();
    let mut current_group: Vec<(usize, String)> = Vec::new();
    let mut last_line_added: usize = 0;
    let mut i: usize = 0;
    assert(mf.len() == n);
    while i < n
        invariant
            n == lines@.len(),
            mf.len() == n,
            0 <= i <= n,
            lv == lines_view(lines@),
            mf == match_flags(re@, lv),
            text == context_text(re@, lv, flags.highlight),
            ctx == context_size as int,
            groups_view(matched_lines@) == groups_with_text(after_state(mf, ctx, i as nat).0, text),
            entries_view(current_group@) == with_text(after_state(mf, ctx, i as nat).1, text),
            last_line_added as int == min_int(after_state(mf, ctx, i as nat).2, usize::MAX as int),
            indices_within(after_state(mf, ctx, i as nat), n as int),
            after_state(mf, ctx, i as nat).2 >= 0,
        decreases n - i,
    {
        proof {
            lemma_after_state_within(mf, ctx, (i + 1) as nat);
        }
        let ghost s = after_state(mf, ctx, i as nat);
        if first_match(re, lines[i].as_str()).is_none() {
            assert(!mf[i as int]);
            i = i + 1;
            continue;
        }
        assert(mf[i as int]);
        let ghost split = split_if_far(s.0, s.1, i as int, ctx);
        let ghost done = split.0;
        let ghost current = split.1;
        assert(entries_view(current_group@).len() == current_group@.len());
        assert(with_text(s.1, text).len() == s.1.len());
        if current_group.len() > 0 {
            let last_index = current_group[current_group.len() - 1].0;
            assert(entries_view(current_group@)[current_group@.len() - 1].0 == last_index as int);
            assert(last_index as int == s.1.last());
            if last_index < i && i - last_index > context_size {
                let ghost gvec = current_group;
                let ghost old_groups = matched_lines@;
                close_group(&mut matched_lines, &mut current_group);
                proof {
                    lemma_groups_push(old_groups, gvec);
                    lemma_groups_with_text_push(s.0, s.1, text);
                }
                assert(groups_view(matched_lines@) =~= groups_with_text(done, text));
                assert(entries_view(current_group@) =~= with_text(current, text));
            } else {
                assert(done == s.0 && current == s.1);
            }
        } else {
            assert(done == s.0 && current == s.1);
        }
        assert(groups_view(matched_lines@) == groups_with_text(done, text));
        assert(entries_view(current_group@) == with_text(current, text));
        let ghost current2 = if i >= s.2 { current.push(i as int) } else { current };
        let ghost added = if i >= s.2 { i as int } else { s.2 };
        if i >= last_line_added {
            let (index, matched_line) = line_text(lines, i, re, flags.highlight);
            let ghost before = current_group@;
            assert(matched_line@ == text(i as int));
            current_group.push((index, matched_line));
            proof {
                lemma_entries_push(before, (index, matched_line));
                lemma_with_text_push(current, i as int, text);
            }
            last_line_added = i;
        }
        assert(entries_view(current_group@) == with_text(current2, text));
        assert(last_line_added as int == min_int(added, usize::MAX as int));
        let end = if context_size >= n - 1 - i {
            n - 1
        } else {
            i + context_size
        };
        assert(end as int == min_int(i + ctx, n - 1));
        let mut j = if last_line_added > i + 1 {
            last_line_added
        } else {
            i + 1
        };
        let ghost first = max_int(added, i + 1);
        assert(j as int == first || (j as int > end as int && first > end as int));
        let ghost jstart = j as int;
        while j <= end
            invariant
                n == lines@.len(),
                jstart <= j,
                j <= end + 1 || (j == jstart && first > end),
                end < n,
                jstart <= end ==> jstart == first,
                lv == lines_view(lines@),
                text == context_text(re@, lv, flags.highlight),
                entries_view(current_group@) == with_text(current2 + index_range(first, j as int), text)
                    || (j == jstart && first > end && entries_view(current_group@) == with_text(current2, text)),
            decreases end + 1 - j,
        {
            let (line_number, context_line) = line_text(lines, j, re, flags.highlight);
            let ghost before = current_group@;
            assert(context_line@ == text(j as int));
            current_group.push((line_number, context_line));
            proof {
                lemma_entries_push(before, (line_number, context_line));
                lemma_index_range_push(first, j as int);
                assert(current2 + index_range(first, j + 1) =~= (current2 + index_range(first, j as int)).push(j as int));
                lemma_with_text_push(current2 + index_range(first, j as int), j as int, text);
            }
            j = j + 1;
        }
        proof {
            if first > end {
                assert(index_range(first, end + 1) =~= Seq::<int>::empty());
                assert(current2 + index_range(first, end + 1) =~= current2);
            }
        }
        assert(entries_view(current_group@) == with_text(current2 + index_range(first, end + 1), text));
        assert(after_state(mf, ctx, (i + 1) as nat) == after_step(s, i as int, ctx, n as int));
        last_line_added = i.saturating_add(context_size).saturating_add(1);
        i = i + 1;
    }
    assert(after_state(mf, ctx, n as nat) == after_state(mf, ctx, mf.len()));
    let ghost fin = after_state(mf, ctx, n as nat);
    assert(entries_view(current_group@).len() == current_group@.len());
    assert(with_text(fin.1, text).len() == fin.1.len());
    if current_group.len() > 0 {
        let ghost old_groups = matched_lines@;
        let ghost gvec = current_group;
        close_group(&mut matched_lines, &mut current_group);
        proof {
            lemma_groups_push(old_groups, gvec);
            lemma_groups_with_text_push(fin.0, fin.1, text);
        }
        assert(groups_view(matched_lines@) =~= groups_with_text(close_groups(fin), text));
    }
    assert(groups_view(matched_lines@) == groups_with_text(close_groups(fin), text));
    proof {
        lemma_close_within(fin, n as int);
        lemma_groups_indices(matched_lines@, close_groups(fin), text, n as int);
    }
    print_groups(&matched_lines, flags.line_number, group_separator)
}

/// The indices at which `flags` holds, in increasing order.
pub open spec fn selected_indices(flags: Seq<bool>) -> Seq<int>
    decreases flags.len(),
{
    if flags.len() == 0 {
        Seq::empty()
    } else {
        let before = selected_indices(flags.drop_last());
        if flags.last() {
            before.push(flags.len() - 1)
        } else {
            before
        }
    }
}

/// The selected indices lie in `[0, flags.len())`.
pub proof fn lemma_selected_within(flags: Seq<bool>)
    ensures
        forall|t: int| 0 <= t < selected_indices(flags).len() ==> 0 <= #[trigger] selected_indices(flags)[t] < flags.len(),
    decreases flags.len(),
{
    if flags.len() > 0 {
        lemma_selected_within(flags.drop_last());
        let before = selected_indices(flags.drop_last());
        let all = selected_indices(flags);
        assert forall|t: int| 0 <= t < all.len() implies 0 <= #[trigger] all[t] < flags.len() by {
            if t < before.len() {
                assert(all[t] == before[t]);
            }
        }
    }
}

/// The lines within `context_size` lines of line `m`, among `n` lines.
pub open spec fn context_window(m: int, context_size: int, n: int) -> Seq<int> {
    index_range(max_int(m - context_size, 0), min_int(m + context_size, n - 1) + 1)
}

/// One group for every matching line: the lines around it.
pub open spec fn context_groups(matched: Seq<bool>, context_size: int) -> Seq<Seq<int>> {
    selected_indices(matched).map_values(|m: int| context_window(m, context_size, matched.len() as int))
}

/// The text of each line, highlighted or as it is.
pub open spec fn context_text(re: (Seq<char>, bool), lines: Seq<Seq<char>>, highlight: bool) -> spec_fn(int) -> Seq<char> {
    if highlight {
        highlighted_lines(re, lines)
    } else {
        |j: int| lines[j]
    }
}

/// The lines printed by the search with context on both sides.
pub open spec fn context_output(
    re: (Seq<char>, bool),
    lines: Seq<Seq<char>>,
    context_size: int,
    highlight: bool,
    line_number: bool,
    separator: Seq<char>,
) -> Seq<Seq<char>> {
    render_groups(
        groups_with_text(context_groups(match_flags(re, lines), context_size), context_text(re, lines, highlight)),
        line_number,
        separator,
    )
}

/// The context groups name only lines of the input.
pub proof fn lemma_context_within(matched: Seq<bool>, context_size: int)
    requires
        context_size >= 0,
    ensures
        groups_within(context_groups(matched, context_size), matched.len() as int),
{
    lemma_selected_within(matched);
    let gs = context_groups(matched, context_size);
    assert forall|g: int, t: int| 0 <= g < gs.len() && 0 <= t < gs[g].len() implies 0 <= #[trigger] gs[g][t] < matched.len() by {
        let m = selected_indices(matched)[g];
        assert(gs[g] == context_window(m, context_size, matched.len() as int));
    }
}

/// The indices of the lines of `lines` that match `re`.
pub fn matching_line_numbers(lines: &Vec<String>, re: &Matcher) -> (r: Vec<usize>)
    ensures
        r@.map_values(|x: usize| x as int) == selected_indices(match_flags(re@, lines_view(lines@))),
{
    let ghost mf = match_flags(re@, lines_view(lines@));
    let mut numbers: Vec<usize> = Vec::new();
    let mut i: usize = 0;
    while i < lines.len()
        invariant
            0 <= i <= lines@.len(),
            mf == match_flags(re@, lines_view(lines@)),
            numbers@.map_values(|x: usize| x as int) == selected_indices(mf.take(i as int)),
        decreases lines@.len() - i,
    {
        assert(mf.take(i + 1).drop_last() =~= mf.take(i as int));
        let ghost before = numbers@;
        if first_match(re, lines[i].as_str()).is_some() {
            numbers.push(i);
            assert(numbers@.map_values(|x: usize| x as int) =~= before.map_values(|x: usize| x as int).push(i as int));
        }
        i = i + 1;
    }
    assert(mf.take(i as int) =~= mf);
    numbers
}

/// The lines printed when every matching line is shown with up to
/// `context_size` lines on each side: one group for every matching line,
/// so that a line may appear in several groups, highlighted when asked.
pub fn print_context(
    lines: &Vec<String>,
    re: &Matcher,
    flags: &Flags,
    context_size: usize,
    group_separator: &str,
) -> (r: Vec<String>)
    ensures
        r@.map_values(|s: String| s@) == context_output(
            re@,
            lines_view(lines@),
            context_size as int,
            flags.highlight,
            flags.line_number,
            group_separator@,
        ),
{
    let ghost lv = lines_view(lines@);
    let ghost mf = match_flags(re@, lv);
    let ghost text = context_text(re@, lv, flags.highlight);
    let ghost ctx = context_size as int;
    let ghost groups = context_groups(mf, ctx);
    let n = lines.len();
    let matched_line_numbers = matching_line_numbers(lines, re);
    let ghost numbers = matched_line_numbers@.map_values(|x: usize| x as int);
    assert(numbers.len() == matched_line_numbers@.len());
    let mut matched_lines: Vec<Vec<(usize, String)>> = Vec::new();
    let mut j: usize = 0;
    while j < matched_line_numbers.len()
        invariant
            n == lines@.len(),
            mf.len() == n,
            0 <= j <= matched_line_numbers@.len(),
            numbers == matched_line_numbers@.map_values(|x: usize| x as int),
            numbers == selected_indices(mf),
            numbers.len() == matched_line_numbers@.len(),
            lv == lines_view(lines@),
            mf == match_flags(re@, lv),
            text == context_text(re@, lv, flags.highlight),
            ctx == context_size as int,
            groups == context_groups(mf, ctx),
            groups_view(matched_lines@) == groups_with_text(groups.take(j as int), text),
        decreases matched_line_numbers@.len() - j,
    {
        let matched_number = matched_line_numbers[j];
        assert(numbers[j as int] == matched_number as int);
        let ghost lo = max_int(matched_number - ctx, 0);
        let ghost hi = matched_number + ctx;
        let starting_point = matched_number.saturating_sub(context_size);
        let mut group: Vec<(usize, String)> = Vec::new();
        let mut i: usize = 0;
        while i < n
            invariant
                n == lines@.len(),
                0 <= i <= n,
                lo == max_int(matched_number - ctx, 0),
                hi == matched_number + ctx,
                starting_point as int == lo,
                ctx == context_size as int,
                lv == lines_view(lines@),
                text == context_text(re@, lv, flags.highlight),
                entries_view(group@) == with_text(index_range(lo, min_int(i as int, hi + 1)), text),
            decreases n - i,
        {
            if i < starting_point || (i > matched_number && i - matched_number > context_size) {
                assert(index_range(lo, min_int(i + 1, hi + 1)) =~= index_range(lo, min_int(i as int, hi + 1)));
                i = i + 1;
                continue;
            }
            let ghost before = group@;
            let (index, printed) = line_text(lines, i, re, flags.highlight);
            assert(printed@ == text(i as int));
            group.push((index, printed));
            proof {
                lemma_entries_push(before, (index, printed));
            }
            proof {
                assert(min_int(i as int, hi + 1) == i);
                lemma_index_range_push(lo, i as int);
                lemma_with_text_push(index_range(lo, i as int), i as int, text);
            }
            i = i + 1;
        }
        assert(min_int(n as int, hi + 1) == min_int(matched_number + ctx, n - 1) + 1);
        assert(groups[j as int] == context_window(numbers[j as int], ctx, n as int));
        assert(entries_view(group@) == with_text(groups[j as int], text));
        let ghost old_groups = matched_lines@;
        let ghost gvec = group;
        matched_lines.push(group);
        proof {
            lemma_groups_push(old_groups, gvec);
            assert(groups.take(j + 1) =~= groups.take(j as int).push(groups[j as int]));
            lemma_groups_with_text_push(groups.take(j as int), groups[j as int], text);
        }
        j = j + 1;
    }
    assert(groups.take(j as int) =~= groups);
    proof {
        lemma_context_within(mf, ctx);
        lemma_groups_indices(matched_lines@, groups, text, n as int);
    }
    print_groups(&matched_lines, flags.line_number, group_separator)
}

} // verus!
